//! Typed audio-output policy, independent of how encoder commands are built.

use vstd::prelude::*;

use crate::output::{AudioCodec, OutputFormat};

verus! {

#[derive(Debug, Clone, Copy, PartialEq, Eq, Structural)]
pub enum ChannelLayout {
    Mono,
    Stereo,
    Surround51,
}

impl ChannelLayout {
    pub open spec fn channels(self) -> u8 {
        match self {
            ChannelLayout::Mono => 1,
            ChannelLayout::Stereo => 2,
            ChannelLayout::Surround51 => 6,
        }
    }

    pub fn channel_count(self) -> (count: u8)
        ensures
            count == self.channels(),
    {
        match self {
            ChannelLayout::Mono => 1,
            ChannelLayout::Stereo => 2,
            ChannelLayout::Surround51 => 6,
        }
    }
}

#[derive(Debug, Clone, Copy, PartialEq, Eq, Structural)]
pub enum AudioOutputError {
    IncompatibleContainer,
    UnsupportedSampleRate,
    InvalidBitrate,
    UnsupportedChannelLayout,
    InvalidLoudnessTarget,
}

#[derive(Debug, Clone, Copy, PartialEq, Eq, Structural)]
pub struct AudioOutputSpec {
    pub codec: AudioCodec,
    pub bitrate_kbps: Option<u32>,
    pub sample_rate_hz: u32,
    pub channel_layout: ChannelLayout,
    /// Integrated loudness target in milli-LUFS; absent means no normalisation.
    pub loudness_target_lufs_milli: Option<i32>,
}

/// The audio codec each container takes.
pub open spec fn container_accepts(format: OutputFormat, codec: AudioCodec) -> bool {
    match format {
        OutputFormat::Mp4 | OutputFormat::Av1 => codec == AudioCodec::Aac,
        OutputFormat::Webm => codec == AudioCodec::Opus,
        OutputFormat::Prores => codec == AudioCodec::PcmS16Le,
        OutputFormat::Mp3 => codec == AudioCodec::Mp3,
        _ => false,
    }
}

/// The first audio rule, in validation order, that `spec` breaks in `format`.
pub open spec fn audio_output_error(spec: AudioOutputSpec, format: OutputFormat) -> Option<AudioOutputError> {
    let bitrate_ok = match (spec.codec, spec.bitrate_kbps) {
        (AudioCodec::PcmS16Le, None) => true,
        (AudioCodec::PcmS16Le, Some(_)) => false,
        (_, Some(kbps)) => 32 <= kbps <= 512,
        (_, None) => false,
    };
    if !container_accepts(format, spec.codec) {
        Some(AudioOutputError::IncompatibleContainer)
    } else if !(spec.sample_rate_hz == 44_100 || spec.sample_rate_hz == 48_000 || spec.sample_rate_hz == 96_000) {
        Some(AudioOutputError::UnsupportedSampleRate)
    } else if !bitrate_ok {
        Some(AudioOutputError::InvalidBitrate)
    } else if spec.channel_layout == ChannelLayout::Surround51 && spec.codec == AudioCodec::Mp3 {
        Some(AudioOutputError::UnsupportedChannelLayout)
    } else if (spec.loudness_target_lufs_milli matches Some(v) && !(-70_000 <= v <= 0)) {
        Some(AudioOutputError::InvalidLoudnessTarget)
    } else {
        None
    }
}

/// The default policy: 192 kb/s for lossy codecs, 48 kHz stereo, -14 LUFS.
pub open spec fn default_audio(codec: AudioCodec) -> AudioOutputSpec {
    AudioOutputSpec {
        codec,
        bitrate_kbps: if codec == AudioCodec::PcmS16Le { None } else { Some(192u32) },
        sample_rate_hz: 48_000u32,
        channel_layout: ChannelLayout::Stereo,
        loudness_target_lufs_milli: Some(-14_000i32),
    }
}

impl AudioOutputSpec {
    pub open spec fn default_result(format: OutputFormat, codec: AudioCodec) -> Result<AudioOutputSpec, AudioOutputError> {
        match audio_output_error(default_audio(codec), format) {
            Some(e) => Err(e),
            None => Ok(default_audio(codec)),
        }
    }

    pub fn default_for(format: OutputFormat, codec: AudioCodec) -> (result: Result<Self, AudioOutputError>)
        ensures
            result == AudioOutputSpec::default_result(format, codec),
    {
        let value = AudioOutputSpec {
            codec,
            bitrate_kbps: match codec {
                AudioCodec::PcmS16Le => None,
                _ => Some(192),
            },
            sample_rate_hz: 48_000,
            channel_layout: ChannelLayout::Stereo,
            loudness_target_lufs_milli: Some(-14_000),
        };
        assert(value == default_audio(codec));
        match value.validate_for(format) {
            Ok(()) => Ok(value),
            Err(e) => Err(e),
        }
    }

    pub fn validate_for(&self, format: OutputFormat) -> (result: Result<(), AudioOutputError>)
        ensures
            result == (match audio_output_error(*self, format) {
                Some(e) => Err::<(), AudioOutputError>(e),
                None => Ok(()),
            }),
    {
        let compatible = match format {
            OutputFormat::Mp4 | OutputFormat::Av1 => self.codec == AudioCodec::Aac,
            OutputFormat::Webm => self.codec == AudioCodec::Opus,
            OutputFormat::Prores => self.codec == AudioCodec::PcmS16Le,
            OutputFormat::Mp3 => self.codec == AudioCodec::Mp3,
            _ => false,
        };
        if !compatible {
            return Err(AudioOutputError::IncompatibleContainer);
        }
        if !(self.sample_rate_hz == 44_100 || self.sample_rate_hz == 48_000 || self.sample_rate_hz == 96_000) {
            return Err(AudioOutputError::UnsupportedSampleRate);
        }
        let bitrate_ok = match (self.codec, self.bitrate_kbps) {
            (AudioCodec::PcmS16Le, None) => true,
            (AudioCodec::PcmS16Le, Some(_)) => false,
            (_, Some(kbps)) => 32 <= kbps && kbps <= 512,
            (_, None) => false,
        };
        if !bitrate_ok {
            return Err(AudioOutputError::InvalidBitrate);
        }
        if self.channel_layout == ChannelLayout::Surround51 && self.codec == AudioCodec::Mp3 {
            return Err(AudioOutputError::UnsupportedChannelLayout);
        }
        match self.loudness_target_lufs_milli {
            Some(v) => {
                if v < -70_000 || v > 0 {
                    return Err(AudioOutputError::InvalidLoudnessTarget);
                }
            },
            None => {},
        }
        Ok(())
    }
}

/// The default policy of each container's own codec passes validation.
pub proof fn law_defaults_are_container_compatible(format: OutputFormat, codec: AudioCodec)
    requires
        container_accepts(format, codec),
    ensures
        AudioOutputSpec::default_result(format, codec) == Ok::<AudioOutputSpec, AudioOutputError>(default_audio(codec)),
{
}

} // verus!
