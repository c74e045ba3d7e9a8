//! Final output semantics shared by planning and the encoder adapters.

use vstd::prelude::*;

use crate::audio_output::{AudioOutputError, AudioOutputSpec};
use crate::edit::{valid_dimension, OutputScale};
use crate::text::str_equal;

verus! {

#[derive(Debug, Clone, Copy, PartialEq, Eq, Structural)]
pub enum OutputFormat {
    Mp4,
    Webm,
    Gif,
    Png,
    Jpg,
    Mp3,
    Av1,
    Prores,
}

impl OutputFormat {
    pub open spec fn name(self) -> Seq<char> {
        match self {
            OutputFormat::Mp4 => "mp4"@,
            OutputFormat::Webm => "webm"@,
            OutputFormat::Gif => "gif"@,
            OutputFormat::Png => "png"@,
            OutputFormat::Jpg => "jpg"@,
            OutputFormat::Mp3 => "mp3"@,
            OutputFormat::Av1 => "av1"@,
            OutputFormat::Prores => "prores"@,
        }
    }

    /// The format a request names; no name means MP4.
    pub open spec fn from_name(value: Option<Seq<char>>) -> Option<OutputFormat> {
        let name = match value {
            Some(v) => v,
            None => "mp4"@,
        };
        if name == "mp4"@ {
            Some(OutputFormat::Mp4)
        } else if name == "webm"@ {
            Some(OutputFormat::Webm)
        } else if name == "gif"@ {
            Some(OutputFormat::Gif)
        } else if name == "png"@ {
            Some(OutputFormat::Png)
        } else if name == "jpg"@ {
            Some(OutputFormat::Jpg)
        } else if name == "mp3"@ {
            Some(OutputFormat::Mp3)
        } else if name == "av1"@ {
            Some(OutputFormat::Av1)
        } else if name == "prores"@ {
            Some(OutputFormat::Prores)
        } else {
            None
        }
    }

    pub fn parse(value: Option<&str>) -> (result: Result<Self, OutputSpecError>)
        ensures
            result == (match OutputFormat::from_name(
                match value {
                    Some(v) => Some(v@),
                    None => None,
                },
            ) {
                Some(format) => Ok::<OutputFormat, OutputSpecError>(format),
                None => Err(OutputSpecError::InvalidFormat),
            }),
    {
        let name = match value {
            Some(v) => v,
            None => "mp4",
        };
        if str_equal(name, "mp4") {
            Ok(OutputFormat::Mp4)
        } else if str_equal(name, "webm") {
            Ok(OutputFormat::Webm)
        } else if str_equal(name, "gif") {
            Ok(OutputFormat::Gif)
        } else if str_equal(name, "png") {
            Ok(OutputFormat::Png)
        } else if str_equal(name, "jpg") {
            Ok(OutputFormat::Jpg)
        } else if str_equal(name, "mp3") {
            Ok(OutputFormat::Mp3)
        } else if str_equal(name, "av1") {
            Ok(OutputFormat::Av1)
        } else if str_equal(name, "prores") {
            Ok(OutputFormat::Prores)
        } else {
            Err(OutputSpecError::InvalidFormat)
        }
    }

    pub fn as_str(self) -> (name: &'static str)
        ensures
            name@ == self.name(),
    {
        match self {
            OutputFormat::Mp4 => "mp4",
            OutputFormat::Webm => "webm",
            OutputFormat::Gif => "gif",
            OutputFormat::Png => "png",
            OutputFormat::Jpg => "jpg",
            OutputFormat::Mp3 => "mp3",
            OutputFormat::Av1 => "av1",
            OutputFormat::Prores => "prores",
        }
    }

    /// The file extension: ProRes goes in a QuickTime `.mov`, AV1 in `.mp4`.
    pub open spec fn file_extension(self) -> Seq<char> {
        match self {
            OutputFormat::Webm => "webm"@,
            OutputFormat::Gif => "gif"@,
            OutputFormat::Png => "png"@,
            OutputFormat::Jpg => "jpg"@,
            OutputFormat::Mp3 => "mp3"@,
            OutputFormat::Prores => "mov"@,
            OutputFormat::Mp4 | OutputFormat::Av1 => "mp4"@,
        }
    }

    pub fn extension(self) -> (extension: &'static str)
        ensures
            extension@ == self.file_extension(),
    {
        match self {
            OutputFormat::Webm => "webm",
            OutputFormat::Gif => "gif",
            OutputFormat::Png => "png",
            OutputFormat::Jpg => "jpg",
            OutputFormat::Mp3 => "mp3",
            OutputFormat::Prores => "mov",
            OutputFormat::Mp4 | OutputFormat::Av1 => "mp4",
        }
    }
}

#[derive(Debug, Clone, Copy, PartialEq, Eq, Structural)]
pub enum VideoCodec {
    H264,
    H265,
    Vp9,
    Av1,
    Prores,
}

impl VideoCodec {
    /// The MP4 codec a request names; no name means H.264.
    pub open spec fn mp4_from_name(value: Option<Seq<char>>) -> Option<VideoCodec> {
        let name = match value {
            Some(v) => v,
            None => "h264"@,
        };
        if name == "h264"@ {
            Some(VideoCodec::H264)
        } else if name == "h265"@ {
            Some(VideoCodec::H265)
        } else {
            None
        }
    }

    pub fn parse_mp4(value: Option<&str>) -> (result: Result<Self, OutputSpecError>)
        ensures
            result == (match VideoCodec::mp4_from_name(
                match value {
                    Some(v) => Some(v@),
                    None => None,
                },
            ) {
                Some(codec) => Ok::<VideoCodec, OutputSpecError>(codec),
                None => Err(OutputSpecError::InvalidCodec),
            }),
    {
        let name = match value {
            Some(v) => v,
            None => "h264",
        };
        if str_equal(name, "h264") {
            Ok(VideoCodec::H264)
        } else if str_equal(name, "h265") {
            Ok(VideoCodec::H265)
        } else {
            Err(OutputSpecError::InvalidCodec)
        }
    }

    pub open spec fn encoder(self) -> Seq<char> {
        match self {
            VideoCodec::H264 => "libx264"@,
            VideoCodec::H265 => "libx265"@,
            VideoCodec::Vp9 => "libvpx-vp9"@,
            VideoCodec::Av1 => "libsvtav1"@,
            VideoCodec::Prores => "prores_ks"@,
        }
    }

    pub fn ffmpeg_name(self) -> (name: &'static str)
        ensures
            name@ == self.encoder(),
    {
        match self {
            VideoCodec::H264 => "libx264",
            VideoCodec::H265 => "libx265",
            VideoCodec::Vp9 => "libvpx-vp9",
            VideoCodec::Av1 => "libsvtav1",
            VideoCodec::Prores => "prores_ks",
        }
    }
}

#[derive(Debug, Clone, Copy, PartialEq, Eq, Structural)]
pub enum AudioCodec {
    Aac,
    Opus,
    PcmS16Le,
    Mp3,
}

#[derive(Debug, Clone, Copy, PartialEq, Eq, Structural)]
pub enum OutputSpecError {
    InvalidFormat,
    InvalidCodec,
    InvalidAudioCodec,
    InvalidQuality,
    InvalidFps,
    InvalidDimensions,
}

#[derive(Debug, Clone, Copy, PartialEq, Eq, Structural)]
pub struct OutputSpec {
    pub format: OutputFormat,
    pub video_codec: Option<VideoCodec>,
    pub audio_codec: Option<AudioCodec>,
    pub crf: Option<u32>,
    /// Milliframes per second keep floats out of artifact identity.
    pub fps_milli: Option<u32>,
    pub width: Option<i32>,
    pub height: Option<i32>,
}

/// The video codec a format carries, given what the request asked for MP4.
pub open spec fn planned_video_codec(format: OutputFormat, mp4_codec: Option<VideoCodec>) -> Option<VideoCodec> {
    match format {
        OutputFormat::Mp4 => Some(
            match mp4_codec {
                Some(codec) => codec,
                None => VideoCodec::H264,
            },
        ),
        OutputFormat::Webm => Some(VideoCodec::Vp9),
        OutputFormat::Av1 => Some(VideoCodec::Av1),
        OutputFormat::Prores => Some(VideoCodec::Prores),
        _ => None,
    }
}

/// The audio codec a format carries, unless muted or a still/animated image.
pub open spec fn planned_audio_codec(format: OutputFormat, muted: bool) -> Option<AudioCodec> {
    if muted || format == OutputFormat::Gif || format == OutputFormat::Png || format == OutputFormat::Jpg {
        None
    } else {
        match format {
            OutputFormat::Webm => Some(AudioCodec::Opus),
            OutputFormat::Prores => Some(AudioCodec::PcmS16Le),
            OutputFormat::Mp3 => Some(AudioCodec::Mp3),
            _ => Some(AudioCodec::Aac),
        }
    }
}

/// The quality for a codec: the request's, else the codec's default (23 for
/// H.264, 28 for H.265, 32 for VP9 and AV1); ProRes takes none.
pub open spec fn planned_crf(codec: Option<VideoCodec>, quality: Option<u32>) -> Option<u32> {
    let pick = |default: u32|
        match quality {
            Some(q) => q,
            None => default,
        };
    match codec {
        Some(VideoCodec::H264) => Some(pick(23)),
        Some(VideoCodec::H265) => Some(pick(28)),
        Some(VideoCodec::Vp9) | Some(VideoCodec::Av1) => Some(pick(32)),
        _ => None,
    }
}

pub open spec fn planned_output(
    format: OutputFormat,
    mp4_codec: Option<VideoCodec>,
    muted: bool,
    quality: Option<u32>,
    fps_milli: Option<u32>,
    scale: Option<OutputScale>,
) -> OutputSpec {
    let video = planned_video_codec(format, mp4_codec);
    OutputSpec {
        format,
        video_codec: video,
        audio_codec: planned_audio_codec(format, muted),
        crf: planned_crf(video, quality),
        fps_milli,
        width: match scale {
            Some(s) => Some(s.width),
            None => None,
        },
        height: match scale {
            Some(s) => Some(s.height),
            None => None,
        },
    }
}

/// The first rule, in validation order, that an output breaks.
pub open spec fn output_error(spec: OutputSpec) -> Option<OutputSpecError> {
    let expected_video = match spec.format {
        OutputFormat::Mp4 => spec.video_codec == Some(VideoCodec::H264) || spec.video_codec == Some(VideoCodec::H265),
        OutputFormat::Webm => spec.video_codec == Some(VideoCodec::Vp9),
        OutputFormat::Av1 => spec.video_codec == Some(VideoCodec::Av1),
        OutputFormat::Prores => spec.video_codec == Some(VideoCodec::Prores),
        _ => spec.video_codec is None,
    };
    let expected_audio = match spec.format {
        OutputFormat::Gif | OutputFormat::Png | OutputFormat::Jpg => spec.audio_codec is None,
        OutputFormat::Webm => spec.audio_codec is None || spec.audio_codec == Some(AudioCodec::Opus),
        OutputFormat::Prores => spec.audio_codec is None || spec.audio_codec == Some(AudioCodec::PcmS16Le),
        OutputFormat::Mp3 => spec.audio_codec == Some(AudioCodec::Mp3),
        OutputFormat::Mp4 | OutputFormat::Av1 => spec.audio_codec is None || spec.audio_codec == Some(AudioCodec::Aac),
    };
    let quality_ok = match (spec.video_codec, spec.crf) {
        (Some(VideoCodec::H264), Some(q)) => q <= 51,
        (Some(VideoCodec::H265), Some(q)) => q <= 51,
        (Some(VideoCodec::Vp9), Some(q)) => q <= 63,
        (Some(VideoCodec::Av1), Some(q)) => q <= 63,
        (Some(VideoCodec::Prores), None) => true,
        (None, None) => true,
        _ => false,
    };
    let fps_ok = match spec.fps_milli {
        Some(f) => 1000 <= f <= 240_000,
        None => true,
    };
    let dimensions_ok = match (spec.width, spec.height) {
        (None, None) => true,
        (Some(w), Some(h)) => valid_dimension(w) && valid_dimension(h) && !(w < 0 && h < 0),
        _ => false,
    };
    if !expected_video {
        Some(OutputSpecError::InvalidCodec)
    } else if !expected_audio {
        Some(OutputSpecError::InvalidAudioCodec)
    } else if !quality_ok {
        Some(OutputSpecError::InvalidQuality)
    } else if !fps_ok {
        Some(OutputSpecError::InvalidFps)
    } else if !dimensions_ok {
        Some(OutputSpecError::InvalidDimensions)
    } else {
        None
    }
}

/// Why a planned output is refused: an MP4 codec other than H.264 or H.265,
/// then a frame rate outside 1 to 240 frames per second, then the first
/// rule the planned output breaks.
pub open spec fn creation_error(planned: OutputSpec) -> Option<OutputSpecError> {
    if planned.format == OutputFormat::Mp4 && !(planned.video_codec == Some(VideoCodec::H264)
        || planned.video_codec == Some(VideoCodec::H265)) {
        Some(OutputSpecError::InvalidCodec)
    } else if (match planned.fps_milli {
        Some(f) => !(1000 <= f <= 240_000),
        None => false,
    }) {
        Some(OutputSpecError::InvalidFps)
    } else {
        output_error(planned)
    }
}

impl OutputSpec {
    /// Plan an output from a request. The frame rate arrives in milliframes
    /// per second, already rounded from the request's frames per second.
    pub fn new(
        format: OutputFormat,
        mp4_codec: Option<VideoCodec>,
        muted: bool,
        quality: Option<u32>,
        fps_milli: Option<u32>,
        scale: Option<OutputScale>,
    ) -> (result: Result<Self, OutputSpecError>)
        ensures
            ({
                let planned = planned_output(format, mp4_codec, muted, quality, fps_milli, scale);
                result == (match creation_error(planned) {
                    Some(e) => Err::<OutputSpec, OutputSpecError>(e),
                    None => Ok(planned),
                })
            }),
            result matches Ok(spec) ==> ({
                let codec = spec.audio_codec;
                &&& (muted || format == OutputFormat::Gif || format == OutputFormat::Png || format == OutputFormat::Jpg)
                    <==> codec is None
                &&& !muted && (format == OutputFormat::Mp4 || format == OutputFormat::Av1) ==> codec == Some(AudioCodec::Aac)
                &&& !muted && format == OutputFormat::Webm ==> codec == Some(AudioCodec::Opus)
                &&& !muted && format == OutputFormat::Prores ==> codec == Some(AudioCodec::PcmS16Le)
                &&& !muted && format == OutputFormat::Mp3 ==> codec == Some(AudioCodec::Mp3)
            }),
    {
        proof {
            law_audio_follows_format(format, mp4_codec, muted, quality, fps_milli, scale);
        }
        let video_codec = match format {
            OutputFormat::Mp4 => Some(
                match mp4_codec {
                    Some(codec) => codec,
                    None => VideoCodec::H264,
                },
            ),
            OutputFormat::Webm => Some(VideoCodec::Vp9),
            OutputFormat::Av1 => Some(VideoCodec::Av1),
            OutputFormat::Prores => Some(VideoCodec::Prores),
            _ => None,
        };
        let is_image = match format {
            OutputFormat::Gif | OutputFormat::Png | OutputFormat::Jpg => true,
            _ => false,
        };
        let audio_codec = if muted || is_image {
            None
        } else {
            match format {
                OutputFormat::Webm => Some(AudioCodec::Opus),
                OutputFormat::Prores => Some(AudioCodec::PcmS16Le),
                OutputFormat::Mp3 => Some(AudioCodec::Mp3),
                _ => Some(AudioCodec::Aac),
            }
        };
        let crf = match video_codec {
            Some(VideoCodec::H264) => Some(
                match quality {
                    Some(q) => q,
                    None => 23,
                },
            ),
            Some(VideoCodec::H265) => Some(
                match quality {
                    Some(q) => q,
                    None => 28,
                },
            ),
            Some(VideoCodec::Vp9) | Some(VideoCodec::Av1) => Some(
                match quality {
                    Some(q) => q,
                    None => 32,
                },
            ),
            _ => None,
        };
        let value = OutputSpec {
            format,
            video_codec,
            audio_codec,
            crf,
            fps_milli,
            width: match scale {
                Some(s) => Some(s.width),
                None => None,
            },
            height: match scale {
                Some(s) => Some(s.height),
                None => None,
            },
        };
        assert(value == planned_output(format, mp4_codec, muted, quality, fps_milli, scale));
        let mp4_codec_ok = match video_codec {
            Some(VideoCodec::H264) | Some(VideoCodec::H265) => true,
            _ => false,
        };
        if format == OutputFormat::Mp4 && !mp4_codec_ok {
            return Err(OutputSpecError::InvalidCodec);
        }
        match fps_milli {
            Some(f) => {
                if f < 1000 || f > 240_000 {
                    return Err(OutputSpecError::InvalidFps);
                }
            },
            None => {},
        }
        match value.validate() {
            Ok(()) => Ok(value),
            Err(e) => Err(e),
        }
    }

    pub fn validate(&self) -> (result: Result<(), OutputSpecError>)
        ensures
            result == (match output_error(*self) {
                Some(e) => Err::<(), OutputSpecError>(e),
                None => Ok(()),
            }),
    {
        let expected_video = match self.format {
            OutputFormat::Mp4 => match self.video_codec {
                Some(VideoCodec::H264) | Some(VideoCodec::H265) => true,
                _ => false,
            },
            OutputFormat::Webm => match self.video_codec {
                Some(VideoCodec::Vp9) => true,
                _ => false,
            },
            OutputFormat::Av1 => match self.video_codec {
                Some(VideoCodec::Av1) => true,
                _ => false,
            },
            OutputFormat::Prores => match self.video_codec {
                Some(VideoCodec::Prores) => true,
                _ => false,
            },
            _ => self.video_codec.is_none(),
        };
        if !expected_video {
            return Err(OutputSpecError::InvalidCodec);
        }
        let expected_audio = match self.format {
            OutputFormat::Gif | OutputFormat::Png | OutputFormat::Jpg => self.audio_codec.is_none(),
            OutputFormat::Webm => match self.audio_codec {
                None | Some(AudioCodec::Opus) => true,
                _ => false,
            },
            OutputFormat::Prores => match self.audio_codec {
                None | Some(AudioCodec::PcmS16Le) => true,
                _ => false,
            },
            OutputFormat::Mp3 => match self.audio_codec {
                Some(AudioCodec::Mp3) => true,
                _ => false,
            },
            OutputFormat::Mp4 | OutputFormat::Av1 => match self.audio_codec {
                None | Some(AudioCodec::Aac) => true,
                _ => false,
            },
        };
        if !expected_audio {
            return Err(OutputSpecError::InvalidAudioCodec);
        }
        let quality_ok = match (self.video_codec, self.crf) {
            (Some(VideoCodec::H264), Some(q)) => q <= 51,
            (Some(VideoCodec::H265), Some(q)) => q <= 51,
            (Some(VideoCodec::Vp9), Some(q)) => q <= 63,
            (Some(VideoCodec::Av1), Some(q)) => q <= 63,
            (Some(VideoCodec::Prores), None) => true,
            (None, None) => true,
            _ => false,
        };
        if !quality_ok {
            return Err(OutputSpecError::InvalidQuality);
        }
        match self.fps_milli {
            Some(f) => {
                if f < 1000 || f > 240_000 {
                    return Err(OutputSpecError::InvalidFps);
                }
            },
            None => {},
        }
        match (self.width, self.height) {
            (None, None) => {},
            (Some(width), Some(height)) => {
                let scale = OutputScale { width, height };
                if scale.validate().is_err() {
                    return Err(OutputSpecError::InvalidDimensions);
                }
            },
            _ => {
                return Err(OutputSpecError::InvalidDimensions);
            },
        }
        Ok(())
    }

    /// The expanded audio policy for encoder adapters; the stable output
    /// contract itself stays as it is.
    pub fn audio_output_spec(&self) -> (result: Result<Option<AudioOutputSpec>, AudioOutputError>)
        ensures
            self.audio_codec is None ==> result == Ok::<Option<AudioOutputSpec>, AudioOutputError>(None),
            self.audio_codec matches Some(codec) ==> result == (match AudioOutputSpec::default_result(
                self.format,
                codec,
            ) {
                Ok(spec) => Ok::<Option<AudioOutputSpec>, AudioOutputError>(Some(spec)),
                Err(e) => Err(e),
            }),
    {
        match self.audio_codec {
            None => Ok(None),
            Some(codec) => match AudioOutputSpec::default_for(self.format, codec) {
                Ok(spec) => Ok(Some(spec)),
                Err(e) => Err(e),
            },
        }
    }
}

/// An output carries sound exactly when it is not muted and its format is
/// not an image (GIF, PNG, JPEG): WebM with Opus, ProRes with 16-bit PCM,
/// MP3 with MP3, and MP4 and AV1 with AAC.
pub proof fn law_audio_follows_format(
    format: OutputFormat,
    mp4_codec: Option<VideoCodec>,
    muted: bool,
    quality: Option<u32>,
    fps_milli: Option<u32>,
    scale: Option<OutputScale>,
)
    ensures
        ({
            let codec = planned_output(format, mp4_codec, muted, quality, fps_milli, scale).audio_codec;
            &&& (muted || format == OutputFormat::Gif || format == OutputFormat::Png || format == OutputFormat::Jpg)
                <==> codec is None
            &&& !muted && (format == OutputFormat::Mp4 || format == OutputFormat::Av1) ==> codec == Some(AudioCodec::Aac)
            &&& !muted && format == OutputFormat::Webm ==> codec == Some(AudioCodec::Opus)
            &&& !muted && format == OutputFormat::Prores ==> codec == Some(AudioCodec::PcmS16Le)
            &&& !muted && format == OutputFormat::Mp3 ==> codec == Some(AudioCodec::Mp3)
        }),
{
}

} // verus!
