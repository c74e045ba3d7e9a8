use editor_domain::audio_output::{AudioOutputError, AudioOutputSpec, ChannelLayout};
use editor_domain::audio_pipeline::{latency_compensation, waveform_tile_key, AudioEffectNode, AudioTime};
use editor_domain::fingerprint::Fingerprint;
use editor_domain::output::{AudioCodec, OutputFormat};

fn delay(delays: &[(String, u64)], id: &str) -> u64 {
    delays.iter().find(|(key, _)| key == id).map(|(_, value)| *value).unwrap()
}

#[test]
fn defaults_are_container_compatible() {
    for (format, codec) in [
        (OutputFormat::Mp4, AudioCodec::Aac),
        (OutputFormat::Webm, AudioCodec::Opus),
        (OutputFormat::Prores, AudioCodec::PcmS16Le),
        (OutputFormat::Mp3, AudioCodec::Mp3),
    ] {
        AudioOutputSpec::default_for(format, codec).unwrap();
    }
}

#[test]
fn lossy_and_pcm_bitrate_contracts_are_distinct() {
    let mut pcm = AudioOutputSpec::default_for(OutputFormat::Prores, AudioCodec::PcmS16Le).unwrap();
    pcm.bitrate_kbps = Some(192);
    assert_eq!(
        pcm.validate_for(OutputFormat::Prores),
        Err(AudioOutputError::InvalidBitrate)
    );
    let mut aac = AudioOutputSpec::default_for(OutputFormat::Mp4, AudioCodec::Aac).unwrap();
    aac.bitrate_kbps = None;
    assert_eq!(
        aac.validate_for(OutputFormat::Mp4),
        Err(AudioOutputError::InvalidBitrate)
    );
    aac.bitrate_kbps = Some(192);
    aac.loudness_target_lufs_milli = Some(1);
    assert_eq!(
        aac.validate_for(OutputFormat::Mp4),
        Err(AudioOutputError::InvalidLoudnessTarget)
    );
}

#[test]
fn sample_time_round_trip_and_latency_alignment_are_exact() {
    let original = AudioTime::new(44_100 * 60, 44_100).unwrap();
    assert_eq!(
        original.rescale(48_000).unwrap().rescale(44_100).unwrap(),
        original
    );
    let delays = latency_compensation(&[
        AudioEffectNode {
            id: "dry".into(),
            inputs: vec![],
            latency_samples: 0,
        },
        AudioEffectNode {
            id: "wet".into(),
            inputs: vec![],
            latency_samples: 128,
        },
        AudioEffectNode {
            id: "mix".into(),
            inputs: vec!["dry".into(), "wet".into()],
            latency_samples: 0,
        },
    ])
    .unwrap();
    assert_eq!(delay(&delays, "dry"), 128);
    assert_eq!(delay(&delays, "wet"), 0);
}

#[test]
fn every_default_passes_its_own_validation() {
    for (format, codec) in [
        (OutputFormat::Mp4, AudioCodec::Aac),
        (OutputFormat::Webm, AudioCodec::Opus),
        (OutputFormat::Prores, AudioCodec::PcmS16Le),
        (OutputFormat::Mp3, AudioCodec::Mp3),
    ] {
        let spec = AudioOutputSpec::default_for(format, codec).unwrap();
        assert_eq!(spec.validate_for(format), Ok(()));
    }
}

#[test]
fn stereo_has_two_channels() {
    assert_eq!(ChannelLayout::Mono.channel_count(), 1);
    assert_eq!(ChannelLayout::Stereo.channel_count(), 2);
}

#[test]
fn latency_compensation_rejects_unknown_inputs() {
    let result = latency_compensation(&[AudioEffectNode {
        id: "mix".into(),
        inputs: vec!["ghost".into()],
        latency_samples: 0,
    }]);
    assert!(result.is_err());
}

#[test]
fn audio_time_rejects_a_zero_rate() {
    assert_eq!(AudioTime::new(1, 0), None);
}

#[test]
fn waveform_tile_keys_frame_every_field() {
    let source = Fingerprint::digest(b"source");
    let key = waveform_tile_key(&source, 2, 7, 512);
    let parts = vec![
        source.as_str().as_bytes().to_vec(),
        vec![2u8],
        7u32.to_be_bytes().to_vec(),
        512u32.to_be_bytes().to_vec(),
    ];
    assert_eq!(key, Fingerprint::combine(&parts));
    assert_ne!(key, waveform_tile_key(&source, 2, 7, 256));
}
