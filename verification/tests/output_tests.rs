use editor_domain::edit::OutputScale;
use editor_domain::output::{AudioCodec, OutputFormat, OutputSpec, OutputSpecError, VideoCodec};
use editor_domain::still_container::{
    ColorPrimaries, ImageOrientation, MetadataKind, StillBrand, StillCodec, StillContainer, StillContainerError,
    StillContainerSpec, StillImageItem, StillImageMetadata, StillItemRole,
};

fn spec(format: OutputFormat, codec: Option<VideoCodec>, quality: Option<u32>) -> OutputSpec {
    OutputSpec::new(format, codec, false, quality, None, None).unwrap()
}

#[test]
fn quality_defaults_are_codec_specific() {
    assert_eq!(spec(OutputFormat::Mp4, None, None).crf, Some(23));
    assert_eq!(spec(OutputFormat::Mp4, Some(VideoCodec::H265), None).crf, Some(28));
    assert_eq!(spec(OutputFormat::Webm, None, None).crf, Some(32));
    assert_eq!(spec(OutputFormat::Av1, None, None).crf, Some(32));
}

#[test]
fn explicit_quality_and_output_shape_are_part_of_spec() {
    let value = OutputSpec::new(
        OutputFormat::Mp4,
        Some(VideoCodec::H265),
        false,
        Some(19),
        Some(29_970),
        Some(OutputScale {
            width: 1920,
            height: 1080,
        }),
    )
    .unwrap();
    assert_eq!(value.video_codec, Some(VideoCodec::H265));
    assert_eq!(value.crf, Some(19));
    assert_eq!(value.fps_milli, Some(29_970));
    assert_eq!((value.width, value.height), (Some(1920), Some(1080)));
}

#[test]
fn audio_policy_expands_from_stable_output_contract() {
    let output = spec(OutputFormat::Webm, None, None);
    let audio = output.audio_output_spec().unwrap().unwrap();
    assert_eq!(audio.codec, AudioCodec::Opus);
    assert_eq!(audio.sample_rate_hz, 48_000);
}

#[test]
fn muted_output_has_no_audio_policy() {
    let muted = OutputSpec::new(OutputFormat::Mp4, None, true, None, None, None).unwrap();
    assert_eq!(muted.audio_codec, None);
    assert_eq!(muted.audio_output_spec(), Ok(None));
}

#[test]
fn output_formats_parse_and_name_their_extension() {
    assert_eq!(OutputFormat::parse(None), Ok(OutputFormat::Mp4));
    assert_eq!(OutputFormat::parse(Some("webm")), Ok(OutputFormat::Webm));
    assert_eq!(OutputFormat::parse(Some("mkv")), Err(OutputSpecError::InvalidFormat));
    assert_eq!(OutputFormat::Webm.extension(), "webm");
    assert_eq!(VideoCodec::parse_mp4(Some("h265")), Ok(VideoCodec::H265));
    assert_eq!(VideoCodec::parse_mp4(Some("vp9")), Err(OutputSpecError::InvalidCodec));
}

#[test]
fn out_of_range_quality_is_rejected() {
    assert_eq!(
        OutputSpec::new(OutputFormat::Mp4, None, false, Some(99), None, None),
        Err(OutputSpecError::InvalidQuality)
    );
}

fn single_image() -> StillContainerSpec {
    StillContainerSpec {
        container: StillContainer::Avif,
        codec: StillCodec::Av1,
        major_brand: StillBrand::Avif,
        items: vec![
            StillImageItem {
                id: 1,
                role: StillItemRole::Primary,
                codec: StillCodec::Av1,
            },
            StillImageItem {
                id: 2,
                role: StillItemRole::AlphaAuxiliary,
                codec: StillCodec::Av1,
            },
        ],
        metadata: StillImageMetadata {
            color_primaries: ColorPrimaries::Bt709,
            has_icc_profile: false,
            alpha: true,
            orientation: ImageOrientation::Identity,
            blocks: Vec::new(),
        },
    }
}

#[test]
fn validates_single_image_and_sequence_brands() {
    let single = single_image();
    single.validate().unwrap();
    let mut sequence = single.clone();
    sequence.items.push(StillImageItem {
        id: 3,
        role: StillItemRole::Primary,
        codec: StillCodec::Av1,
    });
    assert_eq!(sequence.validate(), Err(StillContainerError::InvalidSequenceBrand));
    sequence.major_brand = StillBrand::Avis;
    sequence.validate().unwrap();
}

#[test]
fn metadata_round_trip_reports_lost_blocks() {
    let mut original = single_image();
    original.metadata.blocks = vec![MetadataKind::Exif, MetadataKind::Xmp];
    let mut decoded = original.metadata.clone();
    decoded.blocks = vec![MetadataKind::Exif, MetadataKind::Icc];
    let report = original.metadata_round_trip(&decoded);
    assert_eq!(report.preserved, vec![MetadataKind::Exif]);
    assert_eq!(report.lost, vec![MetadataKind::Xmp]);
    assert_eq!(report.introduced, vec![MetadataKind::Icc]);
    assert!(!report.is_lossless());
}

#[test]
fn a_spec_without_a_primary_image_is_rejected() {
    let mut spec = single_image();
    spec.items.retain(|item| item.role != StillItemRole::Primary);
    assert_eq!(spec.validate(), Err(StillContainerError::InvalidSequenceBrand));
}

#[test]
fn a_refused_frame_rate_is_reported_before_quality() {
    assert_eq!(
        OutputSpec::new(OutputFormat::Mp4, None, false, Some(99), Some(0), None),
        Err(OutputSpecError::InvalidFps)
    );
    assert_eq!(
        OutputSpec::new(OutputFormat::Mp4, Some(VideoCodec::Vp9), false, None, Some(0), None),
        Err(OutputSpecError::InvalidCodec)
    );
}
