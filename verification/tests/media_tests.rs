use std::sync::Arc;

use editor_domain::filter_graph::MediaKind;
use editor_domain::media_contract::{
    private_metadata, select_adapter, AdapterCapability, Attachment, AttachmentPolicy, DisplayTransform, MarkerKind,
    MediaTime, SourceMarker, SourceProvenance, StreamIdentity,
};
use editor_domain::media_pipeline::{PipelineRegistry, Producer, RegistryError, ServiceDescriptor};
use editor_domain::media_probe::{Rational, StreamKind};
use editor_domain::color_pipeline::ColorDescriptor;

struct TestService(ServiceDescriptor);

impl Producer for TestService {
    fn described(&self) -> ServiceDescriptor {
        self.0.clone()
    }

    fn descriptor(&self) -> &ServiceDescriptor {
        &self.0
    }
}

fn rational(numerator: i64, denominator: i64) -> Rational {
    Rational { numerator, denominator }
}

#[test]
fn rational_time_has_no_long_frame_drift() {
    let frame = Rational {
        numerator: 1001,
        denominator: 30_000,
    };
    let time = MediaTime::new(1_000_000, frame).unwrap();
    let round_trip = time
        .rescale(Rational {
            numerator: 1,
            denominator: 90_000,
        })
        .unwrap()
        .rescale(frame)
        .unwrap();
    assert_eq!(round_trip.ticks, time.ticks);
}

#[test]
fn provenance_and_marker_contracts_are_bounded() {
    let provenance = SourceProvenance {
        sha256: "a".repeat(64),
        adapter: "srt".into(),
        adapter_version: "1".into(),
        probe_version: "ffprobe-8".into(),
        sanitized_origin: Some("https://example.test/live".into()),
    };
    assert!(provenance.validate());
    let marker = SourceMarker {
        id: "chapter-intro".into(),
        kind: MarkerKind::Chapter,
        source_time: MediaTime::new(
            90_000,
            Rational {
                numerator: 1,
                denominator: 90_000,
            },
        )
        .unwrap(),
        label: "Intro".into(),
    };
    assert_eq!(marker.source_time.ticks, 90_000);
}

#[test]
fn provenance_with_credentials_in_its_origin_is_rejected() {
    let provenance = SourceProvenance {
        sha256: "a".repeat(64),
        adapter: "srt".into(),
        adapter_version: "1".into(),
        probe_version: "ffprobe-8".into(),
        sanitized_origin: Some("https://user@example.test/live?token=x".into()),
    };
    assert!(!provenance.validate());
}

#[test]
fn registry_is_role_scoped_and_manifest_is_stable() {
    let service = Arc::new(TestService(
        ServiceDescriptor::new("file", "File", vec![MediaKind::Video]).unwrap(),
    ));
    let mut registry = PipelineRegistry::default();
    registry.register_producer(service.clone()).unwrap();

    assert_eq!(registry.producer("file").unwrap().descriptor().label, "File");
    assert_eq!(registry.manifest().producers[0].id, "file");
    assert_eq!(
        registry.register_producer(service).unwrap_err(),
        RegistryError::Duplicate("file".to_owned())
    );
}

#[test]
fn registration_keeps_the_first_service_under_its_id() {
    let first = Arc::new(TestService(ServiceDescriptor::new("file", "File", vec![MediaKind::Video]).unwrap()));
    let second = Arc::new(TestService(ServiceDescriptor::new("file", "Other", vec![MediaKind::Audio]).unwrap()));
    let mut registry = PipelineRegistry::default();
    let first_service: Arc<dyn Producer> = first.clone();
    registry.register_producer(first_service.clone()).unwrap();
    assert_eq!(registry.register_producer(second), Err(RegistryError::Duplicate("file".to_owned())));
    assert!(Arc::ptr_eq(registry.producer("file").unwrap(), &first_service));
    assert!(registry.filter("file").is_none());
    assert_eq!(registry.manifest().producers.len(), 1);
}

#[test]
fn manifest_lists_each_role_in_ascending_id_order() {
    let mut registry = PipelineRegistry::default();
    for (id, label) in [("zeta", "Zeta"), ("alpha", "Alpha"), ("mid", "Mid")] {
        let service = Arc::new(TestService(ServiceDescriptor::new(id, label, vec![MediaKind::Audio]).unwrap()));
        registry.register_producer(service).unwrap();
    }
    let manifest = registry.manifest();
    let ids: Vec<&str> = manifest.producers.iter().map(|d| d.id.as_str()).collect();
    assert_eq!(ids, vec!["alpha", "mid", "zeta"]);
    assert_eq!(manifest.producers[1].label, "Mid");
    assert!(manifest.filters.is_empty() && manifest.transitions.is_empty() && manifest.consumers.is_empty());
}

#[test]
fn service_ids_are_plain() {
    assert_eq!(
        ServiceDescriptor::new("a b", "A", vec![]).err().unwrap(),
        RegistryError::InvalidId("a b".to_owned())
    );
    assert!(ServiceDescriptor::new("ffmpeg.v2_x-1", "A", vec![]).is_ok());
}

#[test]
fn display_transforms_are_quarter_turns() {
    let transform = DisplayTransform::normalized(450, rational(4, 3)).unwrap();
    assert_eq!(transform.rotation_degrees, 90);
    assert!(DisplayTransform::normalized(45, rational(1, 1)).is_none());
    assert!(DisplayTransform::normalized(90, rational(0, 1)).is_none());
}

#[test]
fn attachments_are_fonts_or_images_within_budget() {
    let policy = AttachmentPolicy {
        max_count: 2,
        max_each_bytes: 1_000,
        max_total_bytes: 1_500,
    };
    assert!(policy.validate(&[Attachment { mime: "font/ttf".into(), bytes: 900 }]));
    assert!(!policy.validate(&[Attachment { mime: "application/x-executable".into(), bytes: 1 }]));
    assert!(!policy.validate(&[
        Attachment { mime: "font/ttf".into(), bytes: 900 },
        Attachment { mime: "image/png".into(), bytes: 900 },
    ]));
}

#[test]
fn adapters_are_chosen_by_format_codecs_and_metadata() {
    let adapter = AdapterCapability {
        id: "ffmpeg".into(),
        formats: vec!["mp4".into()],
        codecs: vec!["h264".into(), "aac".into()],
        metadata: true,
    };
    let adapters = [adapter];
    assert_eq!(select_adapter(&adapters, "mp4", &["h264".to_owned()], true).unwrap().id, "ffmpeg");
    assert_eq!(
        select_adapter(&adapters, "webm", &["vp9".to_owned()], false).err().unwrap(),
        "no adapter supports webm with requested codecs and metadata policy"
    );
}

#[test]
fn private_metadata_keeps_only_known_tags_in_name_order() {
    let tags = vec![
        ("title".to_owned(), "Cut".to_owned()),
        ("encoder".to_owned(), "x".to_owned()),
        ("language".to_owned(), "en".to_owned()),
        ("title".to_owned(), "Final".to_owned()),
    ];
    assert_eq!(
        private_metadata(&tags),
        vec![("language".to_owned(), "en".to_owned()), ("title".to_owned(), "Final".to_owned())]
    );
}

#[test]
fn rationals_parse_from_ffprobe_text() {
    assert_eq!(Rational::parse("30000/1001"), Some(rational(30_000, 1001)));
    assert_eq!(Rational::parse("30000"), None);
}

#[test]
fn sdr_is_not_hdr() {
    let sdr = ColorDescriptor::sdr_bt709();
    assert!(!sdr.is_hdr());
    assert!(sdr.is_explicit());
}

#[test]
fn streams_without_a_track_id_get_a_stable_lowercase_token() {
    let dispositions = vec!["default".to_owned(), "forced".to_owned()];
    let identity = StreamIdentity::from_stream(None, StreamKind::Audio, Some("AAC"), Some("ENG"), &dispositions);
    assert_eq!(identity.track_id, "audio:aac:eng:default+forced");
    assert_eq!(identity.kind, StreamKind::Audio);
    assert_eq!(identity.language.as_deref(), Some("eng"));
    assert_eq!(identity.dispositions, dispositions);

    let bare = StreamIdentity::from_stream(None, StreamKind::Video, None, None, &[]);
    assert_eq!(bare.track_id, "video:unknown:und:");
    assert_eq!(bare.language, None);

    let named = StreamIdentity::from_stream(Some("Track-7"), StreamKind::Subtitle, Some("srt"), None, &[]);
    assert_eq!(named.track_id, "Track-7");
}

#[test]
fn identities_are_assembled_from_lowered_parts() {
    let dispositions = vec!["default".to_owned()];
    assert_eq!(
        editor_domain::media_contract::raw_track_token(StreamKind::Audio, Some("AAC"), None, &dispositions),
        "Audio:AAC:und:default"
    );
    let identity = StreamIdentity::from_lowered(None, Some("audio:aac:und:default".to_owned()), StreamKind::Audio, None, &dispositions);
    assert_eq!(identity.track_id, "audio:aac:und:default");
    let named = StreamIdentity::from_lowered(Some("T1"), None, StreamKind::Video, Some("eng".to_owned()), &[]);
    assert_eq!(named.track_id, "T1");
    assert_eq!(named.language.as_deref(), Some("eng"));
}
