use sha2::{Digest, Sha256};

use editor_domain::handlers::{
    archive_download_filename, archive_media_type, classify_job_error, classify_lowered_message, display_title,
    etag_matches, is_plain_filename, is_sha256, media_type_for_extension_text, sanitize_extension_text,
    validate_color_grade_capabilities, validate_composition_capabilities, CapabilityError, ColorGradeNeeds,
    CompositionNeeds,
    render_cache_key_with_pipeline, render_runtime_fingerprint, safe_filename, safe_provider_error,
    safe_upload_extension, sanitize_ext, ErrorKind,
};

fn probe_extension(format_name: &str, vcodec: Option<&str>, acodec: Option<&str>) -> Option<&'static str> {
    safe_upload_extension(Some(format_name), vcodec, acodec, u32::from(vcodec.is_some()))
}

fn sha256_hex(bytes: &[u8]) -> String {
    format!("{:x}", Sha256::digest(bytes))
}

#[test]
fn cache_filenames_must_be_plain_output_names() {
    assert!(is_plain_filename("output.mp4"));
    assert!(is_plain_filename("b5b2b5b2-clip.webm"));

    for filename in ["", ".", "..", "../x.mp4", "dir/x.mp4", "dir\\x.mp4"] {
        assert!(!is_plain_filename(filename), "{filename:?} must be rejected");
    }
}

#[test]
fn download_filename_is_ascii_header_safe_and_bounded() {
    assert_eq!(archive_download_filename("  My Portable Cut!  "), "my-portable-cut.veproj");
    assert_eq!(archive_download_filename("Монтаж"), "composition-project.veproj");
    assert!(archive_download_filename(&"x".repeat(500)).len() <= 64 + 7);
}

#[test]
fn upload_extension_comes_from_probed_container() {
    assert_eq!(probe_extension("mov,mp4,m4a,3gp,3g2,mj2", Some("h264"), None), Some("mp4"));
    assert_eq!(probe_extension("matroska,webm", Some("vp9"), Some("opus")), Some("webm"));
    assert_eq!(probe_extension("matroska,webm", Some("h264"), Some("aac")), Some("mkv"));
    assert_eq!(probe_extension("html", None, None), None);
}

#[test]
fn ogg_with_video_is_ogv() {
    assert_eq!(safe_upload_extension(Some("ogg"), Some("theora"), None, 640), Some("ogv"));
    assert_eq!(safe_upload_extension(Some("ogg"), None, Some("vorbis"), 0), Some("ogg"));
    assert_eq!(safe_upload_extension(None, None, None, 0), None);
}

#[test]
fn extensions_are_sanitized() {
    assert_eq!(sanitize_ext(Some("video.MOV")), "mov");
    assert_eq!(sanitize_ext(Some("clip.m-p4x!abcdef")), "mp4xa");
    assert_eq!(sanitize_ext(Some("noext")), "mp4");
    assert_eq!(sanitize_ext(None), "mp4");
}

#[test]
fn display_titles_drop_the_extension() {
    assert_eq!(display_title("holiday.final.mp4"), "holiday.final");
    assert_eq!(display_title("clip"), "clip");
}

#[test]
fn proxy_filenames_are_single_normal_components() {
    assert!(safe_filename("proxy.mp4"));
    assert!(!safe_filename(".."));
    assert!(!safe_filename("a/b.mp4"));
    assert!(!safe_filename(&"x".repeat(256)));
}

#[test]
fn sha256_digests_are_lowercase_hex() {
    assert!(is_sha256(&"a".repeat(64)));
    assert!(!is_sha256(&"A".repeat(64)));
    assert!(!is_sha256(&"a".repeat(63)));
}

#[test]
fn provider_errors_are_mapped_to_fixed_messages() {
    assert_eq!(safe_provider_error("access_denied"), "доступ не предоставлен");
    assert_eq!(safe_provider_error("temporarily_unavailable"), "сервис временно недоступен");
    assert_eq!(safe_provider_error("<script>"), "ошибка авторизации");
}

#[test]
fn job_errors_are_classified_by_message() {
    assert_eq!(classify_job_error("Render DEADLINE passed"), ErrorKind::Timeout);
    assert_eq!(classify_job_error("ТАЙМАУТ рендера"), ErrorKind::Timeout);
    assert_eq!(classify_job_error("Invalid trim"), ErrorKind::Validation);
    assert_eq!(classify_job_error("source clip not found"), ErrorKind::Validation);
    assert_eq!(classify_job_error("file not found"), ErrorKind::Storage);
    assert_eq!(classify_job_error("ffmpeg exit status 1"), ErrorKind::ProcessExit);
    assert_eq!(classify_job_error("boom"), ErrorKind::Internal);
}

#[test]
fn cache_keys_hash_every_component_with_separators() {
    let key = render_cache_key_with_pipeline("v1", "{}", None, None);
    assert_eq!(key, sha256_hex(b"v1\0missing\0no-lut\0{}"));
    let with_context = render_cache_key_with_pipeline("v1", "{}", Some("rt"), Some("lut"));
    assert_eq!(with_context, sha256_hex(b"v1\0rt\0lut\0{}"));
    assert_ne!(key, with_context);
}

#[test]
fn runtime_fingerprint_ignores_listing_order() {
    let a = render_runtime_fingerprint(Some("8.0"), &["x264".to_owned(), "aac".to_owned()], &[], &[]);
    let b = render_runtime_fingerprint(Some("8.0"), &["aac".to_owned(), "x264".to_owned()], &[], &[]);
    assert_eq!(a, b);
    assert_eq!(a, sha256_hex(b"8.0\0aac\0x264\0\0\0"));
}

#[test]
fn if_none_match_lists_are_split_on_commas_and_trimmed() {
    let etag = "\"3f2a\"";
    assert!(!etag_matches(None, etag));
    assert!(etag_matches(Some("\"3f2a\""), etag));
    assert!(etag_matches(Some(" \"zz\" ,  \"3f2a\"  "), etag));
    assert!(etag_matches(Some("\"zz\", *"), etag));
    assert!(!etag_matches(Some("\"zz\",\"3f2b\""), etag));
    assert!(!etag_matches(Some("W/\"3f2a\""), etag));
    assert!(!etag_matches(Some(""), etag));
}

#[test]
fn extension_text_is_cleaned_on_its_own() {
    assert_eq!(sanitize_extension_text(Some("M-P_4x!yz")), "mp4xy");
    assert_eq!(sanitize_extension_text(Some("???")), "mp4");
    assert_eq!(sanitize_extension_text(None), "mp4");
}

#[test]
fn lowered_messages_are_classified_in_rule_order() {
    assert_eq!(classify_lowered_message("ffmpeg timeout"), ErrorKind::Timeout);
    assert_eq!(classify_lowered_message("source not found"), ErrorKind::Validation);
    assert_eq!(classify_lowered_message("file not found"), ErrorKind::Storage);
    assert_eq!(classify_lowered_message("ffmpeg exit status 1"), ErrorKind::ProcessExit);
    assert_eq!(classify_lowered_message("boom"), ErrorKind::Internal);
    assert_eq!(classify_lowered_message("FFMPEG"), ErrorKind::Internal);
}

#[test]
fn archived_media_types_come_from_the_entry_then_the_extension() {
    assert_eq!(archive_media_type(Some("audio"), "x.mp4", None, None).as_deref(), Some("audio"));
    assert_eq!(archive_media_type(Some("other"), "cover.PNG", None, None).as_deref(), Some("image"));
    assert_eq!(archive_media_type(None, "song.flac", None, None).as_deref(), Some("audio"));
    assert_eq!(archive_media_type(None, "clip.webm", None, None).as_deref(), Some("video"));
    assert_eq!(archive_media_type(None, "capture.bin", Some(640), Some(480)).as_deref(), Some("video"));
    assert_eq!(archive_media_type(None, "capture.bin", Some(640), None), None);
    assert_eq!(archive_media_type(None, "noextension", Some(640), Some(480)), None);
    assert_eq!(media_type_for_extension_text("JPEG", None, None).as_deref(), Some("image"));
}

fn no_color_needs() -> ColorGradeNeeds {
    ColorGradeNeeds {
        curves: false,
        hsl: false,
        color_wheels: false,
        audio_eq: false,
        stereo_pan: false,
        compressor: false,
        limiter: false,
        chroma_key: false,
        spill_suppression: false,
        lut: false,
        partial_lut: false,
    }
}

#[test]
fn colour_capabilities_fail_closed_in_order() {
    let filters: Vec<String> = ["curves", "chromakey", "lut3d"].iter().map(|f| f.to_string()).collect();
    assert_eq!(validate_color_grade_capabilities(&no_color_needs(), false, &[]), Ok(()));
    let mut needs = no_color_needs();
    needs.curves = true;
    assert_eq!(validate_color_grade_capabilities(&needs, true, &filters), Ok(()));
    assert_eq!(validate_color_grade_capabilities(&needs, false, &filters), Err(CapabilityError::Curves));
    needs.chroma_key = true;
    needs.spill_suppression = true;
    assert_eq!(validate_color_grade_capabilities(&needs, true, &filters), Err(CapabilityError::Despill));
    needs.hsl = true;
    assert_eq!(validate_color_grade_capabilities(&needs, true, &filters), Err(CapabilityError::Hsl));
    let mut lut = no_color_needs();
    lut.lut = true;
    lut.partial_lut = true;
    assert_eq!(validate_color_grade_capabilities(&lut, true, &filters), Err(CapabilityError::PartialLut));
    lut.partial_lut = false;
    assert_eq!(validate_color_grade_capabilities(&lut, true, &filters), Ok(()));
}

#[test]
fn composition_capabilities_name_every_missing_filter_in_order() {
    let needs = CompositionNeeds {
        optical_flow: true,
        reverse_video: false,
        reverse_audio: false,
        freeze_frame: true,
        stabilization: false,
        speed_ramp: true,
        speed_ramp_pitch_audio: false,
    };
    let filters: Vec<String> = ["tpad", "fps"].iter().map(|f| f.to_string()).collect();
    assert_eq!(
        validate_composition_capabilities(&needs, true, &filters),
        Err(vec!["minterpolate".to_owned(), "setpts".to_owned(), "trim".to_owned()])
    );
    let none = CompositionNeeds {
        optical_flow: false,
        reverse_video: false,
        reverse_audio: false,
        freeze_frame: false,
        stabilization: false,
        speed_ramp: false,
        speed_ramp_pitch_audio: false,
    };
    assert_eq!(validate_composition_capabilities(&none, false, &[]), Ok(()));
    assert_eq!(
        validate_composition_capabilities(&CompositionNeeds { reverse_audio: true, ..none }, false, &filters),
        Err(vec!["areverse".to_owned()])
    );
}
