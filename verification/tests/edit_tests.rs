use editor_domain::composition::TransitionKind;
use editor_domain::edit::{
    check_extension_counts, AspectRatio, EditSpecError, HexColor, LookPreset, OutputScale, Rotation,
};
use editor_domain::spatial::{InputProjection, OutputProjection};
use editor_domain::color_grade::HslBand;
use editor_domain::audio_mix::AudioRole;

#[test]
fn transition_ids_map_one_to_one_onto_xfade_names() {
    assert_eq!(TransitionKind::ALL.len(), 17);
    for kind in TransitionKind::ALL {
        assert_eq!(TransitionKind::parse(kind.wire_id()), Ok(kind));
        assert_eq!(kind.ffmpeg_name(), kind.wire_id());
    }
    assert_eq!(
        TransitionKind::parse("fade,drawtext=text=x"),
        Err(EditSpecError::InvalidTransition)
    );
}

#[test]
fn colors_are_canonical_and_filter_safe() {
    let color = HexColor::parse("#00ff00").unwrap();
    assert_eq!(color.as_hex(), "#00FF00");
    assert_eq!(color.ffmpeg_color(), "0x00FF00");
    for rejected in ["00FF00", "#00FF0", "#00FF00FF", "#gggggg", "'#000000'"] {
        assert_eq!(HexColor::parse(rejected), Err(EditSpecError::InvalidColor));
    }
}

#[test]
fn projections_map_to_fixed_v360_tokens() {
    assert_eq!(
        InputProjection::parse("dfisheye").unwrap().ffmpeg_name(),
        "dfisheye"
    );
    assert_eq!(
        OutputProjection::parse("equirect").unwrap().ffmpeg_name(),
        "e"
    );
    assert_eq!(
        OutputProjection::parse("sg"),
        Err(EditSpecError::InvalidSpatial)
    );
    assert_eq!(
        InputProjection::parse("e:yaw=0'"),
        Err(EditSpecError::InvalidSpatial)
    );
}

#[test]
fn hsl_bands_are_known_and_unique() {
    for (index, band) in HslBand::ALL.iter().enumerate() {
        assert_eq!(HslBand::parse(band.wire_id()), Ok(*band));
        for other in &HslBand::ALL[index + 1..] {
            assert_ne!(band.wire_id(), other.wire_id());
        }
    }
    assert_eq!(HslBand::parse("teal"), Err(EditSpecError::InvalidColorGrade));
}

#[test]
fn look_presets_round_trip_through_their_wire_ids() {
    for preset in LookPreset::ALL {
        assert_eq!(LookPreset::parse(preset.wire_id()), Ok(preset));
    }
    assert!(LookPreset::parse("curves=all='0/0 1/1'").is_err());
}

#[test]
fn color_parsing_is_case_insensitive_and_round_trips() {
    let lower = HexColor::parse("#a1b2c3").unwrap();
    let upper = HexColor::parse("#A1B2C3").unwrap();
    assert_eq!(lower, upper);
    assert_eq!(HexColor::parse(&lower.as_hex()), Ok(lower));
}

#[test]
fn rotations_are_quarter_turns() {
    assert_eq!(Rotation::from_degrees(0), Ok(Rotation::Upright));
    assert_eq!(Rotation::from_degrees(90), Ok(Rotation::Clockwise90));
    assert!(Rotation::from_degrees(45).is_err());
}

#[test]
fn output_scale_dimensions_are_bounded() {
    assert_eq!(OutputScale { width: 1920, height: 1080 }.validate(), Ok(()));
    assert!(OutputScale { width: 1, height: 1080 }.validate().is_err());
    assert!(OutputScale { width: -1, height: -2 }.validate().is_err());
    assert_eq!(OutputScale { width: -2, height: 720 }.validate(), Ok(()));
}

#[test]
fn audio_roles_parse_their_wire_ids() {
    assert!(AudioRole::parse("music").is_ok());
    assert!(AudioRole::parse("music;rm -rf").is_err());
}

#[test]
fn aspect_ratios_parse_trimmed_sides() {
    assert_eq!(AspectRatio::parse("16:9"), Ok(AspectRatio { width: 16, height: 9 }));
    assert_eq!(AspectRatio::parse(" 4 : 3 "), Ok(AspectRatio { width: 4, height: 3 }));
    assert_eq!(AspectRatio::parse("+1:1"), Ok(AspectRatio { width: 1, height: 1 }));
    for rejected in ["16/9", "0:1", "101:1", "a:b", "16:9:1", ":9", "4294967296:1"] {
        assert_eq!(AspectRatio::parse(rejected), Err(EditSpecError::InvalidAspectRatio));
    }
}

#[test]
fn written_colours_parse_back_to_themselves() {
    for text in ["#000000", "#ffffff", "#0a1B2c", "#7F80fe"] {
        let color = HexColor::parse(text).unwrap();
        assert_eq!(color.as_hex(), format!("#{}", text[1..].to_ascii_uppercase()));
        assert_eq!(HexColor::parse(&color.as_hex()), Ok(color));
    }
}

#[test]
fn extension_counts_are_capped_in_order() {
    assert_eq!(check_extension_counts(32, 32, 8), Ok(()));
    assert_eq!(check_extension_counts(33, 99, 99), Err(EditSpecError::InvalidOverlay));
    assert_eq!(check_extension_counts(0, 33, 99), Err(EditSpecError::InvalidTitle));
    assert_eq!(check_extension_counts(0, 0, 9), Err(EditSpecError::InvalidAudioTrack));
}
