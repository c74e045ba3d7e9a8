use editor_domain::keyframes::{Interpolation, Keyframe, KeyframeError, KeyframeTrack, KeyframeValue};

/// A sampled number; only finite numbers may sit on a track.
#[derive(Debug, Clone, PartialEq)]
struct Sample(f64);

impl KeyframeValue for Sample {
    fn valid_value(&self) -> bool {
        self.0.is_finite()
    }

    fn is_valid(&self) -> bool {
        self.0.is_finite()
    }
}

fn at(tick: u64, value: f64) -> Keyframe<Sample> {
    Keyframe { tick, value: Sample(value) }
}

#[test]
fn rejects_non_finite_values_at_the_domain_boundary() {
    assert_eq!(
        KeyframeTrack::new(1_000, Interpolation::Linear, vec![at(0, f64::NAN)]),
        Err(KeyframeError::NonFinite)
    );
}

#[test]
fn keyframes_come_back_sorted_by_tick() {
    let track = KeyframeTrack::new(
        1_000,
        Interpolation::EaseIn,
        vec![at(2_000, 20.0), at(0, 0.0), at(1_000, 10.0)],
    )
    .unwrap();
    assert_eq!(track.time_base, 1_000);
    assert_eq!(track.interpolation, Interpolation::EaseIn);
    assert_eq!(track.keyframes, vec![at(0, 0.0), at(1_000, 10.0), at(2_000, 20.0)]);
}

#[test]
fn track_errors_come_in_rule_order() {
    assert_eq!(
        KeyframeTrack::new(0, Interpolation::Hold, Vec::<Keyframe<Sample>>::new()),
        Err(KeyframeError::InvalidTimeBase)
    );
    assert_eq!(
        KeyframeTrack::new(30, Interpolation::Hold, Vec::<Keyframe<Sample>>::new()),
        Err(KeyframeError::EmptyTrack)
    );
    assert_eq!(
        KeyframeTrack::new(30, Interpolation::Hold, vec![at(5, 1.0), at(5, f64::INFINITY)]),
        Err(KeyframeError::NonFinite)
    );
    assert_eq!(
        KeyframeTrack::new(30, Interpolation::Hold, vec![at(9, 1.0), at(3, 2.0), at(9, 3.0)]),
        Err(KeyframeError::DuplicateTick)
    );
}

#[test]
fn boolean_tracks_accept_every_value() {
    let track = KeyframeTrack::new(
        24,
        Interpolation::Hold,
        vec![Keyframe { tick: 48, value: false }, Keyframe { tick: 0, value: true }],
    )
    .unwrap();
    assert_eq!(track.keyframes, vec![Keyframe { tick: 0, value: true }, Keyframe { tick: 48, value: false }]);
}
