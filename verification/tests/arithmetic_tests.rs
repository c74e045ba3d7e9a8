use editor_domain::arithmetic::{chunk_end, frame_count_ceil, range_end, rescale_count_u64, rescale_ticks_i64};

#[test]
fn boundary_examples_are_explicit() {
    assert_eq!(rescale_ticks_i64(123, 1, 1_000, 1, 1_000), Some(123));
    assert_eq!(rescale_ticks_i64(-123, 1, 1_000, 1, 1_000), Some(-123));
    assert_eq!(rescale_ticks_i64(1, 1, 4, 1, 10), Some(3));
    assert_eq!(rescale_ticks_i64(-1, 1, 4, 1, 10), Some(-3));
    for invalid in [
        (0, 1, 1, 1),
        (-1, 1, 1, 1),
        (1, 0, 1, 1),
        (1, -1, 1, 1),
        (1, 1, 0, 1),
        (1, 1, -1, 1),
        (1, 1, 1, 0),
        (1, 1, 1, -1),
    ] {
        assert_eq!(
            rescale_ticks_i64(7, invalid.0, invalid.1, invalid.2, invalid.3),
            None
        );
    }
    assert_eq!(range_end(u64::MAX, 1), None);
    assert_eq!(range_end(7, 9), Some(16));
    assert_eq!(chunk_end(u64::MAX - 2, u64::MAX, 100), Some(u64::MAX));
    assert_eq!(chunk_end(0, 10, 3), Some(3));
    assert_eq!(chunk_end(10, 10, 3), None);
    assert_eq!(chunk_end(0, 10, 0), None);
    assert_eq!(frame_count_ceil(1, 1_000, 1_000), Some(1));
    assert_eq!(frame_count_ceil(1_000, 1_000, 1_000), Some(1));
    assert_eq!(frame_count_ceil(1, 0, 1_000), None);
    assert_eq!(frame_count_ceil(1, 1_000, 0), None);
    assert_eq!(frame_count_ceil(1_000_000, 1_000_000, 29_970), Some(30));
    assert_eq!(rescale_count_u64(5, 1, 2), Some(3));
    assert_eq!(rescale_count_u64(5, 1, 0), None);
    assert_eq!(
        rescale_count_u64(48_000, 1_000_000, 48_000),
        Some(1_000_000)
    );
}

#[test]
fn identity_rescale_keeps_every_tick() {
    for ticks in [i64::MIN, -90_000, -1, 0, 1, 90_000, i64::MAX] {
        assert_eq!(rescale_ticks_i64(ticks, 1, 90_000, 1, 90_000), Some(ticks));
    }
}

#[test]
fn rescale_rounds_half_away_from_zero() {
    assert_eq!(rescale_ticks_i64(1, 1, 2, 1, 1), Some(1));
    assert_eq!(rescale_ticks_i64(-1, 1, 2, 1, 1), Some(-1));
    assert_eq!(rescale_ticks_i64(1, 1, 3, 1, 1), Some(0));
    assert_eq!(rescale_ticks_i64(i64::MAX, 2, 1, 1, 1), None);
}

#[test]
fn count_rescale_overflow_is_none() {
    assert_eq!(rescale_count_u64(u64::MAX, 2, 1), None);
    assert_eq!(rescale_count_u64(10, 3, 4), Some(8));
}
