//! Checked integer arithmetic shared by media timing and chunk planning.

use vstd::prelude::*;

verus! {

pub open spec fn fits_i128(x: int) -> bool {
    i128::MIN <= x <= i128::MAX
}

pub open spec fn fits_i64(x: int) -> bool {
    i64::MIN <= x <= i64::MAX
}

/// `n / d` rounded to the nearest integer, ties away from zero (`d > 0`).
pub open spec fn div_round_half_away(n: int, d: int) -> int {
    if n >= 0 {
        (n + d / 2) / d
    } else {
        -((d / 2 - n) / d)
    }
}

/// The result of [`rescale_ticks_i64`]: `ticks * sn/sd` expressed in units of
/// `tn/td`, rounded half away from zero, or `None` when a rate is not positive,
/// an `i128` intermediate overflows, or the result leaves `i64`.
pub open spec fn spec_rescale_ticks(ticks: i64, sn: i64, sd: i64, tn: i64, td: i64) -> Option<i64> {
    if sn <= 0 || sd <= 0 || tn <= 0 || td <= 0 {
        None
    } else {
        let n = ticks * sn * td;
        let d = sd * tn;
        if !fits_i128(n) {
            None
        } else if (n >= 0 && !fits_i128(n + d / 2)) || (n < 0 && !fits_i128(n - d / 2)) {
            None
        } else if !fits_i64(div_round_half_away(n, d)) {
            None
        } else {
            Some(div_round_half_away(n, d) as i64)
        }
    }
}

proof fn lemma_i64_products(a: i64, b: i64, c: i64)
    requires
        b > 0,
        c > 0,
    ensures
        fits_i128(a * b),
        fits_i128(b * c),
        b * c > 0,
        a * b * c == (a * b) * c,
{
    assert(-0x8000_0000_0000_0000 <= a <= 0x7fff_ffff_ffff_ffff);
    assert(0 < b <= 0x7fff_ffff_ffff_ffff);
    assert(0 < c <= 0x7fff_ffff_ffff_ffff);
    assert(a * b <= 0x7fff_ffff_ffff_ffff * 0x7fff_ffff_ffff_ffff) by (nonlinear_arith)
        requires
            a <= 0x7fff_ffff_ffff_ffff,
            0 < b <= 0x7fff_ffff_ffff_ffff,
    ;
    assert(a * b >= -0x8000_0000_0000_0000 * 0x7fff_ffff_ffff_ffff) by (nonlinear_arith)
        requires
            -0x8000_0000_0000_0000 <= a,
            0 < b <= 0x7fff_ffff_ffff_ffff,
    ;
    assert(b * c <= 0x7fff_ffff_ffff_ffff * 0x7fff_ffff_ffff_ffff) by (nonlinear_arith)
        requires
            0 < b <= 0x7fff_ffff_ffff_ffff,
            0 < c <= 0x7fff_ffff_ffff_ffff,
    ;
    assert(b * c > 0) by (nonlinear_arith)
        requires
            0 < b,
            0 < c,
    ;
}

/// Convert `ticks` of duration `source_numerator/source_denominator` seconds
/// into ticks of `target_numerator/target_denominator`, rounding to nearest.
pub fn rescale_ticks_i64(
    ticks: i64,
    source_numerator: i64,
    source_denominator: i64,
    target_numerator: i64,
    target_denominator: i64,
) -> (result: Option<i64>)
    ensures
        result == spec_rescale_ticks(
            ticks,
            source_numerator,
            source_denominator,
            target_numerator,
            target_denominator,
        ),
{
    if source_numerator <= 0 || source_denominator <= 0 || target_numerator <= 0
        || target_denominator <= 0 {
        return None;
    }
    proof {
        lemma_i64_products(ticks, source_numerator as i64, target_denominator as i64);
        lemma_i64_products(ticks, source_denominator as i64, target_numerator as i64);
    }
    let scaled: i128 = (ticks as i128) * (source_numerator as i128);
    let numerator: i128 = match scaled.checked_mul(target_denominator as i128) {
        Some(value) => value,
        None => return None,
    };
    let denominator: i128 = (source_denominator as i128) * (target_numerator as i128);
    let adjustment: i128 = denominator / 2;
    let rounded: i128 = if numerator >= 0 {
        let sum: i128 = match numerator.checked_add(adjustment) {
            Some(value) => value,
            None => return None,
        };
        sum / denominator
    } else {
        let difference: i128 = match numerator.checked_sub(adjustment) {
            Some(value) => value,
            None => return None,
        };
        difference / denominator
    };
    if rounded < i64::MIN as i128 || rounded > i64::MAX as i128 {
        return None;
    }
    Some(rounded as i64)
}

/// Identity rescaling is exact for every tick value.
pub proof fn law_identity_rescale_is_exact(ticks: i64)
    ensures
        spec_rescale_ticks(ticks, 1, 1_000, 1, 1_000) == Some(ticks),
{
    let n = ticks * 1 * 1_000;
    assert(n == ticks * 1000);
    if n >= 0 {
        assert((n + 500) / 1000 == ticks);
    } else {
        assert((500 - n) / 1000 == -ticks);
    }
}

/// `value * multiplier / divisor` rounded half up, or `None` when `divisor` is
/// zero or the result leaves `u64`.
pub open spec fn spec_rescale_count(value: u64, multiplier: u64, divisor: u64) -> Option<u64> {
    if divisor == 0 {
        None
    } else {
        let rounded = (value * multiplier + divisor / 2) / (divisor as int);
        if rounded <= u64::MAX {
            Some(rounded as u64)
        } else {
            None
        }
    }
}

/// Convert a bounded count through a rational rate with round-to-nearest.
pub fn rescale_count_u64(value: u64, multiplier: u64, divisor: u64) -> (result: Option<u64>)
    ensures
        result == spec_rescale_count(value, multiplier, divisor),
        divisor == 0 ==> result is None,
{
    if divisor == 0 {
        return None;
    }
    assert(value * multiplier <= 0xffff_ffff_ffff_ffff * 0xffff_ffff_ffff_ffff) by (nonlinear_arith)
        requires
            value <= 0xffff_ffff_ffff_ffff,
            multiplier <= 0xffff_ffff_ffff_ffff,
    ;
    assert(value * multiplier >= 0) by (nonlinear_arith);
    let numerator: u128 = (value as u128) * (multiplier as u128);
    let rounded: u128 = (numerator + (divisor / 2) as u128) / (divisor as u128);
    if rounded > u64::MAX as u128 {
        return None;
    }
    Some(rounded as u64)
}

/// The number of frames at `fps_milli / 1000` frames per second needed to
/// cover `duration_ticks / time_base` seconds, rounded up.
pub open spec fn spec_frame_count_ceil(duration_ticks: u64, time_base: u32, fps_milli: u32) -> Option<u64> {
    if time_base == 0 || fps_milli == 0 {
        None
    } else {
        let numerator = duration_ticks * fps_milli;
        let denominator = time_base * 1000;
        let frames = (numerator + denominator - 1) / denominator;
        if frames <= u64::MAX {
            Some(frames as u64)
        } else {
            None
        }
    }
}

/// Count output frames for a tick duration and milli-frame-rate, rounding up.
pub fn frame_count_ceil(duration_ticks: u64, time_base: u32, fps_milli: u32) -> (result: Option<u64>)
    ensures
        result == spec_frame_count_ceil(duration_ticks, time_base, fps_milli),
        result matches Some(frames) ==> (duration_ticks > 0 ==> frames > 0),
        result matches Some(frames) ==> frames * (time_base * 1000) >= duration_ticks * fps_milli,
{
    if time_base == 0 || fps_milli == 0 {
        return None;
    }
    assert(duration_ticks * fps_milli <= 0xffff_ffff_ffff_ffff * 0xffff_ffff) by (nonlinear_arith)
        requires
            duration_ticks <= 0xffff_ffff_ffff_ffff,
            fps_milli <= 0xffff_ffff,
    ;
    assert(duration_ticks * fps_milli >= 0) by (nonlinear_arith);
    let numerator: u128 = (duration_ticks as u128) * (fps_milli as u128);
    let denominator: u128 = (time_base as u128) * 1000;
    let frames: u128 = (numerator + denominator - 1) / denominator;
    proof {
        let n = numerator as int;
        let d = denominator as int;
        let f = frames as int;
        assert(d >= 1000);
        assert(f * d >= n) by (nonlinear_arith)
            requires
                d > 0,
                n >= 0,
                f == (n + d - 1) / d,
        ;
        assert(n > 0 ==> f > 0) by (nonlinear_arith)
            requires
                d > 0,
                n >= 0,
                f == (n + d - 1) / d,
        ;
        assert(duration_ticks > 0 ==> n > 0) by (nonlinear_arith)
            requires
                n == duration_ticks * fps_milli,
                fps_milli > 0,
        ;
    }
    if frames > u64::MAX as u128 {
        return None;
    }
    Some(frames as u64)
}

/// The exclusive end of a range, or `None` instead of wrapping.
pub fn range_end(start: u64, duration: u64) -> (result: Option<u64>)
    ensures
        result matches Some(end) ==> end >= start && end - start == duration,
        result is None <==> start + duration > u64::MAX,
{
    start.checked_add(duration)
}

/// Return the next exclusive chunk end without overflow or an empty chunk.
pub fn chunk_end(start: u64, total: u64, max_chunk_frames: u64) -> (result: Option<u64>)
    ensures
        result is None <==> (start >= total || max_chunk_frames == 0),
        result matches Some(end) ==> {
            &&& start < end <= total
            &&& end - start <= max_chunk_frames
            &&& end == if total - start <= max_chunk_frames { total as int } else { start
                + max_chunk_frames }
        },
{
    if start >= total || max_chunk_frames == 0 {
        return None;
    }
    let remaining = total - start;
    let step = if remaining < max_chunk_frames { remaining } else { max_chunk_frames };
    Some(start + step)
}

} // verus!
