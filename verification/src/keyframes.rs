//! Keyframe tracks: a time base, one interpolation mode and keyframes kept in
//! strictly increasing tick order. Sampling and expression building read the
//! values as floating-point numbers and live with the callers.

use vstd::prelude::*;

verus! {

broadcast use {vstd::seq_lib::to_multiset_insert, vstd::seq_lib::to_multiset_contains};

/// How a track moves between two neighbouring keyframes.
#[derive(Debug, Clone, Copy, PartialEq, Eq)]
pub enum Interpolation {
    /// Keep the left value until the next keyframe tick.
    Hold,
    /// Linear progress over the segment.
    Linear,
    /// Cubic ease-in.
    EaseIn,
    /// Cubic ease-out.
    EaseOut,
    /// Symmetric cubic ease-in/out.
    EaseInOut,
    /// Legacy name kept for saved projects; the same curve as `EaseInOut`.
    EaseInOutCubic,
}

#[derive(Debug, Clone, PartialEq)]
pub struct Keyframe<T> {
    pub tick: u64,
    pub value: T,
}

#[derive(Debug, Clone, PartialEq)]
pub struct KeyframeTrack<T> {
    pub time_base: u32,
    pub interpolation: Interpolation,
    pub keyframes: Vec<Keyframe<T>>,
}

/// A value a keyframe may carry; `is_valid` rejects values a track must
/// never hold (non-finite numbers, for instance).
pub trait KeyframeValue {
    spec fn valid_value(&self) -> bool;

    fn is_valid(&self) -> (valid: bool)
        ensures
            valid == self.valid_value(),
    ;
}

impl KeyframeValue for bool {
    open spec fn valid_value(&self) -> bool {
        true
    }

    fn is_valid(&self) -> (valid: bool) {
        true
    }
}

#[derive(Debug, Clone, Copy, PartialEq, Eq)]
pub enum KeyframeError {
    InvalidTimeBase,
    EmptyTrack,
    DuplicateTick,
    TooManyKeyframes,
    NonFinite,
    InvalidVariable,
}

pub open spec fn all_valid<T: KeyframeValue>(s: Seq<Keyframe<T>>) -> bool {
    forall|i: int| 0 <= i < s.len() ==> (#[trigger] s[i]).value.valid_value()
}

pub open spec fn ticks_distinct<T>(s: Seq<Keyframe<T>>) -> bool {
    forall|i: int, j: int| 0 <= i < j < s.len() ==> (#[trigger] s[i]).tick != (#[trigger] s[j]).tick
}

pub open spec fn ticks_increasing<T>(s: Seq<Keyframe<T>>) -> bool {
    forall|i: int, j: int| 0 <= i < j < s.len() ==> (#[trigger] s[i]).tick < (#[trigger] s[j]).tick
}

/// The first rule a candidate track breaks, checked in this order: a zero
/// time base, no keyframes, an invalid value, two keyframes on one tick.
pub open spec fn track_error<T: KeyframeValue>(time_base: u32, keyframes: Seq<Keyframe<T>>) -> Option<KeyframeError> {
    if time_base == 0 {
        Some(KeyframeError::InvalidTimeBase)
    } else if keyframes.len() == 0 {
        Some(KeyframeError::EmptyTrack)
    } else if !all_valid(keyframes) {
        Some(KeyframeError::NonFinite)
    } else if !ticks_distinct(keyframes) {
        Some(KeyframeError::DuplicateTick)
    } else {
        None
    }
}

impl<T: KeyframeValue> KeyframeTrack<T> {
    /// A track over the given keyframes, sorted by tick. Fails with the
    /// first rule the input breaks (see `track_error`).
    pub fn new(time_base: u32, interpolation: Interpolation, keyframes: Vec<Keyframe<T>>) -> (result: Result<Self, KeyframeError>)
        ensures
            match track_error(time_base, keyframes@) {
                Some(error) => result == Err::<Self, KeyframeError>(error),
                None => result matches Ok(track) && track.time_base == time_base
                    && track.interpolation == interpolation
                    && track.keyframes@.to_multiset() == keyframes@.to_multiset()
                    && ticks_increasing(track.keyframes@),
            },
    {
        if time_base == 0 {
            return Err(KeyframeError::InvalidTimeBase);
        }
        if keyframes.len() == 0 {
            return Err(KeyframeError::EmptyTrack);
        }
        let mut v: usize = 0;
        while v < keyframes.len()
            invariant
                time_base != 0,
                keyframes@.len() > 0,
                0 <= v <= keyframes@.len(),
                forall|i: int| 0 <= i < v ==> (#[trigger] keyframes@[i]).value.valid_value(),
            decreases keyframes.len() - v,
        {
            if !keyframes[v].value.is_valid() {
                assert(!all_valid(keyframes@)) by {
                    assert(!keyframes@[v as int].value.valid_value());
                }
                return Err(KeyframeError::NonFinite);
            }
            v = v + 1;
        }
        let ghost orig = keyframes@;
        let ghost n = orig.len() as int;
        let mut remaining = keyframes;
        let mut sorted: Vec<Keyframe<T>> = Vec::new();
        proof {
            assert(orig.subrange(n, n) =~= Seq::<Keyframe<T>>::empty());
            assert(remaining@ =~= orig.subrange(0, n));
        }
        while remaining.len() > 0
            invariant
                time_base != 0,
                n > 0,
                orig == keyframes@,
                n == orig.len(),
                all_valid(orig),
                remaining@.len() <= n,
                remaining@ == orig.subrange(0, remaining@.len() as int),
                sorted@.to_multiset() == orig.subrange(remaining@.len() as int, n).to_multiset(),
                ticks_increasing(sorted@),
                ticks_distinct(orig.subrange(remaining@.len() as int, n)),
            decreases remaining.len(),
        {
            let ghost r = (remaining@.len() - 1) as int;
            let ghost before = sorted@;
            assert(before.to_multiset() == orig.subrange(r + 1, n).to_multiset());
            let item = remaining.pop().unwrap();
            assert(item == orig[r]);
            let mut p: usize = 0;
            loop
                invariant
                    0 <= p <= sorted@.len(),
                    sorted@ == before,
                    forall|q: int| 0 <= q < p ==> (#[trigger] sorted@[q]).tick < item.tick,
                ensures
                    0 <= p <= sorted@.len(),
                    forall|q: int| 0 <= q < p ==> (#[trigger] sorted@[q]).tick < item.tick,
                    p < sorted@.len() ==> sorted@[p as int].tick >= item.tick,
                decreases sorted@.len() - p,
            {
                if p == sorted.len() {
                    break;
                }
                if sorted[p].tick >= item.tick {
                    break;
                }
                p = p + 1;
            }
            if p < sorted.len() && sorted[p].tick == item.tick {
                proof {
                    let tail = orig.subrange(r + 1, n);
                    let other = sorted@[p as int];
                    assert(before.contains(other));
                    assert(before.to_multiset().count(other) > 0);
                    assert(tail.to_multiset().count(other) > 0);
                    assert(tail.contains(other));
                    let j = choose|j: int| 0 <= j < tail.len() && tail[j] == other;
                    assert(orig[r + 1 + j] == other);
                    assert(orig[r].tick == orig[r + 1 + j].tick);
                }
                return Err(KeyframeError::DuplicateTick);
            }
            proof {
                let tail = orig.subrange(r + 1, n);
                let whole = orig.subrange(r, n);
                assert(forall|q: int| 0 <= q < before.len() ==> (#[trigger] before[q]).tick != item.tick);
                assert forall|i: int, j: int| 0 <= i < j < whole.len() implies (#[trigger] whole[i]).tick != (#[trigger] whole[j]).tick by {
                    if i == 0 {
                        let other = tail[j - 1];
                        assert(tail.contains(other));
                        assert(tail.to_multiset().count(other) > 0);
                        assert(before.to_multiset().count(other) > 0);
                        let q = choose|q: int| 0 <= q < before.len() && before[q] == other;
                        assert(before[q].tick != item.tick);
                    } else {
                        assert(whole[i] == tail[i - 1]);
                        assert(whole[j] == tail[j - 1]);
                    }
                }
                assert(whole =~= tail.insert(0, item));
            }
            sorted.insert(p, item);
            proof {
                assert(remaining@ =~= orig.subrange(0, remaining@.len() as int));
                let after = sorted@;
                assert(after =~= before.insert(p as int, item));
                assert forall|i: int, j: int| 0 <= i < j < after.len() implies (#[trigger] after[i]).tick < (#[trigger] after[j]).tick by {
                    if j < p {
                        assert(after[i] == before[i] && after[j] == before[j]);
                    } else if j == p {
                        assert(after[i] == before[i]);
                    } else if i < p {
                        assert(after[i] == before[i] && after[j] == before[j - 1]);
                        if p < before.len() {
                            assert(before[p as int].tick <= before[j - 1].tick);
                        }
                    } else if i == p {
                        assert(after[j] == before[j - 1]);
                        assert(before[p as int].tick <= before[j - 1].tick);
                    } else {
                        assert(after[i] == before[i - 1] && after[j] == before[j - 1]);
                    }
                }
            }
        }
        proof {
            assert(orig.subrange(0, n) =~= orig);
        }
        Ok(KeyframeTrack { time_base, interpolation, keyframes: sorted })
    }
}

} // verus!
