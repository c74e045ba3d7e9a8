//! The parts of a media probe that are plain values: rational time bases,
//! stream kinds and colour metadata.

use vstd::prelude::*;

use crate::text::{all_digits, chars_of, decimal, lemma_decimal_nonnegative, parse_digits, parse_i64};

verus! {

#[derive(Debug, Clone, Copy, PartialEq, Eq, Structural)]
pub struct Rational {
    pub numerator: i64,
    pub denominator: i64,
}

/// The position of the first `/` in `s`.
pub open spec fn first_slash(s: Seq<char>, p: int) -> bool {
    &&& 0 <= p < s.len()
    &&& s[p] == '/'
    &&& forall|k: int| 0 <= k < p ==> s[k] != '/'
}

/// `a/b` with both sides `i64` and `b` not zero.
pub open spec fn parse_rational(s: Seq<char>) -> Option<Rational> {
    if exists|p: int| first_slash(s, p) {
        let p = choose|p: int| first_slash(s, p);
        match (parse_i64(s.subrange(0, p)), parse_i64(s.subrange(p + 1, s.len() as int))) {
            (Some(n), Some(d)) => if d != 0 {
                Some(Rational { numerator: n, denominator: d })
            } else {
                None
            },
            _ => None,
        }
    } else {
        None
    }
}

/// `chars[lo..hi]` read as an `i64` the way `str::parse` reads it.
fn parse_i64_range(chars: &[char], lo: usize, hi: usize) -> (value: Option<i64>)
    requires
        lo <= hi <= chars@.len(),
    ensures
        value == parse_i64(chars@.subrange(lo as int, hi as int)),
{
    let ghost s = chars@.subrange(lo as int, hi as int);
    let negative = lo < hi && chars[lo] == '-';
    let signed = lo < hi && (chars[lo] == '-' || chars[lo] == '+');
    let start = if signed { lo + 1 } else { lo };
    assert(s.len() > 0 ==> s[0] == chars@[lo as int]);
    assert(negative == (s.len() > 0 && s[0] == '-'));
    assert(signed == (s.len() > 0 && (s[0] == '-' || s[0] == '+')));
    let ghost digits = if signed { s.drop_first() } else { s };
    assert(chars@.subrange(start as int, hi as int) =~= digits);
    proof {
        if all_digits(digits) {
            lemma_decimal_nonnegative(digits);
        }
    }
    match parse_digits(chars, start, hi) {
        None => {
            None
        },
        Some(magnitude) => {
            if negative {
                if magnitude > 0x8000_0000_0000_0000u64 {
                    None
                } else if magnitude == 0x8000_0000_0000_0000u64 {
                    Some(i64::MIN)
                } else {
                    Some(-(magnitude as i64))
                }
            } else if magnitude > 0x7fff_ffff_ffff_ffffu64 {
                None
            } else {
                Some(magnitude as i64)
            }
        },
    }
}

impl Rational {
    /// `numerator/denominator` as ffprobe writes it; the denominator is not zero.
    pub fn parse(value: &str) -> (result: Option<Self>)
        ensures
            result == parse_rational(value@),
    {
        let chars = chars_of(value);
        let mut p: usize = 0;
        while p < chars.len() && chars[p] != '/'
            invariant
                0 <= p <= chars@.len(),
                chars@ == value@,
                forall|k: int| 0 <= k < p ==> chars@[k] != '/',
            decreases chars.len() - p,
        {
            p = p + 1;
        }
        if p == chars.len() {
            assert(!exists|q: int| first_slash(value@, q));
            return None;
        }
        assert(first_slash(value@, p as int));
        proof {
            let q = choose|q: int| first_slash(value@, q);
            if q < p {
                assert(chars@[q] != '/');
            } else if q > p {
                assert(value@[p as int] != '/');
            }
        }
        let numerator = parse_i64_range(chars.as_slice(), 0, p);
        let denominator = parse_i64_range(chars.as_slice(), p + 1, chars.len());
        match (numerator, denominator) {
            (Some(n), Some(d)) => {
                if d != 0 {
                    Some(Rational { numerator: n, denominator: d })
                } else {
                    None
                }
            },
            _ => None,
        }
    }
}

#[derive(Debug, Clone, Copy, PartialEq, Eq, Structural)]
pub enum StreamKind {
    Video,
    Audio,
    Subtitle,
    Data,
    Attachment,
    Unknown,
}

pub struct ColorMetadata {
    pub range: Option<String>,
    pub space: Option<String>,
    pub transfer: Option<String>,
    pub primaries: Option<String>,
    pub pixel_format: Option<String>,
}

impl Default for ColorMetadata {
    fn default() -> (metadata: Self)
        ensures
            metadata.range is None,
            metadata.space is None,
            metadata.transfer is None,
            metadata.primaries is None,
            metadata.pixel_format is None,
    {
        ColorMetadata { range: None, space: None, transfer: None, primaries: None, pixel_format: None }
    }
}

#[derive(Debug, Clone, Copy, PartialEq, Eq, Structural)]
pub enum ProbeError {
    InvalidRoot,
    NoStreams,
}

} // verus!
