//! Content fingerprints: lowercase hexadecimal SHA-256 digests, including an
//! unambiguous digest of a sequence of byte strings.

use vstd::prelude::*;
use vstd::std_specs::cmp::PartialEqSpecImpl;

use crate::artifact_graph::ArtifactGraphError;
use crate::text::{
    char_is_ascii_hexdigit, char_to_ascii_lower, chars_of, is_ascii_hexdigit, lower_seq,
    string_of, to_ascii_lower,
};

verus! {

/// The SHA-256 digest of a byte string.
pub uninterp spec fn sha256(data: Seq<u8>) -> Seq<u8>;

/// Calls `sha2::Sha256::digest`; the contract claims only that the result is
/// the (unspecified) SHA-256 function of the input, 32 bytes long.
#[verifier::external_body]
pub(crate) fn sha256_digest(data: &[u8]) -> (digest: Vec<u8>)
    ensures
        digest@ == sha256(data@),
        digest@.len() == 32,
{
    <sha2::Sha256 as sha2::Digest>::digest(data).to_vec()
}

pub open spec fn hex_digit(value: int) -> char {
    if value < 10 {
        ('0' as int + value) as char
    } else {
        ('a' as int + value - 10) as char
    }
}

/// Lowercase hexadecimal rendering of a byte string, two digits per byte.
pub open spec fn hex_lower(bytes: Seq<u8>) -> Seq<char> {
    Seq::new(
        2 * bytes.len(),
        |i: int|
            if i % 2 == 0 {
                hex_digit(bytes[i / 2] as int / 16)
            } else {
                hex_digit(bytes[i / 2] as int % 16)
            },
    )
}

pub open spec fn is_lower_hex_digit(c: char) -> bool {
    ('0' <= c <= '9') || ('a' <= c <= 'f')
}

/// A canonical fingerprint text: 64 lowercase hexadecimal digits.
pub open spec fn is_fingerprint_text(s: Seq<char>) -> bool {
    s.len() == 64 && forall|i: int| 0 <= i < s.len() ==> is_lower_hex_digit(#[trigger] s[i])
}

/// Big-endian bytes of a 64-bit length.
pub open spec fn be_u64(value: nat) -> Seq<u8> {
    Seq::new(8, |i: int| ((value / pow256((7 - i) as nat)) % 256) as u8)
}

/// `value` as four big-endian bytes.
pub open spec fn be_u32(value: nat) -> Seq<u8> {
    Seq::new(4, |i: int| ((value / pow256((3 - i) as nat)) % 256) as u8)
}

pub open spec fn pow256(exponent: nat) -> nat
    decreases exponent,
{
    if exponent == 0 {
        1
    } else {
        256 * pow256((exponent - 1) as nat)
    }
}

/// Each part prefixed by its length, so that no two part lists share an encoding.
pub open spec fn framed(parts: Seq<Seq<u8>>) -> Seq<u8>
    decreases parts.len(),
{
    if parts.len() == 0 {
        Seq::empty()
    } else {
        framed(parts.drop_last()) + be_u64(parts.last().len()) + parts.last()
    }
}

#[derive(Debug)]
pub struct Fingerprint(String);

impl View for Fingerprint {
    type V = Seq<char>;

    closed spec fn view(&self) -> Seq<char> {
        self.0@
    }
}

impl Fingerprint {
    #[verifier::type_invariant]
    closed spec fn well_formed(self) -> bool {
        is_fingerprint_text(self.0@)
    }

    /// Accept 64 hexadecimal digits of either case and store them lowercase.
    pub fn parse(value: &str) -> (result: Result<Self, ArtifactGraphError>)
        ensures
            result is Ok <==> (value@.len() == 64 && forall|i: int|
                0 <= i < value@.len() ==> is_ascii_hexdigit(#[trigger] value@[i])),
            result matches Ok(f) ==> f@ == lower_seq(value@),
            result matches Err(e) ==> (e matches ArtifactGraphError::InvalidFingerprint(text) && text@ == value@),
    {
        let chars = chars_of(value);
        if chars.len() != 64 {
            return Err(ArtifactGraphError::InvalidFingerprint(value.to_owned()));
        }
        let mut lower: Vec<char> = Vec::new();
        let mut i: usize = 0;
        while i < chars.len()
            invariant
                0 <= i <= chars@.len(),
                chars@ == value@,
                chars@.len() == 64,
                lower@.len() == i,
                forall|k: int| 0 <= k < i ==> is_ascii_hexdigit(#[trigger] chars@[k]),
                forall|k: int| 0 <= k < i ==> #[trigger] lower@[k] == to_ascii_lower(chars@[k]),
            decreases chars.len() - i,
        {
            if !char_is_ascii_hexdigit(chars[i]) {
                return Err(ArtifactGraphError::InvalidFingerprint(value.to_owned()));
            }
            lower.push(char_to_ascii_lower(chars[i]));
            i = i + 1;
        }
        assert(lower@ =~= lower_seq(value@));
        assert(is_fingerprint_text(lower@)) by {
            assert forall|k: int| 0 <= k < lower@.len() implies is_lower_hex_digit(
                #[trigger] lower@[k],
            ) by {
                assert(is_ascii_hexdigit(chars@[k]));
            }
        }
        Ok(Fingerprint(string_of(lower.as_slice())))
    }

    /// The fingerprint of a byte string.
    pub fn digest(bytes: &[u8]) -> (fingerprint: Self)
        ensures
            fingerprint@ == hex_lower(sha256(bytes@)),
    {
        let digest = sha256_digest(bytes);
        Fingerprint(hex_string(&digest))
    }

    /// Digest a sequence of parts without concatenation ambiguity
    /// (`[ab, c]` and `[a, bc]` hash different byte strings).
    pub fn combine(parts: &[Vec<u8>]) -> (fingerprint: Self)
        ensures
            fingerprint@ == hex_lower(sha256(framed(parts@.map_values(|p: Vec<u8>| p@)))),
    {
        let ghost views = parts@.map_values(|p: Vec<u8>| p@);
        let mut stream: Vec<u8> = Vec::new();
        let mut i: usize = 0;
        while i < parts.len()
            invariant
                0 <= i <= parts@.len(),
                views == parts@.map_values(|p: Vec<u8>| p@),
                stream@ == framed(views.subrange(0, i as int)),
            decreases parts.len() - i,
        {
            let part = &parts[i];
            let length = be_bytes(part.len() as u64);
            let mut k: usize = 0;
            while k < 8
                invariant
                    0 <= k <= 8,
                    length@.len() == 8,
                    stream@ == framed(views.subrange(0, i as int)) + length@.subrange(0, k as int),
                decreases 8 - k,
            {
                stream.push(length[k]);
                assert(length@.subrange(0, k + 1) =~= length@.subrange(0, k as int).push(length@[k as int]));
                k = k + 1;
            }
            assert(length@.subrange(0, 8) =~= length@);
            let mut j: usize = 0;
            while j < part.len()
                invariant
                    0 <= j <= part@.len(),
                    stream@ == framed(views.subrange(0, i as int)) + length@ + part@.subrange(
                        0,
                        j as int,
                    ),
                decreases part.len() - j,
            {
                stream.push(part[j]);
                assert(part@.subrange(0, j + 1) =~= part@.subrange(0, j as int).push(part@[j as int]));
                j = j + 1;
            }
            assert(part@.subrange(0, part@.len() as int) =~= part@);
            assert(views.subrange(0, i + 1).drop_last() =~= views.subrange(0, i as int));
            assert(views.subrange(0, i + 1).last() == part@);
            i = i + 1;
        }
        assert(views.subrange(0, parts@.len() as int) =~= views);
        let digest = sha256_digest(stream.as_slice());
        Fingerprint(hex_string(&digest))
    }

    pub fn as_str(&self) -> (s: &str)
        ensures
            s@ == self@,
            is_fingerprint_text(s@),
    {
        proof {
            use_type_invariant(self);
        }
        self.0.as_str()
    }
}

impl Clone for Fingerprint {
    fn clone(&self) -> (copy: Self)
        ensures
            copy == *self,
    {
        proof {
            use_type_invariant(self);
        }
        Fingerprint(self.0.clone())
    }
}

impl PartialEq for Fingerprint {
    fn eq(&self, other: &Self) -> (equal: bool) {
        self.0 == other.0
    }
}

impl PartialEqSpecImpl for Fingerprint {
    open spec fn obeys_eq_spec() -> bool {
        true
    }

    open spec fn eq_spec(&self, other: &Self) -> bool {
        self@ == other@
    }
}

impl Eq for Fingerprint {}

/// The eight big-endian bytes of `value`.
pub(crate) fn be_bytes(value: u64) -> (bytes: Vec<u8>)
    ensures
        bytes@ == be_u64(value as nat),
{
    let mut bytes: Vec<u8> = Vec::new();
    let mut k: usize = 0;
    while k < 8
        invariant
            0 <= k <= 8,
            bytes@.len() == k,
            forall|j: int| 0 <= j < k ==> #[trigger] bytes@[j] == be_u64(value as nat)[j],
        decreases 8 - k,
    {
        let shift: u64 = (8 * (7 - k)) as u64;
        let byte: u8 = ((value >> shift) & 0xff) as u8;
        proof {
            lemma_shift_is_division(value, (7 - k) as nat);
        }
        bytes.push(byte);
        k = k + 1;
    }
    assert(bytes@ =~= be_u64(value as nat));
    bytes
}

proof fn lemma_shift_is_division(value: u64, e: nat)
    requires
        e < 8,
    ensures
        (((value >> ((8 * e) as u64)) & 0xff) as u8) == ((value as nat / pow256(e)) % 256) as u8,
{
    reveal_with_fuel(pow256, 8);
    let s: u64 = (8 * e) as u64;
    assert(pow256(e) > 0);
    if e == 0 {
        assert(value >> 0u64 == value) by (bit_vector);
        assert(value & 0xff == value % 256) by (bit_vector);
    } else if e == 1 {
        assert((value >> 8u64) & 0xff == (value / 256) % 256) by (bit_vector);
    } else if e == 2 {
        assert((value >> 16u64) & 0xff == (value / 65536) % 256) by (bit_vector);
    } else if e == 3 {
        assert((value >> 24u64) & 0xff == (value / 16777216) % 256) by (bit_vector);
    } else if e == 4 {
        assert((value >> 32u64) & 0xff == (value / 4294967296) % 256) by (bit_vector);
    } else if e == 5 {
        assert((value >> 40u64) & 0xff == (value / 1099511627776) % 256) by (bit_vector);
    } else if e == 6 {
        assert((value >> 48u64) & 0xff == (value / 281474976710656) % 256) by (bit_vector);
    } else {
        assert((value >> 56u64) & 0xff == (value / 72057594037927936) % 256) by (bit_vector);
    }
}

fn hex_char(value: u8) -> (c: char)
    requires
        value < 16,
    ensures
        c == hex_digit(value as int),
{
    if value < 10 {
        (48u8 + value) as char
    } else {
        (87u8 + value) as char
    }
}

/// Lowercase hexadecimal text of `bytes`.
pub(crate) fn hex_string(bytes: &Vec<u8>) -> (s: String)
    ensures
        s@ == hex_lower(bytes@),
        bytes@.len() == 32 ==> is_fingerprint_text(s@),
{
    let mut out: Vec<char> = Vec::new();
    let mut i: usize = 0;
    while i < bytes.len()
        invariant
            0 <= i <= bytes@.len(),
            out@.len() == 2 * i,
            forall|k: int| 0 <= k < 2 * i ==> #[trigger] out@[k] == hex_lower(bytes@)[k],
        decreases bytes.len() - i,
    {
        let b = bytes[i];
        out.push(hex_char(b / 16));
        out.push(hex_char(b % 16));
        i = i + 1;
    }
    assert(out@ =~= hex_lower(bytes@));
    assert forall|k: int| 0 <= k < out@.len() implies is_lower_hex_digit(#[trigger] out@[k]) by {
        let b = bytes@[k / 2];
        assert(b / 16 < 16 && b % 16 < 16);
    }
    string_of(out.as_slice())
}

} // verus!
