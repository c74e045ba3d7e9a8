//! Character-level helpers shared by the identifier validators and the
//! string builders of the domain.

use vstd::prelude::*;

verus! {

/// The characters of `s`, in order.
pub(crate) fn chars_of(s: &str) -> (chars: Vec<char>)
    ensures
        chars@ == s@,
{
    broadcast use vstd::string::axiom_spec_iter;

    let mut out: Vec<char> = Vec::new();
    for c in it: s.chars()
        invariant
            out@.len() == it.index(),
            forall|j: int| 0 <= j < out@.len() ==> out@[j] == it.seq()[j],
            it.seq() == s@,
    {
        out.push(c);
    }
    assert(out@ =~= s@);
    out
}

/// `String: FromIterator<&char>`, collecting `chars`: a string of those
/// characters, in order.
#[verifier::external_body]
pub(crate) fn string_of(chars: &[char]) -> (s: String)
    ensures
        s@ == chars@,
{
    chars.iter().collect()
}

/// The Unicode `White_Space` property, which `char::is_whitespace` reports:
/// tab through carriage return, space, next line, no-break space, the ogham
/// space mark, en quad through hair space, the line and paragraph
/// separators, the narrow no-break space, the medium mathematical space and
/// the ideographic space.
pub open spec fn is_unicode_whitespace(c: char) -> bool {
    let v = c as u32;
    ||| 0x09 <= v <= 0x0D
    ||| v == 0x20
    ||| v == 0x85
    ||| v == 0xA0
    ||| v == 0x1680
    ||| 0x2000 <= v <= 0x200A
    ||| v == 0x2028
    ||| v == 0x2029
    ||| v == 0x202F
    ||| v == 0x205F
    ||| v == 0x3000
}

pub(crate) fn char_is_whitespace(c: char) -> (b: bool)
    ensures
        b == is_unicode_whitespace(c),
{
    let v = c as u32;
    (0x09 <= v && v <= 0x0D) || v == 0x20 || v == 0x85 || v == 0xA0 || v == 0x1680 || (0x2000 <= v && v <= 0x200A)
        || v == 0x2028 || v == 0x2029 || v == 0x202F || v == 0x205F || v == 0x3000
}

/// Every character is whitespace, so `str::trim` leaves nothing.
pub open spec fn is_blank(s: Seq<char>) -> bool {
    forall|i: int| 0 <= i < s.len() ==> is_unicode_whitespace(#[trigger] s[i])
}

/// Whether `s` trims to the empty string.
pub fn str_is_blank(s: &str) -> (blank: bool)
    ensures
        blank == is_blank(s@),
{
    let chars = chars_of(s);
    let mut i: usize = 0;
    while i < chars.len()
        invariant
            0 <= i <= chars@.len(),
            chars@ == s@,
            forall|k: int| 0 <= k < i ==> is_unicode_whitespace(#[trigger] chars@[k]),
        decreases chars.len() - i,
    {
        if !char_is_whitespace(chars[i]) {
            return false;
        }
        i = i + 1;
    }
    true
}

pub open spec fn is_ascii_digit(c: char) -> bool {
    '0' <= c <= '9'
}

pub open spec fn is_ascii_lower(c: char) -> bool {
    'a' <= c <= 'z'
}

pub open spec fn is_ascii_upper(c: char) -> bool {
    'A' <= c <= 'Z'
}

pub open spec fn is_ascii_alphanumeric(c: char) -> bool {
    is_ascii_digit(c) || is_ascii_lower(c) || is_ascii_upper(c)
}

pub open spec fn is_ascii_hexdigit(c: char) -> bool {
    is_ascii_digit(c) || ('a' <= c <= 'f') || ('A' <= c <= 'F')
}

pub open spec fn to_ascii_lower(c: char) -> char {
    if is_ascii_upper(c) {
        ((c as u32) + 32) as char
    } else {
        c
    }
}

pub open spec fn lower_seq(s: Seq<char>) -> Seq<char> {
    Seq::new(s.len(), |i: int| to_ascii_lower(s[i]))
}

pub fn char_is_ascii_alphanumeric(c: char) -> (b: bool)
    ensures
        b == is_ascii_alphanumeric(c),
{
    ('0' <= c && c <= '9') || ('a' <= c && c <= 'z') || ('A' <= c && c <= 'Z')
}

pub fn char_is_ascii_hexdigit(c: char) -> (b: bool)
    ensures
        b == is_ascii_hexdigit(c),
{
    ('0' <= c && c <= '9') || ('a' <= c && c <= 'f') || ('A' <= c && c <= 'F')
}

pub fn char_to_ascii_lower(c: char) -> (l: char)
    ensures
        l == to_ascii_lower(c),
{
    if 'A' <= c && c <= 'Z' {
        let code: u32 = (c as u32) + 32;
        assert(code <= 0x7a);
        code as u8 as char
    } else {
        c
    }
}

/// Lexicographic order on character sequences, which is the order of the
/// UTF-8 byte strings as well.
pub open spec fn seq_lt(a: Seq<char>, b: Seq<char>) -> bool
    decreases a.len(),
{
    if a.len() == 0 {
        b.len() > 0
    } else if b.len() == 0 {
        false
    } else if a[0] != b[0] {
        a[0] < b[0]
    } else {
        seq_lt(a.drop_first(), b.drop_first())
    }
}

pub proof fn lemma_seq_lt_irreflexive(a: Seq<char>)
    ensures
        !seq_lt(a, a),
    decreases a.len(),
{
    if a.len() > 0 {
        lemma_seq_lt_irreflexive(a.drop_first());
    }
}

pub proof fn lemma_seq_lt_trichotomy(a: Seq<char>, b: Seq<char>)
    ensures
        seq_lt(a, b) || seq_lt(b, a) || a == b,
        !(seq_lt(a, b) && seq_lt(b, a)),
    decreases a.len(),
{
    if a.len() > 0 && b.len() > 0 {
        if a[0] == b[0] {
            lemma_seq_lt_trichotomy(a.drop_first(), b.drop_first());
            if a.drop_first() == b.drop_first() {
                assert(a =~= b) by {
                    assert forall|i: int| 0 <= i < a.len() implies a[i] == b[i] by {
                        if i > 0 {
                            assert(a[i] == a.drop_first()[i - 1]);
                            assert(b[i] == b.drop_first()[i - 1]);
                        }
                    }
                }
            }
        }
    } else if a.len() == 0 && b.len() == 0 {
        assert(a =~= b);
    }
}

pub proof fn lemma_seq_lt_transitive(a: Seq<char>, b: Seq<char>, c: Seq<char>)
    requires
        seq_lt(a, b),
        seq_lt(b, c),
    ensures
        seq_lt(a, c),
    decreases a.len(),
{
    if a.len() > 0 && b.len() > 0 && c.len() > 0 {
        if a[0] == b[0] && b[0] == c[0] {
            lemma_seq_lt_transitive(a.drop_first(), b.drop_first(), c.drop_first());
        }
    }
}

/// Compare two strings in the order of `String`'s `Ord`.
pub fn str_less(a: &str, b: &str) -> (less: bool)
    ensures
        less == seq_lt(a@, b@),
{
    let x = chars_of(a);
    let y = chars_of(b);
    let mut i: usize = 0;
    assert(x@.skip(0) =~= x@);
    assert(y@.skip(0) =~= y@);
    while i < x.len() && i < y.len()
        invariant
            0 <= i <= x@.len(),
            i <= y@.len(),
            x@ == a@,
            y@ == b@,
            x@.subrange(0, i as int) == y@.subrange(0, i as int),
            seq_lt(a@, b@) == seq_lt(x@.skip(i as int), y@.skip(i as int)),
        decreases x.len() - i,
    {
        if x[i] != y[i] {
            assert(x@.skip(i as int)[0] == x[i as int]);
            assert(y@.skip(i as int)[0] == y[i as int]);
            return x[i] < y[i];
        }
        assert(x@.skip(i as int).drop_first() =~= x@.skip(i + 1));
        assert(y@.skip(i as int).drop_first() =~= y@.skip(i + 1));
        assert(x@.subrange(0, i + 1) =~= x@.subrange(0, i as int).push(x[i as int]));
        assert(y@.subrange(0, i + 1) =~= y@.subrange(0, i as int).push(y[i as int]));
        i = i + 1;
    }
    x.len() == i && y.len() > i
}

/// Equality of two strings by their characters.
pub fn str_equal(a: &str, b: &str) -> (equal: bool)
    ensures
        equal == (a@ == b@),
{
    let x = chars_of(a);
    let y = chars_of(b);
    if x.len() != y.len() {
        return false;
    }
    let mut i: usize = 0;
    while i < x.len()
        invariant
            0 <= i <= x@.len(),
            x@.len() == y@.len(),
            x@ == a@,
            y@ == b@,
            forall|k: int| 0 <= k < i ==> x@[k] == y@[k],
        decreases x.len() - i,
    {
        if x[i] != y[i] {
            return false;
        }
        i = i + 1;
    }
    assert(x@ =~= y@);
    true
}

/// Append the characters of `s` to `out`.
pub fn push_str(out: &mut Vec<char>, s: &str)
    ensures
        final(out)@ == old(out)@ + s@,
{
    let chars = chars_of(s);
    let mut i: usize = 0;
    while i < chars.len()
        invariant
            0 <= i <= chars@.len(),
            chars@ == s@,
            out@ == old(out)@ + s@.subrange(0, i as int),
        decreases chars.len() - i,
    {
        out.push(chars[i]);
        assert(s@.subrange(0, i + 1) =~= s@.subrange(0, i as int).push(chars[i as int]));
        i = i + 1;
    }
    assert(s@.subrange(0, chars@.len() as int) =~= s@);
}



/// The length of a string in UTF-8 bytes, as `str::len` reports it.
pub open spec fn byte_len(s: Seq<char>) -> int {
    (vstd::utf8::encode_utf8(s).len() as usize) as int
}

pub open spec fn digit_value(c: char) -> int {
    c as int - '0' as int
}

pub open spec fn all_digits(s: Seq<char>) -> bool {
    forall|i: int| 0 <= i < s.len() ==> is_ascii_digit(#[trigger] s[i])
}

/// The number written by a string of decimal digits.
pub open spec fn decimal(s: Seq<char>) -> int
    decreases s.len(),
{
    if s.len() == 0 {
        0
    } else {
        decimal(s.drop_last()) * 10 + digit_value(s.last())
    }
}

/// `s` without its leading Unicode whitespace.
pub open spec fn trim_front(s: Seq<char>) -> Seq<char>
    decreases s.len(),
{
    if s.len() > 0 && is_unicode_whitespace(s[0]) {
        trim_front(s.drop_first())
    } else {
        s
    }
}

/// `s` without its trailing Unicode whitespace.
pub open spec fn trim_back(s: Seq<char>) -> Seq<char>
    decreases s.len(),
{
    if s.len() > 0 && is_unicode_whitespace(s.last()) {
        trim_back(s.drop_last())
    } else {
        s
    }
}

/// `str::trim`: `s` without leading and trailing Unicode whitespace.
pub open spec fn trimmed(s: Seq<char>) -> Seq<char> {
    trim_back(trim_front(s))
}

/// The bounds of `chars[lo..hi]` once trimmed.
pub fn trim_range(chars: &[char], lo: usize, hi: usize) -> (bounds: (usize, usize))
    requires
        lo <= hi <= chars@.len(),
    ensures
        lo <= bounds.0 <= bounds.1 <= hi,
        chars@.subrange(bounds.0 as int, bounds.1 as int) == trimmed(chars@.subrange(lo as int, hi as int)),
{
    let ghost s = chars@.subrange(lo as int, hi as int);
    let mut a: usize = lo;
    while a < hi && char_is_whitespace(chars[a])
        invariant
            lo <= a <= hi,
            hi <= chars@.len(),
            s == chars@.subrange(lo as int, hi as int),
            trim_front(s) == trim_front(chars@.subrange(a as int, hi as int)),
        decreases hi - a,
    {
        let ghost t = chars@.subrange(a as int, hi as int);
        assert(t.drop_first() =~= chars@.subrange(a + 1, hi as int));
        a = a + 1;
    }
    let ghost front = chars@.subrange(a as int, hi as int);
    assert(trim_front(front) == front);
    let mut b: usize = hi;
    while b > a && char_is_whitespace(chars[b - 1])
        invariant
            a <= b <= hi,
            hi <= chars@.len(),
            trim_back(front) == trim_back(chars@.subrange(a as int, b as int)),
        decreases b - a,
    {
        let ghost t = chars@.subrange(a as int, b as int);
        assert(t.drop_last() =~= chars@.subrange(a as int, b - 1));
        b = b - 1;
    }
    (a, b)
}

/// `chars[lo..hi]` read as a `u32` the way `str::parse` reads it.
pub fn parse_u32_range(chars: &[char], lo: usize, hi: usize) -> (value: Option<u32>)
    requires
        lo <= hi <= chars@.len(),
    ensures
        value == parse_u32(chars@.subrange(lo as int, hi as int)),
{
    let ghost s = chars@.subrange(lo as int, hi as int);
    let signed = lo < hi && chars[lo] == '+';
    let start = if signed { lo + 1 } else { lo };
    assert(s.len() > 0 ==> s[0] == chars@[lo as int]);
    let ghost digits = if signed { s.drop_first() } else { s };
    assert(chars@.subrange(start as int, hi as int) =~= digits);
    proof {
        if all_digits(digits) {
            lemma_decimal_nonnegative(digits);
        }
    }
    match parse_digits(chars, start, hi) {
        None => None,
        Some(magnitude) => {
            if magnitude > 0xffff_ffffu64 {
                None
            } else {
                Some(magnitude as u32)
            }
        },
    }
}

/// The ASCII digit for `d`, which is below ten.
pub open spec fn digit_char(d: int) -> char {
    (48 + d) as char
}

/// The last `w` decimal digits of `n`, zeros in front where `n` is shorter.
pub open spec fn fixed_digits(n: nat, w: nat) -> Seq<char>
    decreases w,
{
    if w == 0 {
        Seq::empty()
    } else {
        fixed_digits(n / 10, (w - 1) as nat).push(digit_char((n % 10) as int))
    }
}

/// How many decimal digits `n` has; zero has one.
pub open spec fn digit_count(n: nat) -> nat
    decreases n,
{
    if n < 10 {
        1
    } else {
        1 + digit_count(n / 10)
    }
}

/// `n` in decimal, padded with leading zeros to at least `w` digits, as the
/// format `{:0w}` writes it.
pub open spec fn zero_padded(n: nat, w: nat) -> Seq<char> {
    fixed_digits(n, if digit_count(n) < w { w } else { digit_count(n) })
}

proof fn lemma_fixed_digits_of_zero(w: nat)
    ensures
        all_digits(fixed_digits(0, w)),
        decimal(fixed_digits(0, w)) == 0,
        fixed_digits(0, w).len() == w,
    decreases w,
{
    if w > 0 {
        lemma_fixed_digits_of_zero((w - 1) as nat);
        let s = fixed_digits(0, w);
        assert(s.drop_last() =~= fixed_digits(0, (w - 1) as nat));
        assert(digit_char(0) == '0');
    }
}

/// The digits of `n` in at least as many places as it has read back as `n`.
pub proof fn lemma_fixed_digits_value(n: nat, w: nat)
    requires
        digit_count(n) <= w,
    ensures
        all_digits(fixed_digits(n, w)),
        decimal(fixed_digits(n, w)) == n,
        fixed_digits(n, w).len() == w,
    decreases w,
{
    let s = fixed_digits(n, w);
    let d = n % 10;
    assert(0 <= d < 10);
    assert(digit_char(d as int) as int == 48 + d);
    assert(s.drop_last() =~= fixed_digits(n / 10, (w - 1) as nat));
    if n < 10 {
        lemma_fixed_digits_of_zero((w - 1) as nat);
        assert(n / 10 == 0);
    } else {
        lemma_fixed_digits_value(n / 10, (w - 1) as nat);
    }
    assert(n == (n / 10) * 10 + n % 10);
}

/// Zero-padded decimal text is all digits and reads back as its number.
pub proof fn lemma_zero_padded_value(n: nat, w: nat)
    ensures
        all_digits(zero_padded(n, w)),
        decimal(zero_padded(n, w)) == n,
        zero_padded(n, w).len() >= 1,
{
    let width = if digit_count(n) < w { w } else { digit_count(n) };
    lemma_fixed_digits_value(n, width);
}

fn count_digits(n: u64) -> (count: u64)
    ensures
        count == digit_count(n as nat),
    decreases n,
{
    if n < 10 {
        1
    } else {
        let rest = count_digits(n / 10);
        assert(rest < u64::MAX) by {
            lemma_digit_count_bound((n / 10) as nat);
        }
        1 + rest
    }
}

proof fn lemma_digit_count_bound(n: nat)
    ensures
        digit_count(n) <= n + 1,
    decreases n,
{
    if n >= 10 {
        lemma_digit_count_bound(n / 10);
    }
}

fn push_fixed_digits(out: &mut Vec<char>, n: u64, w: u64)
    ensures
        final(out)@ == old(out)@ + fixed_digits(n as nat, w as nat),
    decreases w,
{
    if w > 0 {
        push_fixed_digits(out, n / 10, w - 1);
        let d = (n % 10) as u8;
        let c = (48u8 + d) as char;
        out.push(c);
        assert(fixed_digits(n as nat, w as nat) == fixed_digits((n / 10) as nat, (w - 1) as nat).push(
            digit_char((n % 10) as int),
        ));
    } else {
        assert(old(out)@ + fixed_digits(n as nat, 0) =~= old(out)@);
    }
}

/// Append `n` in decimal, padded with leading zeros to at least `w` digits.
pub fn push_zero_padded(out: &mut Vec<char>, n: u64, w: u64)
    ensures
        final(out)@ == old(out)@ + zero_padded(n as nat, w as nat),
{
    let count = count_digits(n);
    let width = if count < w { w } else { count };
    push_fixed_digits(out, n, width);
}

/// `str::parse::<i64>`: an optional `+` or `-`, then one or more ASCII digits,
/// with the value inside `i64`.
pub open spec fn parse_i64(s: Seq<char>) -> Option<i64> {
    let negative = s.len() > 0 && s[0] == '-';
    let digits = if s.len() > 0 && (s[0] == '-' || s[0] == '+') { s.drop_first() } else { s };
    let value = if negative { -decimal(digits) } else { decimal(digits) };
    if digits.len() == 0 || !all_digits(digits) || !(i64::MIN <= value <= i64::MAX) {
        None
    } else {
        Some(value as i64)
    }
}

/// `str::parse::<u32>`: an optional `+`, then one or more ASCII digits, with
/// the value inside `u32`.
pub open spec fn parse_u32(s: Seq<char>) -> Option<u32> {
    let digits = if s.len() > 0 && s[0] == '+' { s.drop_first() } else { s };
    if digits.len() == 0 || !all_digits(digits) || decimal(digits) > u32::MAX {
        None
    } else {
        Some(decimal(digits) as u32)
    }
}

pub proof fn lemma_decimal_nonnegative(s: Seq<char>)
    requires
        all_digits(s),
    ensures
        decimal(s) >= 0,
    decreases s.len(),
{
    if s.len() > 0 {
        lemma_decimal_nonnegative(s.drop_last());
    }
}

/// Appending digits never makes the number smaller.
proof fn lemma_decimal_monotone(s: Seq<char>, i: int)
    requires
        all_digits(s),
        0 <= i <= s.len(),
    ensures
        decimal(s.subrange(0, i)) <= decimal(s),
    decreases s.len() - i,
{
    if i < s.len() {
        let t = s.subrange(0, i + 1);
        assert(t.drop_last() =~= s.subrange(0, i));
        lemma_decimal_nonnegative(s.subrange(0, i));
        lemma_decimal_monotone(s, i + 1);
    } else {
        assert(s.subrange(0, i) =~= s);
    }
}

/// The digits `chars[lo..hi]` as a number, if they are one or more ASCII
/// digits whose value fits in `u64`.
pub fn parse_digits(chars: &[char], lo: usize, hi: usize) -> (value: Option<u64>)
    requires
        lo <= hi <= chars@.len(),
    ensures
        ({
            let s = chars@.subrange(lo as int, hi as int);
            value == (if s.len() == 0 || !all_digits(s) || decimal(s) > u64::MAX {
                None
            } else {
                Some(decimal(s) as u64)
            })
        }),
{
    let ghost s = chars@.subrange(lo as int, hi as int);
    if lo == hi {
        return None;
    }
    let mut i: usize = lo;
    while i < hi
        invariant
            lo <= i <= hi,
            hi <= chars@.len(),
            s == chars@.subrange(lo as int, hi as int),
            forall|k: int| lo <= k < i ==> is_ascii_digit(#[trigger] chars@[k]),
        decreases hi - i,
    {
        if !('0' <= chars[i] && chars[i] <= '9') {
            assert(!all_digits(s)) by {
                assert(s[i - lo] == chars@[i as int]);
            }
            return None;
        }
        i = i + 1;
    }
    assert(all_digits(s)) by {
        assert forall|k: int| 0 <= k < s.len() implies is_ascii_digit(#[trigger] s[k]) by {
            assert(s[k] == chars@[lo + k]);
        }
    }
    let mut acc: u64 = 0;
    let mut big = false;
    let mut i: usize = lo;
    while i < hi
        invariant
            lo <= i <= hi,
            hi <= chars@.len(),
            s == chars@.subrange(lo as int, hi as int),
            all_digits(s),
            !big ==> acc == decimal(s.subrange(0, i - lo)),
            big ==> decimal(s.subrange(0, i - lo)) > u64::MAX,
        decreases hi - i,
    {
        let ghost prefix = s.subrange(0, i - lo);
        let ghost next = s.subrange(0, i + 1 - lo);
        assert(next.drop_last() =~= prefix);
        assert(next.last() == chars@[i as int]);
        let d = (chars[i] as u32 - 48) as u64;
        proof {
            lemma_decimal_nonnegative(prefix);
        }
        if !big {
            if acc > (u64::MAX - d) / 10 {
                big = true;
            } else {
                acc = acc * 10 + d;
            }
        }
        i = i + 1;
    }
    assert(s.subrange(0, hi - lo) =~= s);
    if big {
        None
    } else {
        Some(acc)
    }
}

/// The full Unicode lowercase mapping of a text, as `str::to_lowercase`
/// gives it.
pub uninterp spec fn unicode_lowercase(s: Seq<char>) -> Seq<char>;

/// `str::to_lowercase`; the mapping is Unicode's and is left to the name.
#[verifier::external_body]
pub(crate) fn lowercase(s: &str) -> (lower: String)
    ensures
        lower@ == unicode_lowercase(s@),
{
    s.to_lowercase()
}

} // verus!
