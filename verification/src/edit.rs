//! Edit semantics shared by planning and the media adapters: the error type,
//! bounded text, opaque asset references, colours and frame geometry.

use vstd::prelude::*;

use crate::text::{
    chars_of, is_ascii_alphanumeric, is_ascii_hexdigit, char_is_ascii_alphanumeric, char_is_ascii_hexdigit, parse_u32,
    parse_u32_range, string_of, str_equal, trim_range, trimmed,
};

verus! {

pub const MAX_TEXT_CHARS: usize = 512;

/// Asset references are opaque ids; the store applies the real allow-list.
pub const MAX_ASSET_REFERENCE_CHARS: usize = 128;

#[derive(Debug, Clone, Copy, PartialEq, Eq, Structural)]
pub enum EditSpecError {
    UnsupportedSchema(u32),
    InvalidTimeRange,
    OverlappingSegments,
    InvalidRectangle,
    InvalidScale,
    InvalidRotation,
    InvalidAspectRatio,
    InvalidCensorColor,
    InvalidLook,
    InvalidSpeed,
    InvalidFade,
    InvalidVideoEffect,
    InvalidToneCurve,
    InvalidLut,
    InvalidAudioEffect,
    InvalidAssetReference,
    InvalidColor,
    InvalidClip,
    InvalidTransition,
    InvalidOverlay,
    InvalidTitle,
    InvalidSubtitles,
    InvalidAudioTrack,
    InvalidAudioDynamics,
    InvalidMotion,
    InvalidSpatial,
    InvalidColorGrade,
}

/// Unicode general category `Cc`: the C0 and C1 control codes and DEL.
pub open spec fn is_control(c: char) -> bool {
    (c as u32) <= 0x1f || (0x7f <= (c as u32) && (c as u32) <= 0x9f)
}

fn char_is_control(c: char) -> (b: bool)
    ensures
        b == is_control(c),
{
    let code = c as u32;
    code <= 0x1f || (0x7f <= code && code <= 0x9f)
}

/// At most `max_chars` characters and no control character but the newline.
pub open spec fn is_bounded_text(s: Seq<char>, max_chars: nat) -> bool {
    &&& s.len() <= max_chars
    &&& forall|i: int| 0 <= i < s.len() ==> !is_control(#[trigger] s[i]) || s[i] == '\n'
}

/// Length-cap a user string and reject control characters. Newlines survive
/// because titles are allowed to wrap.
pub fn bounded_text(value: &str, max_chars: usize, error: EditSpecError) -> (result: Result<String, EditSpecError>)
    ensures
        result is Ok <==> is_bounded_text(value@, max_chars as nat),
        result matches Ok(text) ==> text@ == value@,
        result matches Err(e) ==> e == error,
{
    let chars = chars_of(value);
    if chars.len() > max_chars {
        return Err(error);
    }
    let mut i: usize = 0;
    while i < chars.len()
        invariant
            0 <= i <= chars@.len(),
            chars@ == value@,
            forall|k: int| 0 <= k < i ==> !is_control(#[trigger] chars@[k]) || chars@[k] == '\n',
        decreases chars.len() - i,
    {
        if char_is_control(chars[i]) && chars[i] != '\n' {
            return Err(error);
        }
        i = i + 1;
    }
    Ok(value.to_owned())
}

pub open spec fn is_reference_char(c: char) -> bool {
    is_ascii_alphanumeric(c) || c == '-' || c == '_'
}

/// One to 128 ASCII letters, digits, `-` or `_`: no separator and no dot, so
/// a reference can never become a path fragment on its own.
pub open spec fn is_asset_reference(s: Seq<char>) -> bool {
    &&& 1 <= s.len() <= MAX_ASSET_REFERENCE_CHARS
    &&& forall|i: int| 0 <= i < s.len() ==> is_reference_char(#[trigger] s[i])
}

pub fn asset_reference(value: &str) -> (result: Result<String, EditSpecError>)
    ensures
        result is Ok <==> is_asset_reference(value@),
        result matches Ok(text) ==> text@ == value@,
        result matches Err(e) ==> e == EditSpecError::InvalidAssetReference,
{
    let chars = chars_of(value);
    if chars.len() == 0 || chars.len() > MAX_ASSET_REFERENCE_CHARS {
        return Err(EditSpecError::InvalidAssetReference);
    }
    let mut i: usize = 0;
    while i < chars.len()
        invariant
            0 <= i <= chars@.len(),
            chars@ == value@,
            forall|k: int| 0 <= k < i ==> is_reference_char(#[trigger] chars@[k]),
        decreases chars.len() - i,
    {
        let c = chars[i];
        if !(char_is_ascii_alphanumeric(c) || c == '-' || c == '_') {
            return Err(EditSpecError::InvalidAssetReference);
        }
        i = i + 1;
    }
    Ok(value.to_owned())
}

/// The value of a hexadecimal digit of either case.
pub open spec fn hex_value(c: char) -> int {
    if '0' <= c <= '9' {
        c as int - '0' as int
    } else if 'a' <= c <= 'f' {
        c as int - 'a' as int + 10
    } else {
        c as int - 'A' as int + 10
    }
}

fn char_hex_value(c: char) -> (v: u8)
    requires
        is_ascii_hexdigit(c),
    ensures
        v as int == hex_value(c),
        v < 16,
{
    let code = c as u32;
    if '0' <= c && c <= '9' {
        (code - 48) as u8
    } else if 'a' <= c && c <= 'f' {
        (code - 87) as u8
    } else {
        (code - 55) as u8
    }
}

/// Uppercase hexadecimal digit for a value below 16.
pub open spec fn upper_hex_digit(v: int) -> char {
    if v < 10 {
        (('0' as int) + v) as char
    } else {
        (('A' as int) + v - 10) as char
    }
}

/// Two uppercase hexadecimal digits for a byte.
pub open spec fn upper_hex_byte(b: u8) -> Seq<char> {
    seq![upper_hex_digit(b as int / 16), upper_hex_digit(b as int % 16)]
}

fn push_upper_hex(out: &mut Vec<char>, b: u8)
    ensures
        final(out)@ == old(out)@ + upper_hex_byte(b),
{
    let high = b / 16;
    let low = b % 16;
    out.push(if high < 10 { ((48 + high) as char) } else { ((55 + high) as char) });
    out.push(if low < 10 { ((48 + low) as char) } else { ((55 + low) as char) });
    assert(final(out)@ =~= old(out)@ + upper_hex_byte(b)) by {
        assert(upper_hex_byte(b)[0] == upper_hex_digit(high as int));
    }
}

/// `#` followed by six hexadecimal digits.
pub open spec fn is_hex_color(s: Seq<char>) -> bool {
    &&& s.len() == 7
    &&& s[0] == '#'
    &&& forall|i: int| 1 <= i < 7 ==> is_ascii_hexdigit(#[trigger] s[i])
}

/// The channel value written by digits `2k+1` and `2k+2`.
pub open spec fn hex_channel(s: Seq<char>, k: int) -> int {
    16 * hex_value(s[2 * k + 1]) + hex_value(s[2 * k + 2])
}

/// A validated `#RRGGBB` colour. Stored as bytes and written uppercase, so
/// equal colours give equal plan fingerprints.
#[derive(Debug, Clone, Copy, PartialEq, Eq, Structural)]
pub struct HexColor(u8, u8, u8);

impl HexColor {
    /// Red, green and blue.
    pub closed spec fn rgb(self) -> Seq<u8> {
        seq![self.0, self.1, self.2]
    }

    pub fn parse(value: &str) -> (result: Result<Self, EditSpecError>)
        ensures
            result is Ok <==> is_hex_color(value@),
            result matches Ok(color) ==> forall|k: int| 0 <= k < 3 ==> #[trigger] color.rgb()[k] == hex_channel(value@, k),
            result matches Err(e) ==> e == EditSpecError::InvalidColor,
    {
        let chars = chars_of(value);
        if chars.len() != 7 || chars[0] != '#' {
            return Err(EditSpecError::InvalidColor);
        }
        let mut i: usize = 1;
        while i < 7
            invariant
                1 <= i <= 7,
                chars@ == value@,
                chars@.len() == 7,
                forall|k: int| 1 <= k < i ==> is_ascii_hexdigit(#[trigger] chars@[k]),
            decreases 7 - i,
        {
            if !char_is_ascii_hexdigit(chars[i]) {
                return Err(EditSpecError::InvalidColor);
            }
            i = i + 1;
        }
        assert(is_ascii_hexdigit(chars@[1]) && is_ascii_hexdigit(chars@[2]) && is_ascii_hexdigit(chars@[3]));
        assert(is_ascii_hexdigit(chars@[4]) && is_ascii_hexdigit(chars@[5]) && is_ascii_hexdigit(chars@[6]));
        let r = 16 * char_hex_value(chars[1]) + char_hex_value(chars[2]);
        let g = 16 * char_hex_value(chars[3]) + char_hex_value(chars[4]);
        let b = 16 * char_hex_value(chars[5]) + char_hex_value(chars[6]);
        let color = HexColor(r, g, b);
        assert(color.rgb()[0] == hex_channel(value@, 0));
        assert(color.rgb()[1] == hex_channel(value@, 1));
        assert(color.rgb()[2] == hex_channel(value@, 2));
        Ok(color)
    }

    /// `#RRGGBB` in uppercase.
    pub open spec fn hex_text(self) -> Seq<char> {
        seq!['#'] + upper_hex_byte(self.rgb()[0]) + upper_hex_byte(self.rgb()[1]) + upper_hex_byte(self.rgb()[2])
    }

    /// Colours with the same channels are the same colour.
    pub proof fn lemma_rgb_determines(self, other: HexColor)
        requires
            forall|k: int| 0 <= k < 3 ==> #[trigger] self.rgb()[k] == other.rgb()[k],
        ensures
            self == other,
    {
        assert(self.rgb()[0] == other.rgb()[0]);
        assert(self.rgb()[1] == other.rgb()[1]);
        assert(self.rgb()[2] == other.rgb()[2]);
    }

    /// `#RRGGBB` in uppercase.
    pub fn as_hex(self) -> (text: String)
        ensures
            text@ == self.hex_text(),
    {
        let mut out: Vec<char> = Vec::new();
        out.push('#');
        push_upper_hex(&mut out, self.0);
        push_upper_hex(&mut out, self.1);
        push_upper_hex(&mut out, self.2);
        string_of(out.as_slice())
    }

    /// The `0xRRGGBB` form every FFmpeg colour option accepts. It holds only
    /// hexadecimal digits, so it is safe inside a filter string unescaped.
    pub fn ffmpeg_color(self) -> (text: String)
        ensures
            text@ == seq!['0', 'x'] + upper_hex_byte(self.rgb()[0]) + upper_hex_byte(self.rgb()[1])
                + upper_hex_byte(self.rgb()[2]),
    {
        let mut out: Vec<char> = Vec::new();
        out.push('0');
        out.push('x');
        push_upper_hex(&mut out, self.0);
        push_upper_hex(&mut out, self.1);
        push_upper_hex(&mut out, self.2);
        string_of(out.as_slice())
    }
}

#[derive(Debug, Clone, Copy, PartialEq, Eq, Structural)]
pub struct PixelRect {
    pub x: u32,
    pub y: u32,
    pub width: u32,
    pub height: u32,
}

impl PixelRect {
    pub fn validate(self) -> (result: Result<(), EditSpecError>)
        ensures
            result is Ok <==> self.width != 0 && self.height != 0,
            result matches Err(e) ==> e == EditSpecError::InvalidRectangle,
    {
        if self.width == 0 || self.height == 0 {
            return Err(EditSpecError::InvalidRectangle);
        }
        Ok(())
    }
}

/// `-1` and `-2` keep the aspect ratio (the second rounds to even); other
/// sizes run from 2 to 7680.
pub open spec fn valid_dimension(value: i32) -> bool {
    value == -2 || value == -1 || (2 <= value <= 7680)
}

#[derive(Debug, Clone, Copy, PartialEq, Eq, Structural)]
pub struct OutputScale {
    pub width: i32,
    pub height: i32,
}

impl OutputScale {
    pub fn validate(self) -> (result: Result<(), EditSpecError>)
        ensures
            result is Ok <==> valid_dimension(self.width) && valid_dimension(self.height) && !(self.width < 0
                && self.height < 0),
            result matches Err(e) ==> e == EditSpecError::InvalidScale,
    {
        let width_ok = self.width == -2 || self.width == -1 || (2 <= self.width && self.width <= 7680);
        let height_ok = self.height == -2 || self.height == -1 || (2 <= self.height && self.height <= 7680);
        if !width_ok || !height_ok || (self.width < 0 && self.height < 0) {
            return Err(EditSpecError::InvalidScale);
        }
        Ok(())
    }
}

#[derive(Debug, Clone, Copy, PartialEq, Eq, Structural)]
pub enum Rotation {
    Upright,
    Clockwise90,
    Clockwise180,
    Clockwise270,
}

impl Rotation {
    /// A quarter turn of any sign and any number of whole turns.
    #[verifier::spinoff_prover]
    #[verifier::rlimit(30)]
    pub fn from_degrees(value: i32) -> (result: Result<Self, EditSpecError>)
        ensures
            (value as int) % 360 == 0 ==> result == Ok::<Rotation, EditSpecError>(Rotation::Upright),
            (value as int) % 360 == 90 ==> result == Ok::<Rotation, EditSpecError>(Rotation::Clockwise90),
            (value as int) % 360 == 180 ==> result == Ok::<Rotation, EditSpecError>(Rotation::Clockwise180),
            (value as int) % 360 == 270 ==> result == Ok::<Rotation, EditSpecError>(Rotation::Clockwise270),
            (value as int) % 90 != 0 ==> result == Err::<Rotation, EditSpecError>(EditSpecError::InvalidRotation),
    {
        let r = value % 360;
        let turned = if r < 0 { r + 360 } else { r };
        assert(turned as int == (value as int) % 360);
        if turned == 0 {
            Ok(Rotation::Upright)
        } else if turned == 90 {
            Ok(Rotation::Clockwise90)
        } else if turned == 180 {
            Ok(Rotation::Clockwise180)
        } else if turned == 270 {
            Ok(Rotation::Clockwise270)
        } else {
            assert((value as int) % 90 != 0);
            Err(EditSpecError::InvalidRotation)
        }
    }
}

/// The fixed colour looks. A look is named by its token, never by a filter
/// string, so a client cannot smuggle a filter in.
#[derive(Debug, Clone, Copy, PartialEq, Eq, Structural)]
pub enum LookPreset {
    Grayscale,
    Sepia,
    Warm,
    Cold,
    TealOrange,
    Faded,
    Noir,
    Vintage,
}

impl LookPreset {
    pub const ALL: [LookPreset; 8] = [
        LookPreset::Grayscale,
        LookPreset::Sepia,
        LookPreset::Warm,
        LookPreset::Cold,
        LookPreset::TealOrange,
        LookPreset::Faded,
        LookPreset::Noir,
        LookPreset::Vintage,
    ];

    /// The token that names this kind on the wire.
    pub open spec fn wire(self) -> Seq<char> {
        match self {
            LookPreset::Grayscale => "grayscale"@,
            LookPreset::Sepia => "sepia"@,
            LookPreset::Warm => "warm"@,
            LookPreset::Cold => "cold"@,
            LookPreset::TealOrange => "teal-orange"@,
            LookPreset::Faded => "faded"@,
            LookPreset::Noir => "noir"@,
            LookPreset::Vintage => "vintage"@,
        }
    }

    /// The kind a wire token names, if any.
    pub open spec fn from_wire(value: Seq<char>) -> Option<LookPreset> {
        if value == "grayscale"@ {
            Some(LookPreset::Grayscale)
        } else if value == "sepia"@ {
            Some(LookPreset::Sepia)
        } else if value == "warm"@ {
            Some(LookPreset::Warm)
        } else if value == "cold"@ {
            Some(LookPreset::Cold)
        } else if value == "teal-orange"@ {
            Some(LookPreset::TealOrange)
        } else if value == "faded"@ {
            Some(LookPreset::Faded)
        } else if value == "noir"@ {
            Some(LookPreset::Noir)
        } else if value == "vintage"@ {
            Some(LookPreset::Vintage)
        } else {
            None
        }
    }

    pub fn wire_id(self) -> (token: &'static str)
        ensures
            token@ == self.wire(),
    {
        match self {
            LookPreset::Grayscale => "grayscale",
            LookPreset::Sepia => "sepia",
            LookPreset::Warm => "warm",
            LookPreset::Cold => "cold",
            LookPreset::TealOrange => "teal-orange",
            LookPreset::Faded => "faded",
            LookPreset::Noir => "noir",
            LookPreset::Vintage => "vintage",
        }
    }

    /// Accept exactly the wire tokens, and nothing else.
    pub fn parse(value: &str) -> (result: Result<LookPreset, EditSpecError>)
        ensures
            result == (match LookPreset::from_wire(value@) {
                Some(kind) => Ok::<LookPreset, EditSpecError>(kind),
                None => Err(EditSpecError::InvalidLook),
            }),
    {
        if str_equal(value, "grayscale") {
            return Ok(LookPreset::Grayscale);
        }
        if str_equal(value, "sepia") {
            return Ok(LookPreset::Sepia);
        }
        if str_equal(value, "warm") {
            return Ok(LookPreset::Warm);
        }
        if str_equal(value, "cold") {
            return Ok(LookPreset::Cold);
        }
        if str_equal(value, "teal-orange") {
            return Ok(LookPreset::TealOrange);
        }
        if str_equal(value, "faded") {
            return Ok(LookPreset::Faded);
        }
        if str_equal(value, "noir") {
            return Ok(LookPreset::Noir);
        }
        if str_equal(value, "vintage") {
            return Ok(LookPreset::Vintage);
        }
        Err(EditSpecError::InvalidLook)
    }
}

/// Each look's token parses back to that look, so no two looks share a token.
pub proof fn law_look_tokens_round_trip(kind: LookPreset)
    ensures
        LookPreset::from_wire(kind.wire()) == Some(kind),
{
    reveal_strlit("grayscale");
    reveal_strlit("sepia");
    reveal_strlit("warm");
    reveal_strlit("cold");
    reveal_strlit("teal-orange");
    reveal_strlit("faded");
    reveal_strlit("noir");
    reveal_strlit("vintage");
    match kind {
        LookPreset::Grayscale => {
        },
        LookPreset::Sepia => {
            assert("sepia"@.len() != "grayscale"@.len());
        },
        LookPreset::Warm => {
            assert("warm"@.len() != "grayscale"@.len());
            assert("warm"@.len() != "sepia"@.len());
        },
        LookPreset::Cold => {
            assert("cold"@.len() != "grayscale"@.len());
            assert("cold"@.len() != "sepia"@.len());
            assert("cold"@[0] != "warm"@[0]);
        },
        LookPreset::TealOrange => {
            assert("teal-orange"@.len() != "grayscale"@.len());
            assert("teal-orange"@.len() != "sepia"@.len());
            assert("teal-orange"@.len() != "warm"@.len());
            assert("teal-orange"@.len() != "cold"@.len());
        },
        LookPreset::Faded => {
            assert("faded"@.len() != "grayscale"@.len());
            assert("faded"@[0] != "sepia"@[0]);
            assert("faded"@.len() != "warm"@.len());
            assert("faded"@.len() != "cold"@.len());
            assert("faded"@.len() != "teal-orange"@.len());
        },
        LookPreset::Noir => {
            assert("noir"@.len() != "grayscale"@.len());
            assert("noir"@.len() != "sepia"@.len());
            assert("noir"@[0] != "warm"@[0]);
            assert("noir"@[0] != "cold"@[0]);
            assert("noir"@.len() != "teal-orange"@.len());
            assert("noir"@.len() != "faded"@.len());
        },
        LookPreset::Vintage => {
            assert("vintage"@.len() != "grayscale"@.len());
            assert("vintage"@.len() != "sepia"@.len());
            assert("vintage"@.len() != "warm"@.len());
            assert("vintage"@.len() != "cold"@.len());
            assert("vintage"@.len() != "teal-orange"@.len());
            assert("vintage"@.len() != "faded"@.len());
            assert("vintage"@.len() != "noir"@.len());
        },
    }
}

#[derive(Debug, Clone, Copy, PartialEq, Eq, Structural)]
pub enum CensorColor {
    Black,
    White,
    Gray,
    Red,
}

impl CensorColor {
    /// The colour a censor box takes from its wire token; no token means black.
    pub open spec fn from_wire(value: Option<Seq<char>>) -> Option<CensorColor> {
        let token = match value {
            Some(v) => v,
            None => "black"@,
        };
        if token == "black"@ {
            Some(CensorColor::Black)
        } else if token == "white"@ {
            Some(CensorColor::White)
        } else if token == "gray"@ || token == "grey"@ {
            Some(CensorColor::Gray)
        } else if token == "red"@ {
            Some(CensorColor::Red)
        } else {
            None
        }
    }

    pub fn parse(value: Option<&str>) -> (result: Result<Self, EditSpecError>)
        ensures
            result == (match CensorColor::from_wire(
                match value {
                    Some(v) => Some(v@),
                    None => None,
                },
            ) {
                Some(color) => Ok::<CensorColor, EditSpecError>(color),
                None => Err(EditSpecError::InvalidCensorColor),
            }),
    {
        let token = match value {
            Some(v) => v,
            None => "black",
        };
        if str_equal(token, "black") {
            Ok(CensorColor::Black)
        } else if str_equal(token, "white") {
            Ok(CensorColor::White)
        } else if str_equal(token, "gray") || str_equal(token, "grey") {
            Ok(CensorColor::Gray)
        } else if str_equal(token, "red") {
            Ok(CensorColor::Red)
        } else {
            Err(EditSpecError::InvalidCensorColor)
        }
    }

    pub open spec fn ffmpeg(self) -> Seq<char> {
        match self {
            CensorColor::Black => "black"@,
            CensorColor::White => "white"@,
            CensorColor::Gray => "gray"@,
            CensorColor::Red => "red"@,
        }
    }

    pub fn ffmpeg_name(self) -> (name: &'static str)
        ensures
            name@ == self.ffmpeg(),
    {
        match self {
            CensorColor::Black => "black",
            CensorColor::White => "white",
            CensorColor::Gray => "gray",
            CensorColor::Red => "red",
        }
    }
}

#[derive(Debug, Clone, Copy, PartialEq, Eq, Structural)]
pub struct CensorSpec {
    pub rect: PixelRect,
    pub color: CensorColor,
}

#[derive(Debug, Clone, Copy, PartialEq, Eq, Structural)]
pub struct AspectRatio {
    pub width: u32,
    pub height: u32,
}

/// `p` is the position of the first `:` in `s`.
pub open spec fn first_colon(s: Seq<char>, p: int) -> bool {
    &&& 0 <= p < s.len()
    &&& s[p] == ':'
    &&& forall|k: int| 0 <= k < p ==> s[k] != ':'
}

/// `width:height` split at the first colon, each side trimmed and read as
/// a `u32`.
pub open spec fn aspect_ratio_of(s: Seq<char>) -> Option<AspectRatio> {
    if exists|p: int| first_colon(s, p) {
        let p = choose|p: int| first_colon(s, p);
        match (parse_u32(trimmed(s.subrange(0, p))), parse_u32(trimmed(s.subrange(p + 1, s.len() as int)))) {
            (Some(width), Some(height)) => Some(AspectRatio { width, height }),
            _ => None,
        }
    } else {
        None
    }
}

impl AspectRatio {
    pub fn validate(self) -> (result: Result<(), EditSpecError>)
        ensures
            result is Ok <==> 1 <= self.width <= 100 && 1 <= self.height <= 100,
            result matches Err(e) ==> e == EditSpecError::InvalidAspectRatio,
    {
        if self.width == 0 || self.height == 0 || self.width > 100 || self.height > 100 {
            return Err(EditSpecError::InvalidAspectRatio);
        }
        Ok(())
    }

    /// `width:height`, each side from 1 to 100, spaces around either side
    /// allowed.
    pub fn parse(value: &str) -> (result: Result<Self, EditSpecError>)
        ensures
            result is Ok <==> (aspect_ratio_of(value@) matches Some(r) && 1 <= r.width <= 100 && 1 <= r.height
                <= 100),
            result matches Ok(r) ==> aspect_ratio_of(value@) == Some(r),
            result matches Err(e) ==> e == EditSpecError::InvalidAspectRatio,
    {
        let chars = chars_of(value);
        let mut p: usize = 0;
        while p < chars.len() && chars[p] != ':'
            invariant
                0 <= p <= chars@.len(),
                chars@ == value@,
                forall|k: int| 0 <= k < p ==> chars@[k] != ':',
            decreases chars.len() - p,
        {
            p = p + 1;
        }
        if p == chars.len() {
            assert(!exists|q: int| first_colon(value@, q));
            return Err(EditSpecError::InvalidAspectRatio);
        }
        assert(first_colon(value@, p as int));
        proof {
            let q = choose|q: int| first_colon(value@, q);
            if q < p {
                assert(chars@[q] != ':');
            } else if q > p {
                assert(value@[p as int] != ':');
            }
        }
        let (a, b) = trim_range(chars.as_slice(), 0, p);
        let width = match parse_u32_range(chars.as_slice(), a, b) {
            Some(w) => w,
            None => {
                return Err(EditSpecError::InvalidAspectRatio);
            },
        };
        let (c, d) = trim_range(chars.as_slice(), p + 1, chars.len());
        let height = match parse_u32_range(chars.as_slice(), c, d) {
            Some(h) => h,
            None => {
                return Err(EditSpecError::InvalidAspectRatio);
            },
        };
        let ratio = AspectRatio { width, height };
        ratio.validate()?;
        Ok(ratio)
    }
}

#[derive(Debug, Clone, Copy, PartialEq, Eq, Structural)]
pub struct GeometrySpec {
    pub crop: Option<PixelRect>,
    pub scale: Option<OutputScale>,
    pub rotation: Rotation,
    pub flip_horizontal: bool,
    pub flip_vertical: bool,
    pub pad_aspect: Option<AspectRatio>,
    pub censor: Option<CensorSpec>,
}

/// The two digits written for a byte are hexadecimal digits that read back
/// as that byte.
pub proof fn lemma_upper_hex_byte(b: u8)
    ensures
        is_ascii_hexdigit(upper_hex_byte(b)[0]),
        is_ascii_hexdigit(upper_hex_byte(b)[1]),
        16 * hex_value(upper_hex_byte(b)[0]) + hex_value(upper_hex_byte(b)[1]) == b,
{
    let high = b as int / 16;
    let low = b as int % 16;
    assert(0 <= high < 16 && 0 <= low < 16 && 16 * high + low == b) by (nonlinear_arith)
        requires
            high == b as int / 16,
            low == b as int % 16,
            0 <= b < 256,
    ;
    assert(hex_value(upper_hex_digit(high)) == high && is_ascii_hexdigit(upper_hex_digit(high)));
    assert(hex_value(upper_hex_digit(low)) == low && is_ascii_hexdigit(upper_hex_digit(low)));
}

/// Writing a colour and parsing the text gives the colour back: the text is
/// a `#RRGGBB` colour whose channels are the colour's, and the only colour
/// with those channels is the colour itself.
pub proof fn law_hex_color_round_trip(color: HexColor, reparsed: HexColor)
    ensures
        is_hex_color(color.hex_text()),
        forall|k: int| 0 <= k < 3 ==> hex_channel(color.hex_text(), k) == #[trigger] color.rgb()[k],
        (forall|k: int| 0 <= k < 3 ==> #[trigger] reparsed.rgb()[k] == hex_channel(color.hex_text(), k)) ==> reparsed
            == color,
{
    let s = color.hex_text();
    lemma_upper_hex_byte(color.rgb()[0]);
    lemma_upper_hex_byte(color.rgb()[1]);
    lemma_upper_hex_byte(color.rgb()[2]);
    assert(s[1] == upper_hex_byte(color.rgb()[0])[0] && s[2] == upper_hex_byte(color.rgb()[0])[1]);
    assert(s[3] == upper_hex_byte(color.rgb()[1])[0] && s[4] == upper_hex_byte(color.rgb()[1])[1]);
    assert(s[5] == upper_hex_byte(color.rgb()[2])[0] && s[6] == upper_hex_byte(color.rgb()[2])[1]);
    assert forall|i: int| 1 <= i < 7 implies is_ascii_hexdigit(#[trigger] s[i]) by {}
    assert forall|k: int| 0 <= k < 3 implies hex_channel(s, k) == #[trigger] color.rgb()[k] by {
        if k == 0 {
        } else if k == 1 {
        } else {
        }
    }
    if forall|k: int| 0 <= k < 3 ==> #[trigger] reparsed.rgb()[k] == hex_channel(s, k) {
        assert forall|k: int| 0 <= k < 3 implies #[trigger] reparsed.rgb()[k] == color.rgb()[k] by {
            assert(reparsed.rgb()[k] == hex_channel(s, k));
        }
        reparsed.lemma_rgb_determines(color);
    }
}

/// A hexadecimal digit in uppercase.
pub open spec fn upper_digit(c: char) -> char {
    if 'a' <= c <= 'f' {
        ((c as int) - 32) as char
    } else {
        c
    }
}

proof fn lemma_digit_upper(c: char)
    requires
        is_ascii_hexdigit(c),
    ensures
        0 <= hex_value(c) < 16,
        upper_hex_digit(hex_value(c)) == upper_digit(c),
{
}

proof fn lemma_byte_digits(h: int, l: int)
    requires
        0 <= h < 16,
        0 <= l < 16,
    ensures
        upper_hex_byte((16 * h + l) as u8) == seq![upper_hex_digit(h), upper_hex_digit(l)],
{
    let b = (16 * h + l) as u8;
    assert(b as int == 16 * h + l);
    assert(b as int / 16 == h && b as int % 16 == l) by (nonlinear_arith)
        requires
            b as int == 16 * h + l,
            0 <= h < 16,
            0 <= l < 16,
    ;
}

/// A parsed colour is written back as the parsed text with its digits in
/// uppercase.
pub proof fn law_hex_color_is_written_uppercase(s: Seq<char>, color: HexColor)
    requires
        is_hex_color(s),
        forall|k: int| 0 <= k < 3 ==> #[trigger] color.rgb()[k] == hex_channel(s, k),
    ensures
        color.hex_text() == seq!['#'] + s.subrange(1, 7).map_values(|c: char| upper_digit(c)),
{
    assert(is_ascii_hexdigit(s[1]) && is_ascii_hexdigit(s[2]) && is_ascii_hexdigit(s[3]));
    assert(is_ascii_hexdigit(s[4]) && is_ascii_hexdigit(s[5]) && is_ascii_hexdigit(s[6]));
    lemma_digit_upper(s[1]);
    lemma_digit_upper(s[2]);
    lemma_digit_upper(s[3]);
    lemma_digit_upper(s[4]);
    lemma_digit_upper(s[5]);
    lemma_digit_upper(s[6]);
    assert(color.rgb()[0] == hex_channel(s, 0));
    assert(color.rgb()[1] == hex_channel(s, 1));
    assert(color.rgb()[2] == hex_channel(s, 2));
    lemma_byte_digits(hex_value(s[1]), hex_value(s[2]));
    lemma_byte_digits(hex_value(s[3]), hex_value(s[4]));
    lemma_byte_digits(hex_value(s[5]), hex_value(s[6]));
    assert(color.hex_text() =~= seq!['#'] + s.subrange(1, 7).map_values(|c: char| upper_digit(c)));
}

pub const MAX_OVERLAYS: usize = 32;

pub const MAX_TITLES: usize = 32;

pub const MAX_AUDIO_TRACKS: usize = 8;

/// The collection caps of one edit request, checked in order: at most
/// `MAX_OVERLAYS` overlays, then `MAX_TITLES` titles, then
/// `MAX_AUDIO_TRACKS` audio tracks.
pub fn check_extension_counts(overlays: usize, titles: usize, audio_tracks: usize) -> (result: Result<(), EditSpecError>)
    ensures
        overlays > MAX_OVERLAYS ==> result == Err::<(), EditSpecError>(EditSpecError::InvalidOverlay),
        overlays <= MAX_OVERLAYS && titles > MAX_TITLES ==> result == Err::<(), EditSpecError>(
            EditSpecError::InvalidTitle,
        ),
        overlays <= MAX_OVERLAYS && titles <= MAX_TITLES && audio_tracks > MAX_AUDIO_TRACKS ==> result == Err::<
            (),
            EditSpecError,
        >(EditSpecError::InvalidAudioTrack),
        result is Ok <==> overlays <= MAX_OVERLAYS && titles <= MAX_TITLES && audio_tracks <= MAX_AUDIO_TRACKS,
{
    if overlays > MAX_OVERLAYS {
        return Err(EditSpecError::InvalidOverlay);
    }
    if titles > MAX_TITLES {
        return Err(EditSpecError::InvalidTitle);
    }
    if audio_tracks > MAX_AUDIO_TRACKS {
        return Err(EditSpecError::InvalidAudioTrack);
    }
    Ok(())
}

} // verus!
