//! Container metadata, provenance and post-mux policy contracts.

use vstd::prelude::*;

use crate::arithmetic::{rescale_ticks_i64, spec_rescale_ticks};
use crate::media_probe::{Rational, StreamKind};
use crate::handlers::string_views;
use crate::keyed::keys_sorted;
use crate::text::{
    byte_len, chars_of, char_to_ascii_lower, char_is_ascii_hexdigit, is_ascii_hexdigit, lower_seq, lowercase, push_str,
    str_equal, string_of, unicode_lowercase,
};

verus! {

pub const MAX_RAW_DIAGNOSTIC_BYTES: usize = 65_536;

/// Tag values keep at most this many characters.
pub const MAX_TAG_VALUE_CHARS: usize = 512;

#[derive(Debug, Clone, Copy, PartialEq, Eq, Structural)]
pub struct MediaTime {
    pub ticks: i64,
    pub time_base: Rational,
}

impl MediaTime {
    /// A tick count in a positive time base.
    pub fn new(ticks: i64, time_base: Rational) -> (time: Option<Self>)
        ensures
            time == (if time_base.numerator > 0 && time_base.denominator > 0 {
                Some(MediaTime { ticks, time_base })
            } else {
                None
            }),
    {
        if time_base.numerator > 0 && time_base.denominator > 0 {
            Some(MediaTime { ticks, time_base })
        } else {
            None
        }
    }

    /// The same instant in another time base, rounded to the nearest tick.
    pub fn rescale(self, target: Rational) -> (time: Option<Self>)
        ensures
            time == (if target.numerator <= 0 || target.denominator <= 0 {
                None
            } else {
                match spec_rescale_ticks(
                    self.ticks,
                    self.time_base.numerator,
                    self.time_base.denominator,
                    target.numerator,
                    target.denominator,
                ) {
                    Some(ticks) => Some(MediaTime { ticks, time_base: target }),
                    None => None,
                }
            }),
    {
        if target.numerator <= 0 || target.denominator <= 0 {
            return None;
        }
        match rescale_ticks_i64(
            self.ticks,
            self.time_base.numerator,
            self.time_base.denominator,
            target.numerator,
            target.denominator,
        ) {
            Some(ticks) => Some(MediaTime { ticks, time_base: target }),
            None => None,
        }
    }
}

pub struct DisplayTransform {
    pub rotation_degrees: i32,
    pub sample_aspect_ratio: Rational,
    pub matrix: [i64; 9],
}

/// The display matrix of a quarter-turn rotation, row by row.
pub open spec fn rotation_matrix(degrees: int) -> Seq<i64> {
    if degrees == 0 {
        seq![1i64, 0i64, 0i64, 0i64, 1i64, 0i64, 0i64, 0i64, 1i64]
    } else if degrees == 90 {
        seq![0i64, -1i64, 0i64, 1i64, 0i64, 0i64, 0i64, 0i64, 1i64]
    } else if degrees == 180 {
        seq![-1i64, 0i64, 0i64, 0i64, -1i64, 0i64, 0i64, 0i64, 1i64]
    } else {
        seq![0i64, 1i64, 0i64, -1i64, 0i64, 0i64, 0i64, 0i64, 1i64]
    }
}

fn quarter_turn_matrix(degrees: i32) -> (matrix: [i64; 9])
    requires
        degrees == 0 || degrees == 90 || degrees == 180 || degrees == 270,
    ensures
        matrix@ == rotation_matrix(degrees as int),
{
    let matrix: [i64; 9] = if degrees == 0 {
        [1, 0, 0, 0, 1, 0, 0, 0, 1]
    } else if degrees == 90 {
        [0, -1, 0, 1, 0, 0, 0, 0, 1]
    } else if degrees == 180 {
        [-1, 0, 0, 0, -1, 0, 0, 0, 1]
    } else {
        [0, 1, 0, -1, 0, 0, 0, 0, 1]
    };
    assert(matrix@ =~= rotation_matrix(degrees as int));
    matrix
}

impl DisplayTransform {
    /// A transform for a quarter-turn rotation (any number of whole turns
    /// removed) and a positive sample aspect ratio.
    pub fn normalized(rotation_degrees: i32, sample_aspect_ratio: Rational) -> (transform: Option<Self>)
        ensures
            sample_aspect_ratio.numerator <= 0 || sample_aspect_ratio.denominator <= 0 ==> transform is None,
            sample_aspect_ratio.numerator > 0 && sample_aspect_ratio.denominator > 0 ==> (transform is Some <==> (
            rotation_degrees as int) % 90 == 0),
            transform matches Some(t) ==> t.rotation_degrees == (rotation_degrees as int) % 360
                && t.sample_aspect_ratio == sample_aspect_ratio && t.matrix@ == rotation_matrix(t.rotation_degrees as int),
    {
        if sample_aspect_ratio.numerator <= 0 || sample_aspect_ratio.denominator <= 0 {
            return None;
        }
        let r = rotation_degrees % 360;
        let degrees: i32 = if r < 0 { r + 360 } else { r };
        assert(degrees as int == (rotation_degrees as int) % 360);
        if !(degrees == 0 || degrees == 90 || degrees == 180 || degrees == 270) {
            assert((rotation_degrees as int) % 90 != 0);
            return None;
        }
        let matrix = quarter_turn_matrix(degrees);
        Some(DisplayTransform { rotation_degrees: degrees, sample_aspect_ratio, matrix })
    }
}

/// The tag names that may leave the machine: chapter, language, timecode and
/// title, in the order the output lists them.
pub open spec fn allowed_tags() -> Seq<Seq<char>> {
    seq!["chapter"@, "language"@, "timecode"@, "title"@]
}

/// The value of the last of the first `n` tags whose name, lowercased, is `name`.
pub open spec fn last_tag(tags: Seq<(String, String)>, name: Seq<char>, n: int) -> Option<Seq<char>>
    decreases n,
{
    if n <= 0 || n > tags.len() {
        None
    } else if lower_seq(tags[n - 1].0@) == name {
        Some(tags[n - 1].1@)
    } else {
        last_tag(tags, name, n - 1)
    }
}

pub open spec fn take_chars(s: Seq<char>, n: nat) -> Seq<char> {
    if s.len() <= n {
        s
    } else {
        s.subrange(0, n as int)
    }
}

/// The allowed tags among the first `k` allowed names, each with its value
/// cut to 512 characters.
pub open spec fn private_entries(tags: Seq<(String, String)>, k: int) -> Seq<(Seq<char>, Seq<char>)>
    decreases k,
{
    if k <= 0 || k > 4 {
        Seq::empty()
    } else {
        let name = allowed_tags()[k - 1];
        match last_tag(tags, name, tags.len() as int) {
            Some(value) => private_entries(tags, k - 1).push((name, take_chars(value, MAX_TAG_VALUE_CHARS as nat))),
            None => private_entries(tags, k - 1),
        }
    }
}

pub open spec fn entry_views(entries: Seq<(String, String)>) -> Seq<(Seq<char>, Seq<char>)> {
    entries.map_values(|e: (String, String)| (e.0@, e.1@))
}

fn lowercase_equals(name: &str, target: &str) -> (equal: bool)
    ensures
        equal == (lower_seq(name@) == target@),
{
    let chars = chars_of(name);
    let mut lowered: Vec<char> = Vec::new();
    let mut i: usize = 0;
    while i < chars.len()
        invariant
            0 <= i <= chars@.len(),
            chars@ == name@,
            lowered@ == lower_seq(name@).subrange(0, i as int),
        decreases chars.len() - i,
    {
        lowered.push(char_to_ascii_lower(chars[i]));
        assert(lowered@ =~= lower_seq(name@).subrange(0, i + 1));
        i = i + 1;
    }
    assert(lowered@ =~= lower_seq(name@));
    let text = string_of(lowered.as_slice());
    str_equal(text.as_str(), target)
}

fn latest_tag(tags: &[(String, String)], name: &str) -> (value: Option<String>)
    ensures
        value matches Some(v) ==> (last_tag(tags@, name@, tags@.len() as int) matches Some(t) && v@ == take_chars(t, MAX_TAG_VALUE_CHARS as nat)),
        value is None ==> last_tag(tags@, name@, tags@.len() as int) is None,
{
    let mut found: Option<usize> = None;
    let mut i: usize = 0;
    while i < tags.len()
        invariant
            0 <= i <= tags@.len(),
            found matches Some(j) ==> j < i && last_tag(tags@, name@, i as int) == Some(tags@[j as int].1@),
            found is None ==> last_tag(tags@, name@, i as int) is None,
        decreases tags.len() - i,
    {
        if lowercase_equals(tags[i].0.as_str(), name) {
            found = Some(i);
        }
        i = i + 1;
    }
    match found {
        None => None,
        Some(j) => {
            let chars = chars_of(tags[j].1.as_str());
            let end = if chars.len() > MAX_TAG_VALUE_CHARS { MAX_TAG_VALUE_CHARS } else { chars.len() };
            let mut kept: Vec<char> = Vec::new();
            let mut k: usize = 0;
            while k < end
                invariant
                    0 <= k <= end,
                    end <= chars@.len(),
                    kept@ == chars@.subrange(0, k as int),
                decreases end - k,
            {
                kept.push(chars[k]);
                assert(kept@ =~= chars@.subrange(0, k + 1));
                k = k + 1;
            }
            let value = string_of(kept.as_slice());
            assert(value@ =~= take_chars(tags@[j as int].1@, MAX_TAG_VALUE_CHARS as nat));
            Some(value)
        },
    }
}

/// The tags that may be written back into an export: the allowed names only,
/// lowercased, in name order, each with its value cut to 512 characters. Of
/// two tags with one lowercased name, the later one wins.
pub fn private_metadata(tags: &[(String, String)]) -> (kept: Vec<(String, String)>)
    ensures
        entry_views(kept@) == private_entries(tags@, 4),
{
    let names = ["chapter", "language", "timecode", "title"];
    let mut kept: Vec<(String, String)> = Vec::new();
    let mut k: usize = 0;
    while k < 4
        invariant
            0 <= k <= 4,
            forall|a: int| 0 <= a < 4 ==> (#[trigger] names@[a])@ == allowed_tags()[a],
            entry_views(kept@) == private_entries(tags@, k as int),
        decreases 4 - k,
    {
        let name = names[k];
        match latest_tag(tags, name) {
            Some(value) => {
                let ghost before = kept@;
                kept.push((name.to_owned(), value));
                assert(entry_views(kept@) =~= entry_views(before).push((allowed_tags()[k as int], value@)));
            },
            None => {},
        }
        k = k + 1;
    }
    kept
}

pub struct Attachment {
    pub mime: String,
    pub bytes: u64,
}

#[derive(Debug, Clone, Copy, PartialEq, Eq, Structural)]
pub struct AttachmentPolicy {
    pub max_count: usize,
    pub max_each_bytes: u64,
    pub max_total_bytes: u64,
}

/// Fonts and still images are the only attachments a container may carry.
pub open spec fn allowed_attachment(mime: Seq<char>) -> bool {
    mime == "font/ttf"@ || mime == "font/otf"@ || mime == "image/jpeg"@ || mime == "image/png"@
}

pub open spec fn total_bytes(attachments: Seq<Attachment>) -> int
    decreases attachments.len(),
{
    if attachments.len() == 0 {
        0
    } else {
        total_bytes(attachments.drop_last()) + attachments.last().bytes
    }
}

proof fn lemma_total_bytes_grows(attachments: Seq<Attachment>, i: int)
    requires
        0 <= i <= attachments.len(),
    ensures
        total_bytes(attachments.subrange(0, i)) <= total_bytes(attachments),
    decreases attachments.len() - i,
{
    if i < attachments.len() {
        assert(attachments.subrange(0, i + 1).drop_last() =~= attachments.subrange(0, i));
        lemma_total_bytes_grows(attachments, i + 1);
    } else {
        assert(attachments.subrange(0, i) =~= attachments);
    }
}

impl AttachmentPolicy {
    pub fn validate(self, attachments: &[Attachment]) -> (ok: bool)
        ensures
            ok == (attachments@.len() <= self.max_count && (forall|i: int|
                0 <= i < attachments@.len() ==> allowed_attachment((#[trigger] attachments@[i]).mime@)
                    && attachments@[i].bytes <= self.max_each_bytes) && total_bytes(attachments@)
                <= self.max_total_bytes),
    {
        if attachments.len() > self.max_count {
            return false;
        }
        let mut i: usize = 0;
        while i < attachments.len()
            invariant
                0 <= i <= attachments@.len(),
                forall|k: int| 0 <= k < i ==> allowed_attachment((#[trigger] attachments@[k]).mime@)
                    && attachments@[k].bytes <= self.max_each_bytes,
            decreases attachments.len() - i,
        {
            let item = &attachments[i];
            let mime = item.mime.as_str();
            let allowed = str_equal(mime, "font/ttf") || str_equal(mime, "font/otf") || str_equal(mime, "image/jpeg")
                || str_equal(mime, "image/png");
            if !allowed || item.bytes > self.max_each_bytes {
                return false;
            }
            i = i + 1;
        }
        let mut total: u64 = 0;
        let mut i: usize = 0;
        while i < attachments.len()
            invariant
                0 <= i <= attachments@.len(),
                total == total_bytes(attachments@.subrange(0, i as int)),
            decreases attachments.len() - i,
        {
            assert(attachments@.subrange(0, i + 1).drop_last() =~= attachments@.subrange(0, i as int));
            match total.checked_add(attachments[i].bytes) {
                Some(sum) => {
                    total = sum;
                },
                None => {
                    proof {
                        lemma_total_bytes_grows(attachments@, i + 1);
                    }
                    return false;
                },
            }
            i = i + 1;
        }
        assert(attachments@.subrange(0, attachments@.len() as int) =~= attachments@);
        total <= self.max_total_bytes
    }
}

#[derive(Debug, Clone, Copy, PartialEq, Eq, Structural)]
pub enum MarkerKind {
    Chapter,
    SourceTimecode,
}

pub struct SourceMarker {
    pub id: String,
    pub kind: MarkerKind,
    pub source_time: MediaTime,
    pub label: String,
}

pub struct SourceProvenance {
    pub sha256: String,
    pub adapter: String,
    pub adapter_version: String,
    pub probe_version: String,
    pub sanitized_origin: Option<String>,
}

/// A URL that carries no query, fragment or credentials.
pub open spec fn origin_is_clean(origin: Seq<char>) -> bool {
    forall|i: int| 0 <= i < origin.len() ==> #[trigger] origin[i] != '?' && origin[i] != '#' && origin[i] != '@'
}

fn no_query_fragment_or_user(origin: &str) -> (clean: bool)
    ensures
        clean == origin_is_clean(origin@),
{
    let chars = chars_of(origin);
    let mut i: usize = 0;
    while i < chars.len()
        invariant
            0 <= i <= chars@.len(),
            chars@ == origin@,
            forall|k: int| 0 <= k < i ==> #[trigger] chars@[k] != '?' && chars@[k] != '#' && chars@[k] != '@',
        decreases chars.len() - i,
    {
        if chars[i] == '?' || chars[i] == '#' || chars[i] == '@' {
            return false;
        }
        i = i + 1;
    }
    true
}

fn all_hex(s: &str) -> (hex: bool)
    ensures
        hex == (forall|i: int| 0 <= i < s@.len() ==> is_ascii_hexdigit(#[trigger] s@[i])),
{
    let chars = chars_of(s);
    let mut i: usize = 0;
    while i < chars.len()
        invariant
            0 <= i <= chars@.len(),
            chars@ == s@,
            forall|k: int| 0 <= k < i ==> is_ascii_hexdigit(#[trigger] chars@[k]),
        decreases chars.len() - i,
    {
        if !char_is_ascii_hexdigit(chars[i]) {
            return false;
        }
        i = i + 1;
    }
    true
}

impl SourceProvenance {
    /// A 64-digit hexadecimal digest, names of at most 64 bytes, and an origin
    /// without query, fragment or credentials.
    pub fn validate(&self) -> (ok: bool)
        ensures
            ok == (byte_len(self.sha256@) == 64 && (forall|i: int|
                0 <= i < self.sha256@.len() ==> is_ascii_hexdigit(#[trigger] self.sha256@[i])) && byte_len(
                self.adapter@,
            ) <= 64 && byte_len(self.adapter_version@) <= 64 && byte_len(self.probe_version@) <= 64 && match self.sanitized_origin {
                Some(origin) => origin_is_clean(origin@),
                None => true,
            }),
    {
        self.sha256.as_str().len() == 64 && all_hex(self.sha256.as_str()) && self.adapter.as_str().len() <= 64
            && self.adapter_version.as_str().len() <= 64 && self.probe_version.as_str().len() <= 64 && match &self.sanitized_origin {
            Some(origin) => no_query_fragment_or_user(origin.as_str()),
            None => true,
        }
    }
}

pub struct StreamIdentity {
    pub track_id: String,
    pub kind: StreamKind,
    pub language: Option<String>,
    /// The dispositions set on the stream, as a set of names.
    pub dispositions: Vec<String>,
}

/// The name of a stream kind as the identity token spells it (before it is
/// lowercased).
pub open spec fn stream_kind_name(kind: StreamKind) -> Seq<char> {
    match kind {
        StreamKind::Video => "Video"@,
        StreamKind::Audio => "Audio"@,
        StreamKind::Subtitle => "Subtitle"@,
        StreamKind::Data => "Data"@,
        StreamKind::Attachment => "Attachment"@,
        StreamKind::Unknown => "Unknown"@,
    }
}

fn kind_name(kind: StreamKind) -> (name: &'static str)
    ensures
        name@ == stream_kind_name(kind),
{
    match kind {
        StreamKind::Video => "Video",
        StreamKind::Audio => "Audio",
        StreamKind::Subtitle => "Subtitle",
        StreamKind::Data => "Data",
        StreamKind::Attachment => "Attachment",
        StreamKind::Unknown => "Unknown",
    }
}

/// The parts joined by `+`.
pub open spec fn join_plus(parts: Seq<Seq<char>>) -> Seq<char>
    decreases parts.len(),
{
    if parts.len() == 0 {
        Seq::empty()
    } else if parts.len() == 1 {
        parts[0]
    } else {
        join_plus(parts.drop_last()) + seq!['+'] + parts.last()
    }
}

/// `kind:codec:language:dispositions`, with `unknown` for a missing codec,
/// `und` for a missing language and the dispositions joined by `+`.
pub open spec fn track_token_text(
    kind: StreamKind,
    codec: Option<Seq<char>>,
    language: Option<Seq<char>>,
    dispositions: Seq<Seq<char>>,
) -> Seq<char> {
    stream_kind_name(kind) + seq![':'] + match codec {
        Some(c) => c,
        None => "unknown"@,
    } + seq![':'] + match language {
        Some(l) => l,
        None => "und"@,
    } + seq![':'] + join_plus(dispositions)
}

pub open spec fn text_view(s: Option<&str>) -> Option<Seq<char>> {
    match s {
        Some(t) => Some(t@),
        None => None,
    }
}

/// A track id for a stream that has none of its own: the lowercase of its
/// kind, codec, language and dispositions.
fn stable_track_token(kind: StreamKind, codec_name: Option<&str>, language: Option<&str>, dispositions: &[String]) -> (token: String)
    ensures
        token@ == unicode_lowercase(track_token_text(kind, text_view(codec_name), text_view(language), string_views(dispositions@))),
{
    let raw = raw_track_token(kind, codec_name, language, dispositions);
    lowercase(raw.as_str())
}

/// The text a stream's track token is the lowercase of.
pub fn raw_track_token(kind: StreamKind, codec_name: Option<&str>, language: Option<&str>, dispositions: &[String]) -> (raw: String)
    ensures
        raw@ == track_token_text(kind, text_view(codec_name), text_view(language), string_views(dispositions@)),
{
    let mut out: Vec<char> = Vec::new();
    push_str(&mut out, kind_name(kind));
    out.push(':');
    match codec_name {
        Some(c) => push_str(&mut out, c),
        None => push_str(&mut out, "unknown"),
    }
    out.push(':');
    match language {
        Some(l) => push_str(&mut out, l),
        None => push_str(&mut out, "und"),
    }
    out.push(':');
    let ghost head = out@;
    assert(head =~= stream_kind_name(kind) + seq![':'] + match codec_name {
        Some(c) => c@,
        None => "unknown"@,
    } + seq![':'] + match language {
        Some(l) => l@,
        None => "und"@,
    } + seq![':']);
    let ghost names = string_views(dispositions@);
    let mut i: usize = 0;
    while i < dispositions.len()
        invariant
            0 <= i <= dispositions@.len(),
            names == string_views(dispositions@),
            out@ == head + join_plus(names.subrange(0, i as int)),
        decreases dispositions.len() - i,
    {
        if i > 0 {
            out.push('+');
        }
        push_str(&mut out, dispositions[i].as_str());
        proof {
            let next = names.subrange(0, i + 1);
            assert(next.drop_last() =~= names.subrange(0, i as int));
            if i == 0 {
                assert(next.len() == 1);
            }
        }
        i = i + 1;
    }
    proof {
        assert(names.subrange(0, names.len() as int) =~= names);
        assert(out@ =~= track_token_text(kind, text_view(codec_name), text_view(language), names));
    }
    string_of(out.as_slice())
}

impl StreamIdentity {
    /// The identity of a stream: its own track id when it has one, else the
    /// stable token of its kind, codec, language and dispositions; the
    /// language lowercased; the dispositions as they are.
    pub fn from_stream(
        track_id: Option<&str>,
        kind: StreamKind,
        codec_name: Option<&str>,
        language: Option<&str>,
        dispositions: &[String],
    ) -> (identity: StreamIdentity)
        requires
            keys_sorted(dispositions@),
        ensures
            identity.track_id@ == match track_id {
                Some(t) => t@,
                None => unicode_lowercase(
                    track_token_text(kind, text_view(codec_name), text_view(language), string_views(dispositions@)),
                ),
            },
            identity.kind == kind,
            match language {
                Some(l) => identity.language matches Some(lower) && lower@ == unicode_lowercase(l@),
                None => identity.language is None,
            },
            string_views(identity.dispositions@) == string_views(dispositions@),
    {
        let lowered = match language {
            Some(l) => Some(lowercase(l)),
            None => None,
        };
        let token = match track_id {
            Some(_) => None,
            None => Some(stable_track_token(kind, codec_name, language, dispositions)),
        };
        StreamIdentity::from_lowered(track_id, token, kind, lowered, dispositions)
    }

    /// The identity of a stream whose language and fallback token were
    /// already lowercased: its own track id when it has one, else the token;
    /// the dispositions as they are.
    pub fn from_lowered(
        track_id: Option<&str>,
        token: Option<String>,
        kind: StreamKind,
        language: Option<String>,
        dispositions: &[String],
    ) -> (identity: StreamIdentity)
        requires
            track_id is None ==> token is Some,
        ensures
            identity.track_id@ == match track_id {
                Some(t) => t@,
                None => token.unwrap()@,
            },
            identity.kind == kind,
            identity.language == language,
            string_views(identity.dispositions@) == string_views(dispositions@),
    {
        let id = match track_id {
            Some(t) => t.to_owned(),
            None => token.unwrap(),
        };
        let mut kept: Vec<String> = Vec::new();
        let mut i: usize = 0;
        while i < dispositions.len()
            invariant
                0 <= i <= dispositions@.len(),
                kept@.len() == i,
                forall|j: int| 0 <= j < i ==> (#[trigger] kept@[j])@ == dispositions@[j]@,
            decreases dispositions.len() - i,
        {
            kept.push(dispositions[i].clone());
            i = i + 1;
        }
        proof {
            assert(string_views(kept@) =~= string_views(dispositions@));
        }
        StreamIdentity { track_id: id, kind, language, dispositions: kept }
    }
}

pub struct ConformanceSpec {
    /// Accepted container format names, as a set.
    pub formats: Vec<String>,
    /// Stream kinds that must be present, as a set.
    pub required_streams: Vec<StreamKind>,
    pub expected_duration: MediaTime,
    pub duration_tolerance: MediaTime,
}

pub struct AdapterCapability {
    pub id: String,
    /// Container formats the adapter writes, as a set.
    pub formats: Vec<String>,
    /// Codecs the adapter encodes, as a set.
    pub codecs: Vec<String>,
    pub metadata: bool,
}

pub open spec fn names_contain(names: Seq<String>, name: Seq<char>) -> bool {
    exists|j: int| 0 <= j < names.len() && #[trigger] names[j]@ == name
}

/// The adapter writes `format`, encodes every requested codec, and keeps
/// metadata when asked to.
pub open spec fn suits(capability: AdapterCapability, format: Seq<char>, codecs: Seq<String>, metadata: bool) -> bool {
    &&& names_contain(capability.formats@, format)
    &&& forall|c: int| 0 <= c < codecs.len() ==> names_contain(capability.codecs@, #[trigger] codecs[c]@)
    &&& (!metadata || capability.metadata)
}

fn contains_name(names: &Vec<String>, name: &str) -> (found: bool)
    ensures
        found == names_contain(names@, name@),
{
    let mut j: usize = 0;
    while j < names.len()
        invariant
            0 <= j <= names@.len(),
            forall|a: int| 0 <= a < j ==> names@[a]@ != name@,
        decreases names.len() - j,
    {
        if str_equal(names[j].as_str(), name) {
            return true;
        }
        j = j + 1;
    }
    false
}

fn capability_suits(capability: &AdapterCapability, format: &str, codecs: &[String], metadata: bool) -> (ok: bool)
    ensures
        ok == suits(*capability, format@, codecs@, metadata),
{
    if !contains_name(&capability.formats, format) {
        return false;
    }
    let mut c: usize = 0;
    while c < codecs.len()
        invariant
            0 <= c <= codecs@.len(),
            forall|k: int| 0 <= k < c ==> names_contain(capability.codecs@, #[trigger] codecs@[k]@),
        decreases codecs.len() - c,
    {
        if !contains_name(&capability.codecs, codecs[c].as_str()) {
            return false;
        }
        c = c + 1;
    }
    !metadata || capability.metadata
}

/// The first adapter, in the given order, that can produce the request.
pub fn select_adapter<'a>(capabilities: &'a [AdapterCapability], format: &str, codecs: &[String], metadata: bool) -> (result: Result<&'a AdapterCapability, String>)
    ensures
        result is Ok <==> exists|i: int| 0 <= i < capabilities@.len() && suits(#[trigger] capabilities@[i], format@, codecs@, metadata),
        result matches Ok(c) ==> exists|i: int|
            0 <= i < capabilities@.len() && *c == capabilities@[i] && suits(capabilities@[i], format@, codecs@, metadata) && forall|j: int|
                0 <= j < i ==> !suits(#[trigger] capabilities@[j], format@, codecs@, metadata),
        result matches Err(message) ==> message@ == "no adapter supports "@ + format@
            + " with requested codecs and metadata policy"@,
{
    let mut i: usize = 0;
    while i < capabilities.len()
        invariant
            0 <= i <= capabilities@.len(),
            forall|j: int| 0 <= j < i ==> !suits(#[trigger] capabilities@[j], format@, codecs@, metadata),
        decreases capabilities.len() - i,
    {
        if capability_suits(&capabilities[i], format, codecs, metadata) {
            assert(suits(capabilities@[i as int], format@, codecs@, metadata));
            return Ok(&capabilities[i]);
        }
        i = i + 1;
    }
    let mut message: Vec<char> = Vec::new();
    push_str(&mut message, "no adapter supports ");
    push_str(&mut message, format);
    push_str(&mut message, " with requested codecs and metadata policy");
    assert(message@ =~= "no adapter supports "@ + format@ + " with requested codecs and metadata policy"@);
    Err(string_of(message.as_slice()))
}

} // verus!
