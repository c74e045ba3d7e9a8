//! The plain rules of the HTTP layer: file names, extensions, download
//! names, error classification and render-cache identity.

use vstd::prelude::*;

use crate::fingerprint::{hex_lower, hex_string, is_fingerprint_text, sha256, sha256_digest};
use crate::text::{
    byte_len, lowercase, unicode_lowercase, char_is_ascii_alphanumeric, char_to_ascii_lower, chars_of, is_ascii_alphanumeric, lower_seq, push_str,
    str_equal, str_less, string_of, to_ascii_lower, seq_lt, lemma_seq_lt_trichotomy, lemma_seq_lt_transitive, trim_range,
    trimmed,
};

verus! {

/// The extension `Path::extension` finds in a path: the text after the last
/// `.` of the final component, when that component has one past its start.
pub uninterp spec fn path_extension(path: Seq<char>) -> Option<Seq<char>>;

/// The stem `Path::file_stem` finds in a path: the final component without
/// its extension.
pub uninterp spec fn path_file_stem(path: Seq<char>) -> Option<Seq<char>>;

/// `Path::new(path).extension()` read as UTF-8 text (the path is already
/// UTF-8, so the text is the whole extension).
#[verifier::external_body]
fn extension_of(path: &str) -> (extension: Option<String>)
    ensures
        extension matches Some(e) ==> path_extension(path@) == Some(e@),
        extension is None ==> path_extension(path@) is None,
{
    std::path::Path::new(path).extension().and_then(|e| e.to_str()).map(|e| e.to_owned())
}

/// `Path::new(path).file_stem()` read as UTF-8 text.
#[verifier::external_body]
fn file_stem_of(path: &str) -> (stem: Option<String>)
    ensures
        stem matches Some(s) ==> path_file_stem(path@) == Some(s@),
        stem is None ==> path_file_stem(path@) is None,
{
    std::path::Path::new(path).file_stem().and_then(|s| s.to_str()).map(|s| s.to_owned())
}

/// The ASCII letters and digits among the first `n` characters of `s`.
pub open spec fn alphanumerics(s: Seq<char>, n: int) -> Seq<char>
    decreases n,
{
    if n <= 0 || n > s.len() {
        Seq::empty()
    } else if is_ascii_alphanumeric(s[n - 1]) {
        alphanumerics(s, n - 1).push(s[n - 1])
    } else {
        alphanumerics(s, n - 1)
    }
}

pub open spec fn take(s: Seq<char>, n: nat) -> Seq<char> {
    if s.len() <= n {
        s
    } else {
        s.subrange(0, n as int)
    }
}

/// The extension an upload is stored under: at most five ASCII letters or
/// digits of the original name's extension, lowercased; `mp4` when nothing
/// is left.
pub open spec fn sanitized_extension(original: Option<Seq<char>>) -> Seq<char> {
    clean_extension(
        match original {
            Some(name) => path_extension(name),
            None => None,
        },
    )
}

/// The stored extension made from the extension a path has, if any: at
/// most five ASCII letters or digits of it, lowercased; `mp4` when nothing
/// is left.
pub open spec fn clean_extension(found: Option<Seq<char>>) -> Seq<char> {
    let extension = match found {
        Some(e) => e,
        None => "mp4"@,
    };
    let clean = lower_seq(take(alphanumerics(extension, extension.len() as int), 5));
    if clean.len() == 0 {
        "mp4"@
    } else {
        clean
    }
}

pub fn sanitize_ext(original: Option<&str>) -> (extension: String)
    ensures
        extension@ == sanitized_extension(
            match original {
                Some(name) => Some(name@),
                None => None,
            },
        ),
{
    let found = match original {
        Some(name) => extension_of(name),
        None => None,
    };
    sanitize_extension_text(
        match &found {
            Some(e) => Some(e.as_str()),
            None => None,
        },
    )
}

/// The stored extension for the extension `Path::extension` found, if any.
pub fn sanitize_extension_text(found: Option<&str>) -> (extension: String)
    ensures
        extension@ == clean_extension(
            match found {
                Some(e) => Some(e@),
                None => None,
            },
        ),
{
    let text = match found {
        Some(e) => e,
        None => "mp4",
    };
    let chars = chars_of(text);
    let mut clean: Vec<char> = Vec::new();
    let mut i: usize = 0;
    while i < chars.len()
        invariant
            0 <= i <= chars@.len(),
            clean@ == lower_seq(take(alphanumerics(chars@, i as int), 5)),
            clean@.len() <= 5,
        decreases chars.len() - i,
    {
        let ghost before = alphanumerics(chars@, i as int);
        if char_is_ascii_alphanumeric(chars[i]) && clean.len() < 5 {
            clean.push(char_to_ascii_lower(chars[i]));
        }
        proof {
            let after = alphanumerics(chars@, i + 1);
            if is_ascii_alphanumeric(chars@[i as int]) {
                assert(after == before.push(chars@[i as int]));
                if before.len() < 5 {
                    assert(take(after, 5) =~= take(before, 5).push(chars@[i as int]));
                } else {
                    assert(take(after, 5) =~= take(before, 5));
                }
            } else {
                assert(after == before);
            }
            assert(clean@ =~= lower_seq(take(after, 5)));
        }
        i = i + 1;
    }
    if clean.len() == 0 {
        "mp4".to_owned()
    } else {
        string_of(clean.as_slice())
    }
}

/// A file name of one plain component: not empty, no separator, and
/// neither `.` nor `..`. Such a name is its own final path component.
pub open spec fn is_plain_name(s: Seq<char>) -> bool {
    &&& s.len() > 0
    &&& forall|i: int| 0 <= i < s.len() ==> #[trigger] s[i] != '/' && s[i] != '\\'
    &&& s != "."@
    &&& s != ".."@
}

fn has_no_separator(s: &str) -> (none: bool)
    ensures
        none == forall|i: int| 0 <= i < s@.len() ==> #[trigger] s@[i] != '/' && s@[i] != '\\',
{
    let chars = chars_of(s);
    let mut i: usize = 0;
    while i < chars.len()
        invariant
            0 <= i <= chars@.len(),
            chars@ == s@,
            forall|k: int| 0 <= k < i ==> #[trigger] chars@[k] != '/' && chars@[k] != '\\',
        decreases chars.len() - i,
    {
        if chars[i] == '/' || chars[i] == '\\' {
            return false;
        }
        i = i + 1;
    }
    true
}

/// A cached render may only name a plain file of the outputs directory.
pub fn is_plain_filename(filename: &str) -> (plain: bool)
    ensures
        plain == is_plain_name(filename@),
{
    !filename.is_empty() && has_no_separator(filename) && !str_equal(filename, ".") && !str_equal(filename, "..")
}

/// A proxy source name: a plain name of at most 255 bytes.
pub fn safe_filename(filename: &str) -> (safe: bool)
    ensures
        safe == (is_plain_name(filename@) && byte_len(filename@) <= 255),
{
    is_plain_filename(filename) && filename.len() <= 255
}

/// A SHA-256 digest in canonical form: 64 lowercase hexadecimal digits.
pub fn is_sha256(value: &str) -> (canonical: bool)
    ensures
        canonical == is_fingerprint_text(value@),
{
    let chars = chars_of(value);
    if chars.len() != 64 {
        return false;
    }
    let mut i: usize = 0;
    while i < chars.len()
        invariant
            0 <= i <= chars@.len(),
            chars@ == value@,
            chars@.len() == 64,
            forall|k: int| 0 <= k < i ==> crate::fingerprint::is_lower_hex_digit(#[trigger] chars@[k]),
        decreases chars.len() - i,
    {
        let c = chars[i];
        if !(('0' <= c && c <= '9') || ('a' <= c && c <= 'f')) {
            return false;
        }
        i = i + 1;
    }
    true
}

pub const ARCHIVE_EXTENSION: &'static str = "veproj";

/// The longest stem a download name keeps.
pub const MAX_ARCHIVE_STEM: usize = 64;

pub open spec fn is_stem_char(c: char) -> bool {
    is_ascii_alphanumeric(c) || c == '-' || c == '_'
}

/// The stem built from the first `n` characters of a project name, and
/// whether it ends in a separator: kept characters lowercased, each run of
/// other characters (after the first kept one) turned into one `-`, and
/// nothing added once the stem reaches 64 characters.
pub open spec fn stem_upto(name: Seq<char>, n: int) -> (Seq<char>, bool)
    decreases n,
{
    if n <= 0 || n > name.len() {
        (Seq::empty(), false)
    } else {
        let (stem, separator) = stem_upto(name, n - 1);
        let c = name[n - 1];
        if stem.len() >= MAX_ARCHIVE_STEM {
            (stem, separator)
        } else if is_stem_char(c) {
            (stem.push(to_ascii_lower(c)), false)
        } else if !separator && stem.len() > 0 {
            (stem.push('-'), true)
        } else {
            (stem, separator)
        }
    }
}

pub open spec fn trim_trailing_dashes(s: Seq<char>) -> Seq<char>
    decreases s.len(),
{
    if s.len() > 0 && s.last() == '-' {
        trim_trailing_dashes(s.drop_last())
    } else {
        s
    }
}

/// The download name of a project archive: an ASCII stem of at most 64
/// characters (`composition-project` when nothing usable is left) and the
/// archive extension.
pub open spec fn archive_name(project_name: Seq<char>) -> Seq<char> {
    let stem = trim_trailing_dashes(stem_upto(project_name, project_name.len() as int).0);
    (if stem.len() == 0 { "composition-project"@ } else { stem }) + "."@ + ARCHIVE_EXTENSION@
}

proof fn lemma_stem_bounded(name: Seq<char>, n: int)
    ensures
        stem_upto(name, n).0.len() <= MAX_ARCHIVE_STEM,
    decreases n,
{
    if n > 0 && n <= name.len() {
        lemma_stem_bounded(name, n - 1);
    }
}

pub fn archive_download_filename(project_name: &str) -> (filename: String)
    ensures
        filename@ == archive_name(project_name@),
{
    let chars = chars_of(project_name);
    let mut stem: Vec<char> = Vec::new();
    let mut separator = false;
    let mut i: usize = 0;
    while i < chars.len()
        invariant
            0 <= i <= chars@.len(),
            chars@ == project_name@,
            (stem@, separator) == stem_upto(chars@, i as int),
        decreases chars.len() - i,
    {
        proof {
            lemma_stem_bounded(chars@, i as int);
        }
        if stem.len() < MAX_ARCHIVE_STEM {
            let c = chars[i];
            if char_is_ascii_alphanumeric(c) || c == '-' || c == '_' {
                stem.push(char_to_ascii_lower(c));
                separator = false;
            } else if !separator && stem.len() > 0 {
                stem.push('-');
                separator = true;
            }
        }
        i = i + 1;
    }
    while stem.len() > 0 && stem[stem.len() - 1] == '-'
        invariant
            trim_trailing_dashes(stem@) == trim_trailing_dashes(stem_upto(chars@, chars@.len() as int).0),
        decreases stem.len(),
    {
        let ghost before = stem@;
        stem.pop();
        assert(stem@ =~= before.drop_last());
    }
    let mut name: Vec<char> = Vec::new();
    if stem.len() == 0 {
        push_str(&mut name, "composition-project");
    } else {
        name = stem;
    }
    push_str(&mut name, ".");
    push_str(&mut name, ARCHIVE_EXTENSION);
    string_of(name.as_slice())
}

/// The title shown for an upload: the original name's stem, else the name.
pub fn display_title(original: &str) -> (title: String)
    ensures
        title@ == (match path_file_stem(original@) {
            Some(stem) => stem,
            None => original@,
        }),
{
    match file_stem_of(original) {
        Some(stem) => stem,
        None => original.to_owned(),
    }
}

/// `s[i..j]` is one field of the comma-separated list `s`.
pub open spec fn is_field(s: Seq<char>, i: int, j: int) -> bool {
    &&& 0 <= i <= j <= s.len()
    &&& (i == 0 || s[i - 1] == ',')
    &&& (j == s.len() || s[j] == ',')
    &&& forall|k: int| i <= k < j ==> #[trigger] s[k] != ','
}

/// The comma-separated list `s` has a field equal to `f`.
pub open spec fn has_field(s: Seq<char>, f: Seq<char>) -> bool {
    exists|i: int, j: int| is_field(s, i, j) && #[trigger] s.subrange(i, j) == f
}

fn list_has(chars: &Vec<char>, expected: &str) -> (found: bool)
    ensures
        found == has_field(chars@, expected@),
{
    let wanted = chars_of(expected);
    let mut start: usize = 0;
    let mut k: usize = 0;
    while k <= chars.len()
        invariant
            0 <= start <= k <= chars@.len() + 1,
            start <= chars@.len(),
            wanted@ == expected@,
            start == 0 || chars@[start - 1] == ',',
            forall|x: int| start <= x < k && x < chars@.len() ==> #[trigger] chars@[x] != ',',
            forall|i: int, j: int| is_field(chars@, i, j) && j < k && #[trigger] chars@.subrange(i, j) == expected@ ==> false,
        decreases chars.len() + 1 - k,
    {
        if k == chars.len() || chars[k] == ',' {
            let mut same = k - start == wanted.len();
            let mut x: usize = 0;
            while same && x < wanted.len()
                invariant
                    0 <= x <= wanted@.len(),
                    start <= k <= chars@.len(),
                    same ==> k - start == wanted@.len(),
                    same ==> forall|y: int| 0 <= y < x ==> chars@[start + y] == wanted@[y],
                    !same ==> chars@.subrange(start as int, k as int) != wanted@,
                decreases wanted.len() - x,
            {
                if chars[start + x] != wanted[x] {
                    same = false;
                    assert(chars@.subrange(start as int, k as int)[x as int] != wanted@[x as int]);
                }
                x = x + 1;
            }
            if same {
                assert(chars@.subrange(start as int, k as int) =~= wanted@);
                assert(is_field(chars@, start as int, k as int));
                return true;
            }
            if k == chars.len() {
                assert forall|i: int, j: int| is_field(chars@, i, j) && #[trigger] chars@.subrange(i, j) == expected@ implies false by {
                    if j == k {
                        if i < start {
                            assert(chars@[start - 1] != ',');
                        } else if i > start {
                            assert(chars@[i - 1] != ',');
                        }
                    }
                }
                return false;
            }
            assert forall|i: int, j: int| is_field(chars@, i, j) && j < k + 1 && #[trigger] chars@.subrange(i, j) == expected@ implies false by {
                if j == k {
                    if i < start {
                        assert(chars@[start - 1] != ',');
                    } else if i > start {
                        assert(chars@[i - 1] != ',');
                    }
                }
            }
            start = k + 1;
        } else {
            assert forall|i: int, j: int| is_field(chars@, i, j) && j < k + 1 && #[trigger] chars@.subrange(i, j) == expected@ implies false by {
                if j == k {
                    assert(chars@[j] != ',');
                }
            }
        }
        k = k + 1;
    }
    false
}

pub open spec fn is_one_of(value: Option<Seq<char>>, options: Seq<Seq<char>>) -> bool {
    value matches Some(v) && options.contains(v)
}

/// The extension an upload keeps, from the container formats the probe
/// reported (a comma-separated list) and, for Matroska and Ogg, the streams.
pub open spec fn upload_extension(format_name: Option<Seq<char>>, vcodec: Option<Seq<char>>, acodec: Option<Seq<char>>, width: u32) -> Option<Seq<char>> {
    let formats = match format_name {
        Some(f) => f,
        None => Seq::empty(),
    };
    let has = |f: Seq<char>| has_field(formats, f);
    if has("mov"@) || has("mp4"@) || has("m4a"@) || has("3gp"@) || has("3g2"@) || has("mj2"@) {
        Some("mp4"@)
    } else if has("matroska"@) || has("webm"@) {
        let webm_video = is_one_of(vcodec, seq!["vp8"@, "vp9"@, "av1"@]);
        let webm_audio = acodec is None || is_one_of(acodec, seq!["opus"@, "vorbis"@]);
        Some(if webm_video && webm_audio { "webm"@ } else { "mkv"@ })
    } else if has("avi"@) {
        Some("avi"@)
    } else if has("flv"@) {
        Some("flv"@)
    } else if has("mpegts"@) {
        Some("ts"@)
    } else if has("mpeg"@) {
        Some("mpg"@)
    } else if has("ogg"@) {
        Some(if width > 0 { "ogv"@ } else { "ogg"@ })
    } else if has("gif"@) {
        Some("gif"@)
    } else if has("mp3"@) {
        Some("mp3"@)
    } else if has("wav"@) {
        Some("wav"@)
    } else if has("flac"@) {
        Some("flac"@)
    } else {
        None
    }
}

pub open spec fn text_views(texts: Seq<&str>) -> Seq<Seq<char>> {
    texts.map_values(|o: &str| o@)
}

fn names_one_of(value: Option<&str>, options: &[&str]) -> (found: bool)
    ensures
        found == (value matches Some(v) && text_views(options@).contains(v@)),
{
    match value {
        None => false,
        Some(v) => {
            let mut i: usize = 0;
            while i < options.len()
                invariant
                    0 <= i <= options@.len(),
                    value == Some(v),
                    forall|k: int| 0 <= k < i ==> (#[trigger] options@[k])@ != v@,
                decreases options.len() - i,
            {
                if str_equal(v, options[i]) {
                    assert(text_views(options@)[i as int] == v@);
                    return true;
                }
                i = i + 1;
            }
            assert(!text_views(options@).contains(v@)) by {
                if text_views(options@).contains(v@) {
                    let k = choose|k: int| 0 <= k < options@.len() && #[trigger] text_views(options@)[k] == v@;
                    assert(options@[k]@ != v@);
                }
            }
            false
        },
    }
}

/// The stored extension of an upload, from what the probe reported.
pub fn safe_upload_extension(format_name: Option<&str>, vcodec: Option<&str>, acodec: Option<&str>, width: u32) -> (extension: Option<&'static str>)
    ensures
        (match extension {
            Some(e) => Some(e@),
            None => None,
        }) == upload_extension(
            match format_name {
                Some(f) => Some(f@),
                None => None,
            },
            match vcodec {
                Some(v) => Some(v@),
                None => None,
            },
            match acodec {
                Some(a) => Some(a@),
                None => None,
            },
            width,
        ),
{
    let formats = match format_name {
        Some(f) => chars_of(f),
        None => Vec::new(),
    };
    if list_has(&formats, "mov") || list_has(&formats, "mp4") || list_has(&formats, "m4a") || list_has(&formats, "3gp")
        || list_has(&formats, "3g2") || list_has(&formats, "mj2") {
        Some("mp4")
    } else if list_has(&formats, "matroska") || list_has(&formats, "webm") {
        let video_options = ["vp8", "vp9", "av1"];
        let audio_options = ["opus", "vorbis"];
        assert(text_views(video_options@) =~= seq!["vp8"@, "vp9"@, "av1"@]);
        assert(text_views(audio_options@) =~= seq!["opus"@, "vorbis"@]);
        let webm_video = names_one_of(vcodec, &video_options);
        let webm_audio = acodec.is_none() || names_one_of(acodec, &audio_options);
        assert(webm_video == is_one_of(
            match vcodec {
                Some(v) => Some(v@),
                None => None,
            },
            seq!["vp8"@, "vp9"@, "av1"@],
        ));
        Some(if webm_video && webm_audio { "webm" } else { "mkv" })
    } else if list_has(&formats, "avi") {
        Some("avi")
    } else if list_has(&formats, "flv") {
        Some("flv")
    } else if list_has(&formats, "mpegts") {
        Some("ts")
    } else if list_has(&formats, "mpeg") {
        Some("mpg")
    } else if list_has(&formats, "ogg") {
        Some(if width > 0 { "ogv" } else { "ogg" })
    } else if list_has(&formats, "gif") {
        Some("gif")
    } else if list_has(&formats, "mp3") {
        Some("mp3")
    } else if list_has(&formats, "wav") {
        Some("wav")
    } else if list_has(&formats, "flac") {
        Some("flac")
    } else {
        None
    }
}

/// The message shown for an OAuth provider error: two known codes get their
/// own text, every other value a generic one, so provider text never reaches
/// the page.
pub open spec fn provider_message(value: Seq<char>) -> Seq<char> {
    if value == "access_denied"@ {
        "доступ не предоставлен"@
    } else if value == "temporarily_unavailable"@ {
        "сервис временно недоступен"@
    } else {
        "ошибка авторизации"@
    }
}

pub fn safe_provider_error(value: &str) -> (message: &'static str)
    ensures
        message@ == provider_message(value@),
{
    if str_equal(value, "access_denied") {
        "доступ не предоставлен"
    } else if str_equal(value, "temporarily_unavailable") {
        "сервис временно недоступен"
    } else {
        "ошибка авторизации"
    }
}

#[derive(Debug, Clone, Copy, PartialEq, Eq, Structural)]
pub enum ErrorKind {
    Timeout,
    Validation,
    Storage,
    ProcessExit,
    Security,
    Internal,
}

/// `t` occurs in `s`.
pub open spec fn has_substring(s: Seq<char>, t: Seq<char>) -> bool {
    exists|i: int| 0 <= i && i + t.len() <= s.len() && #[trigger] s.subrange(i, i + t.len()) == t
}

fn contains_text(haystack: &Vec<char>, needle: &str) -> (found: bool)
    ensures
        found == has_substring(haystack@, needle@),
{
    let wanted = chars_of(needle);
    if wanted.len() > haystack.len() {
        return false;
    }
    let last = haystack.len() - wanted.len();
    let mut i: usize = 0;
    while i <= last
        invariant
            0 <= i <= last + 1,
            last + wanted@.len() == haystack@.len(),
            wanted@ == needle@,
            forall|k: int| 0 <= k < i ==> #[trigger] haystack@.subrange(k, k + wanted@.len()) != needle@,
        decreases last + 1 - i,
    {
        let mut j: usize = 0;
        let mut same = true;
        while same && j < wanted.len()
            invariant
                0 <= j <= wanted@.len(),
                i <= last,
                last + wanted@.len() == haystack@.len(),
                same ==> forall|y: int| 0 <= y < j ==> haystack@[i + y] == wanted@[y],
                !same ==> haystack@.subrange(i as int, i + wanted@.len()) != wanted@,
            decreases wanted.len() - j,
        {
            assert(i + j < haystack@.len());
            assert(haystack@.len() == haystack.len());
            if haystack[i + j] != wanted[j] {
                same = false;
                assert(haystack@.subrange(i as int, i + wanted@.len())[j as int] != wanted@[j as int]);
            }
            j = j + 1;
        }
        if same {
            assert(haystack@.subrange(i as int, i + wanted@.len()) =~= wanted@);
            return true;
        }
        if i == last {
            assert forall|k: int| 0 <= k && k + needle@.len() <= haystack@.len() implies #[trigger] haystack@.subrange(k, k + needle@.len()) != needle@ by {
                assert(k <= i);
            }
            return false;
        }
        i = i + 1;
    }
    false
}

/// How a failed job is reported, from its error message lowercased.
pub open spec fn job_error_kind(message: Seq<char>) -> ErrorKind {
    lowered_error_kind(unicode_lowercase(message))
}

/// How a failed job is reported, from its lowercased error message:
/// timeouts, then validation, then storage, then process exits.
pub open spec fn lowered_error_kind(m: Seq<char>) -> ErrorKind {
    if has_substring(m, "timeout"@) || has_substring(m, "deadline"@) || has_substring(m, "таймаут"@) {
        ErrorKind::Timeout
    } else if has_substring(m, "недопуст"@) || has_substring(m, "invalid"@) || has_substring(m, "outside duration"@)
        || (has_substring(m, "source"@) && has_substring(m, "not found"@)) {
        ErrorKind::Validation
    } else if has_substring(m, "not found"@) || has_substring(m, "no such file"@) || has_substring(m, "metadata"@) {
        ErrorKind::Storage
    } else if has_substring(m, "ffmpeg"@) || has_substring(m, "yt-dlp"@) || has_substring(m, "exit status"@) {
        ErrorKind::ProcessExit
    } else {
        ErrorKind::Internal
    }
}

pub fn classify_job_error(message: &str) -> (kind: ErrorKind)
    ensures
        kind == job_error_kind(message@),
{
    let lower = lowercase(message);
    classify_lowered_message(lower.as_str())
}

/// The report kind of an error message that is already lowercased.
pub fn classify_lowered_message(lowered: &str) -> (kind: ErrorKind)
    ensures
        kind == lowered_error_kind(lowered@),
{
    let m = chars_of(lowered);
    if contains_text(&m, "timeout") || contains_text(&m, "deadline") || contains_text(&m, "таймаут") {
        ErrorKind::Timeout
    } else if contains_text(&m, "недопуст") || contains_text(&m, "invalid") || contains_text(&m, "outside duration")
        || (contains_text(&m, "source") && contains_text(&m, "not found")) {
        ErrorKind::Validation
    } else if contains_text(&m, "not found") || contains_text(&m, "no such file") || contains_text(&m, "metadata") {
        ErrorKind::Storage
    } else if contains_text(&m, "ffmpeg") || contains_text(&m, "yt-dlp") || contains_text(&m, "exit status") {
        ErrorKind::ProcessExit
    } else {
        ErrorKind::Internal
    }
}

pub const RENDER_CACHE_PIPELINE_VERSION: &'static str = "render-cache-v3-ordered-segments-color-pipeline-v2";

pub const LEGACY_RENDER_CACHE_PIPELINE_VERSION: &'static str = "render-cache-v2-color-pipeline-v2";

pub open spec fn utf8(s: Seq<char>) -> Seq<u8> {
    vstd::utf8::encode_utf8(s)
}

/// The bytes a render is identified by: pipeline version, runtime
/// fingerprint (`missing` when unknown), LUT digest (`no-lut` when none) and
/// the canonical request, each followed by a zero byte but the last.
pub open spec fn cache_key_bytes(pipeline: Seq<char>, runtime: Option<Seq<char>>, lut: Option<Seq<char>>, canonical: Seq<char>) -> Seq<u8> {
    utf8(pipeline) + seq![0u8] + utf8(
        match runtime {
            Some(r) => r,
            None => "missing"@,
        },
    ) + seq![0u8] + utf8(
        match lut {
            Some(l) => l,
            None => "no-lut"@,
        },
    ) + seq![0u8] + utf8(canonical)
}

fn push_bytes(out: &mut Vec<u8>, s: &str)
    ensures
        final(out)@ == old(out)@ + utf8(s@),
{
    let bytes = s.as_bytes();
    let mut i: usize = 0;
    while i < bytes.len()
        invariant
            0 <= i <= bytes@.len(),
            bytes@ == utf8(s@),
            out@ == old(out)@ + bytes@.subrange(0, i as int),
        decreases bytes.len() - i,
    {
        out.push(bytes[i]);
        assert(bytes@.subrange(0, i + 1) =~= bytes@.subrange(0, i as int).push(bytes@[i as int]));
        i = i + 1;
    }
    assert(bytes@.subrange(0, bytes@.len() as int) =~= bytes@);
}

fn digest_text(bytes: &Vec<u8>) -> (text: String)
    ensures
        text@ == hex_lower(sha256(bytes@)),
{
    let digest = sha256_digest(bytes.as_slice());
    hex_string(&digest)
}

/// The render-cache key of a canonical request under a pipeline version, a
/// runtime fingerprint and a LUT digest.
pub fn render_cache_key_with_pipeline(pipeline_version: &str, canonical_request: &str, runtime_fingerprint: Option<&str>, lut_sha256: Option<&str>) -> (key: String)
    ensures
        key@ == hex_lower(
            sha256(
                cache_key_bytes(
                    pipeline_version@,
                    match runtime_fingerprint {
                        Some(r) => Some(r@),
                        None => None,
                    },
                    match lut_sha256 {
                        Some(l) => Some(l@),
                        None => None,
                    },
                    canonical_request@,
                ),
            ),
        ),
{
    let mut bytes: Vec<u8> = Vec::new();
    push_bytes(&mut bytes, pipeline_version);
    bytes.push(0);
    push_bytes(
        &mut bytes,
        match runtime_fingerprint {
            Some(r) => r,
            None => "missing",
        },
    );
    bytes.push(0);
    push_bytes(
        &mut bytes,
        match lut_sha256 {
            Some(l) => l,
            None => "no-lut",
        },
    );
    bytes.push(0);
    push_bytes(&mut bytes, canonical_request);
    assert(bytes@ =~= cache_key_bytes(
        pipeline_version@,
        match runtime_fingerprint {
            Some(r) => Some(r@),
            None => None,
        },
        match lut_sha256 {
            Some(l) => Some(l@),
            None => None,
        },
        canonical_request@,
    ));
    digest_text(&bytes)
}

/// The render-cache key of a canonical request under the current pipeline,
/// a runtime fingerprint and a LUT digest.
pub fn render_cache_key_with_context(canonical_request: &str, runtime_fingerprint: Option<&str>, lut_sha256: Option<&str>) -> (key: String)
    ensures
        key@ == hex_lower(
            sha256(
                cache_key_bytes(
                    RENDER_CACHE_PIPELINE_VERSION@,
                    match runtime_fingerprint {
                        Some(r) => Some(r@),
                        None => None,
                    },
                    match lut_sha256 {
                        Some(l) => Some(l@),
                        None => None,
                    },
                    canonical_request@,
                ),
            ),
        ),
{
    render_cache_key_with_pipeline(RENDER_CACHE_PIPELINE_VERSION, canonical_request, runtime_fingerprint, lut_sha256)
}

/// The render-cache key of a canonical request (its JSON text) with no
/// runtime fingerprint and no LUT.
pub fn render_cache_key(canonical_request: &str) -> (key: String)
    ensures
        key@ == hex_lower(sha256(cache_key_bytes(RENDER_CACHE_PIPELINE_VERSION@, None, None, canonical_request@))),
{
    render_cache_key_with_context(canonical_request, None, None)
}

pub open spec fn string_views(values: Seq<String>) -> Seq<Seq<char>> {
    values.map_values(|v: String| v@)
}

/// No text comes before an earlier one in byte order.
pub open spec fn texts_sorted(s: Seq<Seq<char>>) -> bool {
    forall|i: int, j: int| 0 <= i < j < s.len() ==> !seq_lt(#[trigger] s[j], #[trigger] s[i])
}

/// `out` is `input` sorted: the same texts, each as often, in byte order.
pub open spec fn sorted_arrangement(out: Seq<Seq<char>>, input: Seq<Seq<char>>) -> bool {
    texts_sorted(out) && out.to_multiset() == input.to_multiset()
}

/// Sort texts in byte order, equal ones kept in their given order.
pub fn sort_texts(values: &[String]) -> (sorted: Vec<String>)
    ensures
        sorted_arrangement(string_views(sorted@), string_views(values@)),
{
    broadcast use vstd::seq_lib::group_to_multiset_ensures;

    let mut out: Vec<String> = Vec::new();
    let mut i: usize = 0;
    assert(string_views(values@.subrange(0, 0)) =~= Seq::<Seq<char>>::empty());
    while i < values.len()
        invariant
            0 <= i <= values@.len(),
            texts_sorted(string_views(out@)),
            string_views(out@).to_multiset() == string_views(values@.subrange(0, i as int)).to_multiset(),
        decreases values.len() - i,
    {
        let x = values[i].clone();
        let ghost before = string_views(out@);
        let mut p: usize = 0;
        while p < out.len() && !str_less(x.as_str(), out[p].as_str())
            invariant
                0 <= p <= out@.len(),
                before == string_views(out@),
                forall|q: int| 0 <= q < p ==> !seq_lt(x@, #[trigger] before[q]),
            decreases out.len() - p,
        {
            p = p + 1;
        }
        proof {
            if p < before.len() {
                assert(seq_lt(x@, before[p as int]));
            }
        }
        out.insert(p, x);
        proof {
            let after = string_views(out@);
            assert(after =~= before.insert(p as int, x@));
            assert forall|a: int, b: int| 0 <= a < b < after.len() implies !seq_lt(#[trigger] after[b], #[trigger] after[a]) by {
                if a < p && b == p {
                } else if a == p && b > p {
                    let y = before[b - 1];
                    lemma_seq_lt_trichotomy(before[p as int], y);
                    if b - 1 > p {
                        assert(!seq_lt(y, before[p as int]));
                    }
                    if seq_lt(y, x@) {
                        if y == before[p as int] {
                            lemma_seq_lt_trichotomy(x@, y);
                        } else {
                            lemma_seq_lt_transitive(x@, before[p as int], y);
                            lemma_seq_lt_trichotomy(x@, y);
                        }
                    }
                } else if a < p && b > p {
                    assert(!seq_lt(before[b - 1], before[a]));
                } else if a > p {
                    assert(!seq_lt(before[b - 1], before[a - 1]));
                } else {
                    assert(!seq_lt(before[b], before[a]));
                }
            }
            vstd::seq_lib::to_multiset_insert(before, p as int, x@);
            let prefix = string_views(values@.subrange(0, i as int));
            assert(string_views(values@.subrange(0, i + 1)) =~= prefix.push(values@[i as int]@));
            vstd::seq_lib::to_multiset_build(prefix, values@[i as int]@);
            assert(x@ == values@[i as int]@);
            assert(after.to_multiset() == before.to_multiset().insert(x@));
        }
        i = i + 1;
    }
    assert(values@.subrange(0, values@.len() as int) =~= values@);
    out
}

/// Each text followed by a zero byte, in order.
pub open spec fn entries_bytes(texts: Seq<Seq<char>>) -> Seq<u8>
    decreases texts.len(),
{
    if texts.len() == 0 {
        Seq::empty()
    } else {
        entries_bytes(texts.drop_last()) + utf8(texts.last()) + seq![0u8]
    }
}

/// The bytes a runtime is identified by: the FFmpeg version (`missing` when
/// unknown), then each list of encoders, muxers and filters in byte order,
/// a zero byte before each list and after each entry.
pub open spec fn runtime_bytes(version: Option<Seq<char>>, encoders: Seq<Seq<char>>, muxers: Seq<Seq<char>>, filters: Seq<Seq<char>>) -> Seq<u8> {
    utf8(
        match version {
            Some(v) => v,
            None => "missing"@,
        },
    ) + seq![0u8] + entries_bytes(encoders) + seq![0u8] + entries_bytes(muxers) + seq![0u8] + entries_bytes(filters)
}

fn push_entries(out: &mut Vec<u8>, texts: &Vec<String>)
    ensures
        final(out)@ == old(out)@ + entries_bytes(string_views(texts@)),
{
    let mut i: usize = 0;
    while i < texts.len()
        invariant
            0 <= i <= texts@.len(),
            out@ == old(out)@ + entries_bytes(string_views(texts@.subrange(0, i as int))),
        decreases texts.len() - i,
    {
        let ghost before = out@;
        push_bytes(out, texts[i].as_str());
        out.push(0);
        proof {
            let prefix = string_views(texts@.subrange(0, i + 1));
            assert(prefix.drop_last() =~= string_views(texts@.subrange(0, i as int)));
            assert(prefix.last() == texts@[i as int]@);
            assert(out@ =~= old(out)@ + entries_bytes(prefix));
        }
        i = i + 1;
    }
    assert(texts@.subrange(0, texts@.len() as int) =~= texts@);
}

/// The fingerprint of the media runtime a render ran with.
pub fn render_runtime_fingerprint(version: Option<&str>, encoders: &[String], muxers: &[String], filters: &[String]) -> (fingerprint: String)
    ensures
        exists|e: Seq<Seq<char>>, m: Seq<Seq<char>>, f: Seq<Seq<char>>|
            sorted_arrangement(e, string_views(encoders@)) && sorted_arrangement(m, string_views(muxers@))
                && sorted_arrangement(f, string_views(filters@)) && fingerprint@ == hex_lower(
                sha256(
                    runtime_bytes(
                        match version {
                            Some(v) => Some(v@),
                            None => None,
                        },
                        e,
                        m,
                        f,
                    ),
                ),
            ),
{
    let encoders = sort_texts(encoders);
    let muxers = sort_texts(muxers);
    let filters = sort_texts(filters);
    let mut bytes: Vec<u8> = Vec::new();
    push_bytes(
        &mut bytes,
        match version {
            Some(v) => v,
            None => "missing",
        },
    );
    bytes.push(0);
    push_entries(&mut bytes, &encoders);
    bytes.push(0);
    push_entries(&mut bytes, &muxers);
    bytes.push(0);
    push_entries(&mut bytes, &filters);
    let ghost v = match version {
        Some(v) => Some(v@),
        None => None,
    };
    assert(bytes@ =~= runtime_bytes(v, string_views(encoders@), string_views(muxers@), string_views(filters@)));
    digest_text(&bytes)
}

/// The render-cache key of a canonical request on a known runtime.
pub fn render_cache_key_for_tools(canonical_request: &str, version: Option<&str>, encoders: &[String], muxers: &[String], filters: &[String]) -> (key: String)
    ensures
        exists|runtime: Seq<char>|
            key@ == hex_lower(sha256(cache_key_bytes(RENDER_CACHE_PIPELINE_VERSION@, Some(runtime), None, canonical_request@)))
                && exists|e: Seq<Seq<char>>, m: Seq<Seq<char>>, f: Seq<Seq<char>>|
                sorted_arrangement(e, string_views(encoders@)) && sorted_arrangement(m, string_views(muxers@))
                    && sorted_arrangement(f, string_views(filters@)) && runtime == hex_lower(
                    sha256(
                        runtime_bytes(
                            match version {
                                Some(v) => Some(v@),
                                None => None,
                            },
                            e,
                            m,
                            f,
                        ),
                    ),
                ),
{
    let runtime = render_runtime_fingerprint(version, encoders, muxers, filters);
    render_cache_key_with_context(canonical_request, Some(runtime.as_str()), None)
}

/// The comma-separated pieces of a text, as `str::split(',')` gives them:
/// one more piece than there are commas.
pub open spec fn comma_pieces(s: Seq<char>) -> Seq<Seq<char>>
    decreases s.len(),
{
    if s.len() == 0 {
        seq![Seq::empty()]
    } else {
        let pieces = comma_pieces(s.drop_last());
        if s.last() == ',' {
            pieces.push(Seq::empty())
        } else {
            pieces.update(pieces.len() - 1, pieces.last().push(s.last()))
        }
    }
}

/// A listed entity tag that matches `etag`: `*`, or `etag` itself, once
/// trimmed.
pub open spec fn etag_piece_matches(piece: Seq<char>, etag: Seq<char>) -> bool {
    trimmed(piece) == "*"@ || trimmed(piece) == etag
}

/// Whether `chars[lo..hi]` spells `text`.
fn range_spells(chars: &[char], lo: usize, hi: usize, text: &str) -> (same: bool)
    requires
        lo <= hi <= chars@.len(),
    ensures
        same == (chars@.subrange(lo as int, hi as int) == text@),
{
    let wanted = chars_of(text);
    if hi - lo != wanted.len() {
        return false;
    }
    let mut k: usize = 0;
    while k < wanted.len()
        invariant
            lo <= hi <= chars@.len(),
            hi - lo == wanted@.len(),
            wanted@ == text@,
            0 <= k <= wanted@.len(),
            forall|a: int| 0 <= a < k ==> chars@[lo + a] == wanted@[a],
        decreases wanted.len() - k,
    {
        if chars[lo + k] != wanted[k] {
            assert(chars@.subrange(lo as int, hi as int)[k as int] != text@[k as int]);
            return false;
        }
        k = k + 1;
    }
    assert(chars@.subrange(lo as int, hi as int) =~= text@);
    true
}

/// Whether the trimmed `chars[lo..hi]` is `*` or `etag`.
fn etag_piece_ok(chars: &[char], lo: usize, hi: usize, etag: &str) -> (ok: bool)
    requires
        lo <= hi <= chars@.len(),
    ensures
        ok == etag_piece_matches(chars@.subrange(lo as int, hi as int), etag@),
{
    let bounds = trim_range(chars, lo, hi);
    range_spells(chars, bounds.0, bounds.1, "*") || range_spells(chars, bounds.0, bounds.1, etag)
}

/// Whether an `If-None-Match` value lists `etag` (or `*`) among its
/// comma-separated entries. No readable header value matches nothing.
pub fn etag_matches(value: Option<&str>, etag: &str) -> (matches: bool)
    ensures
        matches == match value {
            Some(v) => exists|j: int|
                0 <= j < comma_pieces(v@).len() && etag_piece_matches(#[trigger] comma_pieces(v@)[j], etag@),
            None => false,
        },
{
    let value = match value {
        Some(v) => v,
        None => {
            return false;
        },
    };
    let chars = chars_of(value);
    let n = chars.len();
    let mut found = false;
    let mut start: usize = 0;
    let mut i: usize = 0;
    proof {
        assert(chars@.subrange(0, 0) =~= Seq::<char>::empty());
    }
    while i < n
        invariant
            0 <= start <= i <= n,
            n == chars@.len(),
            chars@ == value@,
            comma_pieces(chars@.subrange(0, i as int)).len() >= 1,
            comma_pieces(chars@.subrange(0, i as int)).last() == chars@.subrange(start as int, i as int),
            found == exists|j: int|
                0 <= j < comma_pieces(chars@.subrange(0, i as int)).len() - 1 && etag_piece_matches(
                    #[trigger] comma_pieces(chars@.subrange(0, i as int))[j],
                    etag@,
                ),
        decreases n - i,
    {
        let ghost before = comma_pieces(chars@.subrange(0, i as int));
        let ghost next = chars@.subrange(0, i + 1);
        let ghost old_found = found;
        proof {
            assert(next.drop_last() =~= chars@.subrange(0, i as int));
            assert(next.last() == chars@[i as int]);
        }
        if chars[i] == ',' {
            let piece_ok = etag_piece_ok(chars.as_slice(), start, i, etag);
            found = found || piece_ok;
            proof {
                let after = comma_pieces(next);
                assert(after == before.push(Seq::empty()));
                assert(after[before.len() - 1] == before.last());
                if piece_ok {
                    assert(etag_piece_matches(after[before.len() - 1], etag@));
                }
                if old_found {
                    let j = choose|j: int|
                        0 <= j < before.len() - 1 && etag_piece_matches(#[trigger] before[j], etag@);
                    assert(after[j] == before[j]);
                }
                if exists|j: int| 0 <= j < after.len() - 1 && etag_piece_matches(#[trigger] after[j], etag@) {
                    let j = choose|j: int| 0 <= j < after.len() - 1 && etag_piece_matches(#[trigger] after[j], etag@);
                    if j < before.len() - 1 {
                        assert(after[j] == before[j]);
                    }
                }
            }
            start = i + 1;
            proof {
                assert(chars@.subrange(start as int, i + 1) =~= Seq::<char>::empty());
            }
        } else {
            proof {
                let after = comma_pieces(next);
                assert(after == before.update(before.len() - 1, before.last().push(chars@[i as int])));
                if old_found {
                    let j = choose|j: int|
                        0 <= j < before.len() - 1 && etag_piece_matches(#[trigger] before[j], etag@);
                    assert(after[j] == before[j]);
                }
                if exists|j: int| 0 <= j < after.len() - 1 && etag_piece_matches(#[trigger] after[j], etag@) {
                    let j = choose|j: int| 0 <= j < after.len() - 1 && etag_piece_matches(#[trigger] after[j], etag@);
                    assert(after[j] == before[j]);
                }
                assert(chars@.subrange(start as int, i + 1) =~= before.last().push(chars@[i as int]));
            }
        }
        i = i + 1;
    }
    let last_ok = etag_piece_ok(chars.as_slice(), start, n, etag);
    proof {
        assert(chars@.subrange(0, n as int) =~= chars@);
        let pieces = comma_pieces(chars@);
        if last_ok {
            assert(etag_piece_matches(pieces[pieces.len() - 1], etag@));
        }
        if exists|j: int| 0 <= j < pieces.len() && etag_piece_matches(#[trigger] pieces[j], etag@) {
            let j = choose|j: int| 0 <= j < pieces.len() && etag_piece_matches(#[trigger] pieces[j], etag@);
            if j < pieces.len() - 1 {
                assert(found);
            }
        }
    }
    found || last_ok
}

pub open spec fn is_image_extension(e: Seq<char>) -> bool {
    e == "png"@ || e == "jpg"@ || e == "jpeg"@ || e == "gif"@ || e == "webp"@
}

pub open spec fn is_audio_extension(e: Seq<char>) -> bool {
    e == "aac"@ || e == "flac"@ || e == "m4a"@ || e == "mp3"@ || e == "ogg"@ || e == "opus"@ || e == "wav"@
}

pub open spec fn is_video_extension(e: Seq<char>) -> bool {
    ||| e == "avi"@
    ||| e == "flv"@
    ||| e == "m4v"@
    ||| e == "mkv"@
    ||| e == "mov"@
    ||| e == "mp4"@
    ||| e == "mpg"@
    ||| e == "ogv"@
    ||| e == "ts"@
    ||| e == "webm"@
}

/// The media type an archived library entry is listed under, judged from a
/// file extension (compared without case) and the entry's frame size.
pub open spec fn media_type_for_extension(extension: Seq<char>, width: Option<u32>, height: Option<u32>) -> Option<Seq<char>> {
    let e = lower_seq(extension);
    if is_image_extension(e) {
        Some("image"@)
    } else if is_audio_extension(e) {
        Some("audio"@)
    } else if is_video_extension(e) || (width.unwrap_or(0) > 0 && height.unwrap_or(0) > 0) {
        Some("video"@)
    } else {
        None
    }
}

/// The media type an archived library entry is listed under: its own when
/// it is `video`, `audio` or `image`; else judged from its file name's
/// extension and frame size; none when the name has no extension.
pub open spec fn archived_media_type(
    media_type: Option<Seq<char>>,
    filename: Seq<char>,
    width: Option<u32>,
    height: Option<u32>,
) -> Option<Seq<char>> {
    if media_type matches Some(t) && (t == "video"@ || t == "audio"@ || t == "image"@) {
        media_type
    } else {
        match path_extension(filename) {
            Some(e) => media_type_for_extension(e, width, height),
            None => None,
        }
    }
}

fn lower_chars(s: &str) -> (lower: Vec<char>)
    ensures
        lower@ == lower_seq(s@),
{
    let chars = chars_of(s);
    let mut out: Vec<char> = Vec::new();
    let mut i: usize = 0;
    while i < chars.len()
        invariant
            0 <= i <= chars@.len(),
            chars@ == s@,
            out@.len() == i,
            forall|k: int| 0 <= k < i ==> #[trigger] out@[k] == to_ascii_lower(chars@[k]),
        decreases chars.len() - i,
    {
        out.push(char_to_ascii_lower(chars[i]));
        i = i + 1;
    }
    assert(out@ =~= lower_seq(s@));
    out
}

fn spells(chars: &Vec<char>, text: &str) -> (same: bool)
    ensures
        same == (chars@ == text@),
{
    let same = range_spells(chars.as_slice(), 0, chars.len(), text);
    assert(chars@.subrange(0, chars@.len() as int) =~= chars@);
    same
}

/// The media type for an extension `Path::extension` found.
pub fn media_type_for_extension_text(extension: &str, width: Option<u32>, height: Option<u32>) -> (media: Option<String>)
    ensures
        match media {
            Some(m) => media_type_for_extension(extension@, width, height) == Some(m@),
            None => media_type_for_extension(extension@, width, height) is None,
        },
{
    let e = lower_chars(extension);
    if spells(&e, "png") || spells(&e, "jpg") || spells(&e, "jpeg") || spells(&e, "gif") || spells(&e, "webp") {
        Some("image".to_owned())
    } else if spells(&e, "aac") || spells(&e, "flac") || spells(&e, "m4a") || spells(&e, "mp3") || spells(&e, "ogg")
        || spells(&e, "opus") || spells(&e, "wav") {
        Some("audio".to_owned())
    } else if spells(&e, "avi") || spells(&e, "flv") || spells(&e, "m4v") || spells(&e, "mkv") || spells(&e, "mov")
        || spells(&e, "mp4") || spells(&e, "mpg") || spells(&e, "ogv") || spells(&e, "ts") || spells(&e, "webm") || (
    match width {
        Some(w) => w,
        None => 0,
    } > 0 && match height {
        Some(h) => h,
        None => 0,
    } > 0) {
        Some("video".to_owned())
    } else {
        None
    }
}

/// The media type an archived library entry is listed under.
pub fn archive_media_type(media_type: Option<&str>, filename: &str, width: Option<u32>, height: Option<u32>) -> (media: Option<String>)
    ensures
        match media {
            Some(m) => archived_media_type(text_opt(media_type), filename@, width, height) == Some(m@),
            None => archived_media_type(text_opt(media_type), filename@, width, height) is None,
        },
{
    if let Some(t) = media_type {
        if str_equal(t, "video") || str_equal(t, "audio") || str_equal(t, "image") {
            return Some(t.to_owned());
        }
    }
    match extension_of(filename) {
        Some(e) => media_type_for_extension_text(e.as_str(), width, height),
        None => None,
    }
}

pub open spec fn text_opt(s: Option<&str>) -> Option<Seq<char>> {
    match s {
        Some(t) => Some(t@),
        None => None,
    }
}

/// What an edit request asks of FFmpeg's colour and audio filters; the
/// caller decides each from the request (a pan or an intensity counts when
/// it is away from zero).
pub struct ColorGradeNeeds {
    pub curves: bool,
    pub hsl: bool,
    pub color_wheels: bool,
    pub audio_eq: bool,
    pub stereo_pan: bool,
    pub compressor: bool,
    pub limiter: bool,
    pub chroma_key: bool,
    /// Only read with `chroma_key`.
    pub spill_suppression: bool,
    pub lut: bool,
    /// A LUT blended at less than full intensity; only read with `lut`.
    pub partial_lut: bool,
}

/// The feature refused for want of an FFmpeg filter.
#[derive(Debug, Clone, Copy, PartialEq, Eq, Structural)]
pub enum CapabilityError {
    Curves,
    Hsl,
    ColorWheels,
    AudioEq,
    StereoPan,
    Compressor,
    Limiter,
    ChromaKey,
    Despill,
    Lut,
    PartialLut,
}

/// FFmpeg is present and lists `name` among its filters.
pub open spec fn has_filter(ffmpeg: bool, filters: Seq<Seq<char>>, name: Seq<char>) -> bool {
    ffmpeg && filters.contains(name)
}

/// The first colour or audio feature the request needs and FFmpeg cannot
/// run, checked in this order.
pub open spec fn color_grade_refusal(needs: ColorGradeNeeds, ffmpeg: bool, filters: Seq<Seq<char>>) -> Option<CapabilityError> {
    if needs.curves && !has_filter(ffmpeg, filters, "curves"@) {
        Some(CapabilityError::Curves)
    } else if needs.hsl && !has_filter(ffmpeg, filters, "huesaturation"@) {
        Some(CapabilityError::Hsl)
    } else if needs.color_wheels && !has_filter(ffmpeg, filters, "colorbalance"@) {
        Some(CapabilityError::ColorWheels)
    } else if needs.audio_eq && !has_filter(ffmpeg, filters, "equalizer"@) {
        Some(CapabilityError::AudioEq)
    } else if needs.stereo_pan && (!has_filter(ffmpeg, filters, "aformat"@) || !has_filter(
        ffmpeg,
        filters,
        "stereotools"@,
    )) {
        Some(CapabilityError::StereoPan)
    } else if needs.compressor && !has_filter(ffmpeg, filters, "acompressor"@) {
        Some(CapabilityError::Compressor)
    } else if needs.limiter && !has_filter(ffmpeg, filters, "alimiter"@) {
        Some(CapabilityError::Limiter)
    } else if needs.chroma_key && !has_filter(ffmpeg, filters, "chromakey"@) {
        Some(CapabilityError::ChromaKey)
    } else if needs.chroma_key && needs.spill_suppression && !has_filter(ffmpeg, filters, "despill"@) {
        Some(CapabilityError::Despill)
    } else if needs.lut && !has_filter(ffmpeg, filters, "lut3d"@) {
        Some(CapabilityError::Lut)
    } else if needs.lut && needs.partial_lut && !has_filter(ffmpeg, filters, "blend"@) {
        Some(CapabilityError::PartialLut)
    } else {
        None
    }
}

fn filter_available(ffmpeg: bool, filters: &[String], name: &str) -> (found: bool)
    ensures
        found == has_filter(ffmpeg, string_views(filters@), name@),
{
    if !ffmpeg {
        return false;
    }
    let mut i: usize = 0;
    while i < filters.len()
        invariant
            ffmpeg,
            0 <= i <= filters@.len(),
            forall|j: int| 0 <= j < i ==> (#[trigger] filters@[j])@ != name@,
        decreases filters.len() - i,
    {
        if str_equal(filters[i].as_str(), name) {
            assert(string_views(filters@)[i as int] == name@);
            return true;
        }
        i = i + 1;
    }
    assert(!string_views(filters@).contains(name@)) by {
        if string_views(filters@).contains(name@) {
            let j = choose|j: int| 0 <= j < string_views(filters@).len() && string_views(filters@)[j] == name@;
            assert(filters@[j]@ == name@);
        }
    }
    false
}

/// Refuses a colour or audio feature that the installed FFmpeg cannot run.
pub fn validate_color_grade_capabilities(needs: &ColorGradeNeeds, ffmpeg: bool, filters: &[String]) -> (result: Result<(), CapabilityError>)
    ensures
        match color_grade_refusal(*needs, ffmpeg, string_views(filters@)) {
            Some(e) => result == Err::<(), CapabilityError>(e),
            None => result is Ok,
        },
{
    if needs.curves && !filter_available(ffmpeg, filters, "curves") {
        return Err(CapabilityError::Curves);
    }
    if needs.hsl && !filter_available(ffmpeg, filters, "huesaturation") {
        return Err(CapabilityError::Hsl);
    }
    if needs.color_wheels && !filter_available(ffmpeg, filters, "colorbalance") {
        return Err(CapabilityError::ColorWheels);
    }
    if needs.audio_eq && !filter_available(ffmpeg, filters, "equalizer") {
        return Err(CapabilityError::AudioEq);
    }
    if needs.stereo_pan && (!filter_available(ffmpeg, filters, "aformat") || !filter_available(
        ffmpeg,
        filters,
        "stereotools",
    )) {
        return Err(CapabilityError::StereoPan);
    }
    if needs.compressor && !filter_available(ffmpeg, filters, "acompressor") {
        return Err(CapabilityError::Compressor);
    }
    if needs.limiter && !filter_available(ffmpeg, filters, "alimiter") {
        return Err(CapabilityError::Limiter);
    }
    if needs.chroma_key {
        if !filter_available(ffmpeg, filters, "chromakey") {
            return Err(CapabilityError::ChromaKey);
        }
        if needs.spill_suppression && !filter_available(ffmpeg, filters, "despill") {
            return Err(CapabilityError::Despill);
        }
    }
    if needs.lut {
        if !filter_available(ffmpeg, filters, "lut3d") {
            return Err(CapabilityError::Lut);
        }
        if needs.partial_lut && !filter_available(ffmpeg, filters, "blend") {
            return Err(CapabilityError::PartialLut);
        }
    }
    Ok(())
}

/// What a composition asks of FFmpeg's timing filters.
pub struct CompositionNeeds {
    pub optical_flow: bool,
    pub reverse_video: bool,
    pub reverse_audio: bool,
    pub freeze_frame: bool,
    pub stabilization: bool,
    pub speed_ramp: bool,
    pub speed_ramp_pitch_audio: bool,
}

/// Every filter a composition can need, in byte order.
pub open spec fn composition_filter_names() -> Seq<Seq<char>> {
    seq![
        "areverse"@,
        "asetpts"@,
        "asplit"@,
        "atempo"@,
        "atrim"@,
        "concat"@,
        "deshake"@,
        "fps"@,
        "minterpolate"@,
        "reverse"@,
        "setpts"@,
        "tpad"@,
        "trim"@,
    ]
}

/// The composition needs filter `name`.
pub open spec fn composition_requires(needs: CompositionNeeds, name: Seq<char>) -> bool {
    ||| needs.optical_flow && (name == "minterpolate"@ || name == "tpad"@)
    ||| needs.reverse_video && name == "reverse"@
    ||| needs.reverse_audio && name == "areverse"@
    ||| needs.freeze_frame && name == "tpad"@
    ||| needs.stabilization && name == "deshake"@
    ||| needs.speed_ramp && (name == "setpts"@ || name == "tpad"@ || name == "fps"@ || name == "trim"@)
    ||| needs.speed_ramp_pitch_audio && (name == "atrim"@ || name == "asetpts"@ || name == "asplit"@ || name
        == "atempo"@ || name == "concat"@)
}

/// The filters the composition needs and FFmpeg lacks, in byte order, each
/// once.
pub open spec fn missing_composition_filters(needs: CompositionNeeds, ffmpeg: bool, filters: Seq<Seq<char>>) -> Seq<
    Seq<char>,
> {
    composition_filter_names().filter(
        |name: Seq<char>| composition_requires(needs, name) && !has_filter(ffmpeg, filters, name),
    )
}

/// Refuses a composition whose timing filters the installed FFmpeg lacks,
/// naming every missing filter.
pub fn validate_composition_capabilities(needs: &CompositionNeeds, ffmpeg: bool, filters: &[String]) -> (result: Result<(), Vec<String>>)
    ensures
        missing_composition_filters(*needs, ffmpeg, string_views(filters@)).len() == 0 ==> result is Ok,
        missing_composition_filters(*needs, ffmpeg, string_views(filters@)).len() > 0 ==> (result matches Err(missing)
            && string_views(missing@) == missing_composition_filters(*needs, ffmpeg, string_views(filters@))),
{
    let names: [&str; 13] = [
        "areverse",
        "asetpts",
        "asplit",
        "atempo",
        "atrim",
        "concat",
        "deshake",
        "fps",
        "minterpolate",
        "reverse",
        "setpts",
        "tpad",
        "trim",
    ];
    let ghost all = composition_filter_names();
    let ghost wanted = |name: Seq<char>| composition_requires(*needs, name) && !has_filter(ffmpeg, string_views(filters@), name);
    assert(names@.map_values(|n: &str| n@) =~= all);
    let mut missing: Vec<String> = Vec::new();
    let mut i: usize = 0;
    while i < 13
        invariant
            0 <= i <= 13,
            names@.map_values(|n: &str| n@) == all,
            all == composition_filter_names(),
            wanted == (|name: Seq<char>| composition_requires(*needs, name) && !has_filter(ffmpeg, string_views(filters@), name)),
            string_views(missing@) == all.subrange(0, i as int).filter(wanted),
        decreases 13 - i,
    {
        let name = names[i];
        assert(all[i as int] == name@);
        let required = (needs.optical_flow && (str_equal(name, "minterpolate") || str_equal(name, "tpad")))
            || (needs.reverse_video && str_equal(name, "reverse")) || (needs.reverse_audio && str_equal(name, "areverse"))
            || (needs.freeze_frame && str_equal(name, "tpad")) || (needs.stabilization && str_equal(name, "deshake"))
            || (needs.speed_ramp && (str_equal(name, "setpts") || str_equal(name, "tpad") || str_equal(name, "fps")
            || str_equal(name, "trim"))) || (needs.speed_ramp_pitch_audio && (str_equal(name, "atrim") || str_equal(
            name,
            "asetpts",
        ) || str_equal(name, "asplit") || str_equal(name, "atempo") || str_equal(name, "concat")));
        assert(required == composition_requires(*needs, name@));
        let keep = required && !filter_available(ffmpeg, filters, name);
        let ghost before = missing@;
        if keep {
            missing.push(name.to_owned());
        }
        proof {
            let s = all.subrange(0, i + 1);
            assert(s.drop_last() =~= all.subrange(0, i as int));
            assert(s.last() == name@);
            assert(s =~= s.drop_last().push(name@));
            s.drop_last().lemma_filter_push(name@, wanted);
            assert(string_views(missing@) =~= all.subrange(0, i + 1).filter(wanted));
        }
        i = i + 1;
    }
    assert(all.subrange(0, 13) =~= all);
    if missing.len() == 0 {
        Ok(())
    } else {
        Err(missing)
    }
}

/// The composition filter names are listed in strictly increasing byte
/// order, so the missing ones come out sorted, each once.
pub proof fn lemma_composition_filter_names_ascending()
    ensures
        forall|i: int, j: int|
            0 <= i < j < composition_filter_names().len() ==> seq_lt(
                #[trigger] composition_filter_names()[i],
                #[trigger] composition_filter_names()[j],
            ),
{
    let s = composition_filter_names();
    reveal_strlit("areverse");
    reveal_strlit("asetpts");
    reveal_strlit("asplit");
    reveal_strlit("atempo");
    reveal_strlit("atrim");
    reveal_strlit("concat");
    reveal_strlit("deshake");
    reveal_strlit("fps");
    reveal_strlit("minterpolate");
    reveal_strlit("reverse");
    reveal_strlit("setpts");
    reveal_strlit("tpad");
    reveal_strlit("trim");
    reveal_with_fuel(seq_lt, 4);
    assert(seq_lt(s[0], s[1]));
    assert(seq_lt(s[1], s[2]));
    assert(seq_lt(s[2], s[3]));
    assert(seq_lt(s[3], s[4]));
    assert(seq_lt(s[4], s[5]));
    assert(seq_lt(s[5], s[6]));
    assert(seq_lt(s[6], s[7]));
    assert(seq_lt(s[7], s[8]));
    assert(seq_lt(s[8], s[9]));
    assert(seq_lt(s[9], s[10]));
    assert(seq_lt(s[10], s[11]));
    assert(seq_lt(s[11], s[12]));
    lemma_chain_ascending(s);
}

proof fn lemma_chain_ascending(s: Seq<Seq<char>>)
    requires
        forall|i: int| 0 <= i < s.len() - 1 ==> seq_lt(#[trigger] s[i], s[i + 1]),
    ensures
        forall|i: int, j: int| 0 <= i < j < s.len() ==> seq_lt(#[trigger] s[i], #[trigger] s[j]),
    decreases s.len(),
{
    if s.len() > 1 {
        let p = s.drop_last();
        assert forall|i: int| 0 <= i < p.len() - 1 implies seq_lt(#[trigger] p[i], p[i + 1]) by {
            assert(seq_lt(s[i], s[i + 1]));
        }
        lemma_chain_ascending(p);
        assert forall|i: int, j: int| 0 <= i < j < s.len() implies seq_lt(#[trigger] s[i], #[trigger] s[j]) by {
            if j < s.len() - 1 {
                assert(seq_lt(p[i], p[j]));
            } else if i < j - 1 {
                assert(seq_lt(p[i], p[j - 1]));
                assert(seq_lt(s[j - 1], s[j]));
                lemma_seq_lt_transitive(s[i], s[j - 1], s[j]);
            } else {
                assert(seq_lt(s[j - 1], s[j]));
            }
        }
    }
}

} // verus!
