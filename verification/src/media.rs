//! Names and places of stored media and journal notes, and what of the
//! workspace the library view shows.

use crate::clock::{utc_now, UtcStamp};
use crate::text::{
    ascii_lower, chars_eq, contains, contains_chars, ends_with, ends_with_chars, extend_chars,
    extend_str, from_chars, lemma_leading_unique, lemma_trailing_unique, padded_decimal,
    push_padded_decimal, slice_chars, starts_with, starts_with_chars, strip_both, strip_trailing,
    to_ascii_lowercase, to_chars, trim, trim_chars,
};
use vstd::prelude::*;

verus! {

/// The kind of an upload, judged by its content type.
pub open spec fn kind_of_content_type(content_type: Seq<char>) -> Seq<char> {
    let lower = ascii_lower(content_type);
    if starts_with(lower, "audio/"@) {
        "audio"@
    } else if starts_with(lower, "video/"@) {
        "video"@
    } else if starts_with(lower, "image/"@) {
        "image"@
    } else {
        "files"@
    }
}

pub fn infer_media_kind_from_content_type(content_type: &str) -> (r: &'static str)
    ensures
        r@ == kind_of_content_type(content_type@),
{
    let lower = to_ascii_lowercase(&to_chars(content_type));
    if starts_with_chars(&lower, &to_chars("audio/")) {
        "audio"
    } else if starts_with_chars(&lower, &to_chars("video/")) {
        "video"
    } else if starts_with_chars(&lower, &to_chars("image/")) {
        "image"
    } else {
        "files"
    }
}

/// The directory that uploads of a kind are stored in: the kind itself for
/// audio, video and image, `files` for everything else.
pub open spec fn kind_directory(kind: Seq<char>) -> Seq<char> {
    let k = ascii_lower(trim(kind));
    if k == "audio"@ {
        "audio"@
    } else if k == "video"@ {
        "video"@
    } else if k == "image"@ {
        "image"@
    } else {
        "files"@
    }
}

pub fn media_kind_directory(kind: &str) -> (r: &'static str)
    ensures
        r@ == kind_directory(kind@),
{
    let k = to_ascii_lowercase(&trim_chars(&to_chars(kind)));
    if chars_eq(&k, &to_chars("audio")) {
        "audio"
    } else if chars_eq(&k, &to_chars("video")) {
        "video"
    } else if chars_eq(&k, &to_chars("image")) {
        "image"
    } else {
        "files"
    }
}

/// Characters that a stored file name keeps.
pub open spec fn is_safe_char(c: char) -> bool {
    ('a' <= c <= 'z') || ('A' <= c <= 'Z') || ('0' <= c <= '9') || c == '.' || c == '_' || c == '-'
}

pub open spec fn is_underscore(c: char) -> bool {
    c == '_'
}

pub open spec fn is_dot(c: char) -> bool {
    c == '.'
}

/// `name` with every character that is not safe replaced by `_`.
pub open spec fn masked(name: Seq<char>) -> Seq<char> {
    Seq::new(
        name.len(),
        |i: int|
            if is_safe_char(name[i]) {
                name[i]
            } else {
                '_'
            },
    )
}

/// The name a file is stored under: unsafe characters become `_`, leading
/// and trailing `_` go, at most 128 characters are kept, and a name of which
/// nothing is left becomes `upload.bin`.
pub open spec fn safe_name(name: Seq<char>) -> Seq<char> {
    let core = strip_both(masked(name), |c: char| is_underscore(c));
    if core.len() == 0 {
        "upload.bin"@
    } else if core.len() > 128 {
        core.take(128)
    } else {
        core
    }
}

fn char_is_safe(c: char) -> (r: bool)
    ensures
        r == is_safe_char(c),
{
    ('a' <= c && c <= 'z') || ('A' <= c && c <= 'Z') || ('0' <= c && c <= '9') || c == '.' || c
        == '_' || c == '-'
}

fn char_is_underscore(c: char) -> (r: bool)
    ensures
        r == is_underscore(c),
{
    c == '_'
}

fn char_is_dot(c: char) -> (r: bool)
    ensures
        r == is_dot(c),
{
    c == '.'
}

fn safe_name_chars(name: &Vec<char>) -> (r: Vec<char>)
    ensures
        r@ == safe_name(name@),
{
    let mut out: Vec<char> = Vec::new();
    let mut i: usize = 0;
    while i < name.len()
        invariant
            i <= name.len(),
            out@.len() == i,
            forall|j: int| 0 <= j < i ==> out@[j] == masked(name@)[j],
        decreases name.len() - i,
    {
        let c = name[i];
        if char_is_safe(c) {
            out.push(c);
        } else {
            out.push('_');
        }
        i = i + 1;
    }
    assert(out@ =~= masked(name@));
    let ghost p = |c: char| is_underscore(c);
    let mut a: usize = 0;
    while a < out.len() && char_is_underscore(out[a])
        invariant
            a <= out.len(),
            forall|c: char| p(c) == is_underscore(c),
            forall|k: int| 0 <= k < a ==> p(#[trigger] out@[k]),
        decreases out.len() - a,
    {
        a = a + 1;
    }
    proof {
        lemma_leading_unique(out@, p, a as int);
    }
    let ghost rest = out@.skip(a as int);
    let mut b: usize = out.len();
    while b > a && char_is_underscore(out[b - 1])
        invariant
            a <= b <= out.len(),
            rest == out@.skip(a as int),
            forall|c: char| p(c) == is_underscore(c),
            forall|k: int| b - a <= k < rest.len() ==> p(#[trigger] rest[k]),
        decreases b,
    {
        b = b - 1;
    }
    proof {
        lemma_trailing_unique(rest, p, out.len() - b);
        assert(rest.take(rest.len() - (out.len() - b)) == out@.subrange(a as int, b as int));
    }
    if a == b {
        return to_chars("upload.bin");
    }
    let end = if b - a > 128 {
        a + 128
    } else {
        b
    };
    let r = slice_chars(&out, a, end);
    proof {
        let core = out@.subrange(a as int, b as int);
        if b - a > 128 {
            assert(r@ =~= core.take(128));
        }
    }
    r
}

/// The name a file is stored under.
pub fn safe_file_name(name: &str) -> (r: String)
    ensures
        r@ == safe_name(name@),
{
    from_chars(&safe_name_chars(&to_chars(name)))
}

/// A year in at least four characters: zero-padded, with a minus sign in
/// front where it is negative.
pub open spec fn year_text(year: int) -> Seq<char> {
    if year >= 0 {
        padded_decimal(year as nat, 4)
    } else {
        "-"@ + padded_decimal((-year) as nat, 3)
    }
}

/// The date directories and the time prefix of a stored file:
/// `YYYY/MM/DD/HHMMSS`.
pub open spec fn stamp_path(stamp: UtcStamp) -> Seq<char> {
    year_text(stamp.year as int) + "/"@ + padded_decimal(stamp.month as nat, 2) + "/"@
        + padded_decimal(stamp.day as nat, 2) + "/"@ + padded_decimal(stamp.hour as nat, 2)
        + padded_decimal(stamp.minute as nat, 2) + padded_decimal(stamp.second as nat, 2)
}

fn push_stamp_path(out: &mut Vec<char>, stamp: UtcStamp)
    ensures
        final(out)@ == old(out)@ + stamp_path(stamp),
{
    let mut part: Vec<char> = Vec::new();
    if stamp.year >= 0 {
        push_padded_decimal(&mut part, stamp.year as u64, 4);
    } else {
        extend_str(&mut part, "-");
        let positive: i64 = -(stamp.year as i64);
        push_padded_decimal(&mut part, positive as u64, 3);
    }
    extend_str(&mut part, "/");
    push_padded_decimal(&mut part, stamp.month as u64, 2);
    extend_str(&mut part, "/");
    push_padded_decimal(&mut part, stamp.day as u64, 2);
    extend_str(&mut part, "/");
    push_padded_decimal(&mut part, stamp.hour as u64, 2);
    push_padded_decimal(&mut part, stamp.minute as u64, 2);
    push_padded_decimal(&mut part, stamp.second as u64, 2);
    assert(part@ =~= stamp_path(stamp));
    extend_chars(out, &part);
}

/// Where an upload is stored, relative to the workspace:
/// `journals/media/<kind>/YYYY/MM/DD/HHMMSS_<name>`.
pub open spec fn media_path(kind: Seq<char>, original_name: Seq<char>, stamp: UtcStamp) -> Seq<
    char,
> {
    "journals/media"@ + "/"@ + kind_directory(kind) + "/"@ + stamp_path(stamp) + "_"@ + safe_name(
        original_name,
    )
}

/// The storage path of an upload received at `stamp`.
pub fn media_storage_rel_path_at(kind: &str, original_name: &str, stamp: UtcStamp) -> (r: String)
    ensures
        r@ == media_path(kind@, original_name@, stamp),
{
    let mut out: Vec<char> = Vec::new();
    extend_str(&mut out, "journals/media");
    extend_str(&mut out, "/");
    extend_str(&mut out, media_kind_directory(kind));
    extend_str(&mut out, "/");
    push_stamp_path(&mut out, stamp);
    extend_str(&mut out, "_");
    let name = safe_name_chars(&to_chars(original_name));
    extend_chars(&mut out, &name);
    let r = from_chars(&out);
    assert(r@ =~= media_path(kind@, original_name@, stamp));
    r
}

/// The storage path of an upload received now: that of
/// `media_storage_rel_path_at` for the current UTC time.
pub fn media_storage_rel_path(kind: &str, original_name: &str) -> (r: String)
    ensures
        exists|stamp: UtcStamp|
            stamp.in_range() && r@ == #[trigger] media_path(kind@, original_name@, stamp),
{
    let stamp = utc_now();
    media_storage_rel_path_at(kind, original_name, stamp)
}

/// The file stem of a journal note: the safe form of its title without
/// trailing dots, or `journal` where nothing is left.
pub open spec fn journal_stem(title: Seq<char>) -> Seq<char> {
    let stem = strip_trailing(safe_name(title), |c: char| is_dot(c));
    if stem.len() == 0 {
        "journal"@
    } else {
        stem
    }
}

/// Where a journal note is stored, relative to the workspace:
/// `journals/text/YYYY/MM/DD/HHMMSS_<stem>.md`.
pub open spec fn journal_path(title: Seq<char>, stamp: UtcStamp) -> Seq<char> {
    "journals/text"@ + "/"@ + stamp_path(stamp) + "_"@ + journal_stem(title) + ".md"@
}

/// The storage path of a journal note written at `stamp`.
pub fn text_journal_rel_path_at(title: &str, stamp: UtcStamp) -> (r: String)
    ensures
        r@ == journal_path(title@, stamp),
{
    let safe = safe_name_chars(&to_chars(title));
    let ghost p = |c: char| is_dot(c);
    let mut b: usize = safe.len();
    while b > 0 && char_is_dot(safe[b - 1])
        invariant
            b <= safe.len(),
            forall|c: char| p(c) == is_dot(c),
            forall|k: int| b <= k < safe.len() ==> p(#[trigger] safe@[k]),
        decreases b,
    {
        b = b - 1;
    }
    proof {
        lemma_trailing_unique(safe@, p, safe.len() - b);
    }
    let stem = if b == 0 {
        to_chars("journal")
    } else {
        let s = slice_chars(&safe, 0, b);
        assert(s@ == safe@.take(b as int));
        s
    };
    let mut out: Vec<char> = Vec::new();
    extend_str(&mut out, "journals/text");
    extend_str(&mut out, "/");
    push_stamp_path(&mut out, stamp);
    extend_str(&mut out, "_");
    extend_chars(&mut out, &stem);
    extend_str(&mut out, ".md");
    let r = from_chars(&out);
    assert(r@ =~= journal_path(title@, stamp));
    r
}

/// The storage path of a journal note written now.
pub fn text_journal_rel_path(title: &str) -> (r: String)
    ensures
        exists|stamp: UtcStamp| stamp.in_range() && r@ == #[trigger] journal_path(title@, stamp),
{
    let stamp = utc_now();
    text_journal_rel_path_at(title, stamp)
}

/// The text of a journal note on disk: the title as a heading, then the
/// content.
pub open spec fn journal_file_text(title: Seq<char>, content: Seq<char>) -> Seq<char> {
    "# "@ + title + "\n\n"@ + content + "\n"@
}

pub fn journal_file_body(title: &str, content: &str) -> (r: String)
    ensures
        r@ == journal_file_text(title@, content@),
{
    let mut out: Vec<char> = Vec::new();
    extend_str(&mut out, "# ");
    extend_str(&mut out, title);
    extend_str(&mut out, "\n\n");
    extend_str(&mut out, content);
    extend_str(&mut out, "\n");
    let r = from_chars(&out);
    assert(r@ =~= journal_file_text(title@, content@));
    r
}

/// A text field of a request as it counts: trimmed, or `default` where
/// nothing is left or nothing was sent.
pub open spec fn or_default(value: Option<Seq<char>>, default: Seq<char>) -> Seq<char> {
    match value {
        Some(v) => if trim(v).len() > 0 {
            trim(v)
        } else {
            default
        },
        None => default,
    }
}

pub fn text_or_default(value: Option<&str>, default: &str) -> (r: String)
    ensures
        r@ == or_default(
            match value {
                Some(v) => Some(v@),
                None => None,
            },
            default@,
        ),
{
    match value {
        Some(v) => {
            let t = trim_chars(&to_chars(v));
            if t.len() > 0 {
                from_chars(&t)
            } else {
                default.to_owned()
            }
        },
        None => default.to_owned(),
    }
}

/// What the library view shows of a file, or that it hides it.
#[derive(Debug, Clone, Copy, PartialEq, Eq, Structural)]
pub enum LibraryKind {
    Text,
    Audio,
    Video,
    Image,
    Hidden,
}

/// The kind of a file, judged by its extension in lower case.
pub open spec fn kind_of_extension(ext: Seq<char>) -> LibraryKind {
    if ext == "md"@ || ext == "txt"@ || ext == "json"@ || ext == "srt"@ {
        LibraryKind::Text
    } else if ext == "mp3"@ || ext == "wav"@ || ext == "m4a"@ || ext == "aac"@ || ext == "flac"@ {
        LibraryKind::Audio
    } else if ext == "mp4"@ || ext == "mov"@ || ext == "webm"@ || ext == "mkv"@ {
        LibraryKind::Video
    } else if ext == "jpg"@ || ext == "jpeg"@ || ext == "png"@ || ext == "webp"@ {
        LibraryKind::Image
    } else {
        LibraryKind::Hidden
    }
}

/// The kind of a file with the given extension, in any letter case.
pub fn library_kind(extension: &str) -> (r: LibraryKind)
    ensures
        r == kind_of_extension(ascii_lower(extension@)),
{
    let ext = to_ascii_lowercase(&to_chars(extension));
    if chars_eq(&ext, &to_chars("md")) || chars_eq(&ext, &to_chars("txt")) || chars_eq(
        &ext,
        &to_chars("json"),
    ) || chars_eq(&ext, &to_chars("srt")) {
        LibraryKind::Text
    } else if chars_eq(&ext, &to_chars("mp3")) || chars_eq(&ext, &to_chars("wav")) || chars_eq(
        &ext,
        &to_chars("m4a"),
    ) || chars_eq(&ext, &to_chars("aac")) || chars_eq(&ext, &to_chars("flac")) {
        LibraryKind::Audio
    } else if chars_eq(&ext, &to_chars("mp4")) || chars_eq(&ext, &to_chars("mov")) || chars_eq(
        &ext,
        &to_chars("webm"),
    ) || chars_eq(&ext, &to_chars("mkv")) {
        LibraryKind::Video
    } else if chars_eq(&ext, &to_chars("jpg")) || chars_eq(&ext, &to_chars("jpeg")) || chars_eq(
        &ext,
        &to_chars("png"),
    ) || chars_eq(&ext, &to_chars("webp")) {
        LibraryKind::Image
    } else {
        LibraryKind::Hidden
    }
}

impl LibraryKind {
    /// The name of the kind in listings; none for hidden files.
    pub fn label(&self) -> (r: &'static str)
        ensures
            r@ == match *self {
                LibraryKind::Text => "text"@,
                LibraryKind::Audio => "audio"@,
                LibraryKind::Video => "video"@,
                LibraryKind::Image => "image"@,
                LibraryKind::Hidden => ""@,
            },
    {
        match self {
            LibraryKind::Text => "text",
            LibraryKind::Audio => "audio",
            LibraryKind::Video => "video",
            LibraryKind::Image => "image",
            LibraryKind::Hidden => "",
        }
    }

    /// Whether files of this kind are played or shown rather than edited.
    pub fn is_media(&self) -> (r: bool)
        ensures
            r == (*self == LibraryKind::Audio || *self == LibraryKind::Video || *self
                == LibraryKind::Image),
    {
        match self {
            LibraryKind::Audio => true,
            LibraryKind::Video => true,
            LibraryKind::Image => true,
            _ => false,
        }
    }
}

/// Which part of the workspace a listing covers.
#[derive(Debug, Clone, Copy, PartialEq, Eq, Structural)]
pub enum LibraryScope {
    Journal,
    Feed,
    All,
}

/// The scope that a request names: `journal`, `feed`, or all for anything
/// else.
pub fn parse_scope(scope: &str) -> (r: LibraryScope)
    ensures
        r == if ascii_lower(trim(scope@)) == "journal"@ {
            LibraryScope::Journal
        } else if ascii_lower(trim(scope@)) == "feed"@ {
            LibraryScope::Feed
        } else {
            LibraryScope::All
        },
{
    let s = to_ascii_lowercase(&trim_chars(&to_chars(scope)));
    if chars_eq(&s, &to_chars("journal")) {
        LibraryScope::Journal
    } else if chars_eq(&s, &to_chars("feed")) {
        LibraryScope::Feed
    } else {
        LibraryScope::All
    }
}

/// The directories, relative to the workspace, that a listing walks.
pub fn scope_roots(scope: LibraryScope) -> (r: Vec<&'static str>)
    ensures
        r@.len() == match scope {
            LibraryScope::Journal => 1nat,
            _ => 2nat,
        },
        r@[0]@ == match scope {
            LibraryScope::Feed => "journals/processed"@,
            _ => "journals"@,
        },
        scope != LibraryScope::Journal ==> r@[1]@ == "posts"@,
{
    let mut r: Vec<&'static str> = Vec::new();
    match scope {
        LibraryScope::Journal => {
            r.push("journals");
        },
        LibraryScope::Feed => {
            r.push("journals/processed");
            r.push("posts");
        },
        LibraryScope::All => {
            r.push("journals");
            r.push("posts");
        },
    }
    r
}

/// Whether a file, by its workspace-relative path, belongs to the feed.
pub open spec fn is_feed_path(rel: Seq<char>) -> bool {
    starts_with(rel, "posts/"@) || starts_with(rel, "journals/processed/"@)
}

/// Whether a feed file is a by-product that listings leave out.
pub open spec fn is_feed_byproduct(rel: Seq<char>) -> bool {
    let lower = ascii_lower(rel);
    contains(lower, "/artifacts/"@) || contains(lower, "/pipeline/"@) || ends_with(lower, ".srt"@)
        || ends_with(lower, ".json"@) || ends_with(lower, ".caption.txt"@)
}

/// Whether the journal holds the file at `rel`: it lies under `journals/`.
pub open spec fn is_journal_path(rel: Seq<char>) -> bool {
    starts_with(rel, "journals/"@)
}

/// Whether the file at `rel` lies in `scope`: the journal is everything
/// under `journals/`; the feed is what lies under `posts/` or
/// `journals/processed/` and is no by-product; all is both.
pub open spec fn in_scope(scope: LibraryScope, rel: Seq<char>) -> bool {
    match scope {
        LibraryScope::Journal => is_journal_path(rel),
        LibraryScope::Feed => is_feed_path(rel) && !is_feed_byproduct(rel),
        LibraryScope::All => is_journal_path(rel) || (is_feed_path(rel) && !is_feed_byproduct(rel)),
    }
}

/// Whether a listing of `scope` shows the file at `rel` with extension
/// `extension`: its kind is known and it lies in the scope.
pub open spec fn is_listed(scope: LibraryScope, rel: Seq<char>, extension: Seq<char>) -> bool {
    kind_of_extension(ascii_lower(extension)) != LibraryKind::Hidden && in_scope(scope, rel)
}

/// A file as a listing shows it.
#[derive(Debug)]
pub struct LibraryItem {
    pub path: String,
    pub title: String,
    pub kind: LibraryKind,
    pub media_url: Option<String>,
    pub editable_text: bool,
    pub feed: bool,
}

/// The title of a file: its stem with `_` shown as a space.
pub open spec fn title_of(stem: Seq<char>) -> Seq<char> {
    Seq::new(
        stem.len(),
        |i: int|
            if stem[i] == '_' {
                ' '
            } else {
                stem[i]
            },
    )
}

/// The address a media file is served at.
pub open spec fn media_url_of(rel: Seq<char>) -> Seq<char> {
    "/api/media/"@ + rel
}

/// Describes the file at `rel` for a listing of `scope`, or hides it.
/// `extension` and `stem` are those of its file name.
pub fn library_item(scope: LibraryScope, rel: &str, extension: &str, stem: &str) -> (r: Option<
    LibraryItem,
>)
    ensures
        match r {
            Some(item) => {
                &&& is_listed(scope, rel@, extension@)
                &&& item.path@ == rel@
                &&& item.title@ == title_of(stem@)
                &&& item.kind == kind_of_extension(ascii_lower(extension@))
                &&& item.feed == is_feed_path(rel@)
                &&& item.editable_text == (item.kind == LibraryKind::Text)
                &&& match item.media_url {
                    Some(url) => item.kind != LibraryKind::Text && url@ == media_url_of(rel@),
                    None => item.kind == LibraryKind::Text,
                }
            },
            None => !is_listed(scope, rel@, extension@),
        },
{
    let kind = library_kind(extension);
    if kind == LibraryKind::Hidden {
        return None;
    }
    let path = to_chars(rel);
    let feed = starts_with_chars(&path, &to_chars("posts/")) || starts_with_chars(
        &path,
        &to_chars("journals/processed/"),
    );
    let journal = starts_with_chars(&path, &to_chars("journals/"));
    let lower = to_ascii_lowercase(&path);
    let byproduct = contains_chars(&lower, &to_chars("/artifacts/")) || contains_chars(
        &lower,
        &to_chars("/pipeline/"),
    ) || ends_with_chars(&lower, &to_chars(".srt")) || ends_with_chars(&lower, &to_chars(".json"))
        || ends_with_chars(&lower, &to_chars(".caption.txt"));
    let shown = match scope {
        LibraryScope::Journal => journal,
        LibraryScope::Feed => feed && !byproduct,
        LibraryScope::All => journal || (feed && !byproduct),
    };
    if !shown {
        return None;
    }
    let stem_chars = to_chars(stem);
    let mut title: Vec<char> = Vec::new();
    let mut i: usize = 0;
    while i < stem_chars.len()
        invariant
            i <= stem_chars.len(),
            title@.len() == i,
            forall|j: int| 0 <= j < i ==> title@[j] == title_of(stem_chars@)[j],
        decreases stem_chars.len() - i,
    {
        let c = stem_chars[i];
        if c == '_' {
            title.push(' ');
        } else {
            title.push(c);
        }
        i = i + 1;
    }
    assert(title@ =~= title_of(stem@));
    let media_url = if kind.is_media() {
        let mut url = to_chars("/api/media/");
        extend_chars(&mut url, &path);
        Some(from_chars(&url))
    } else {
        None
    };
    Some(
        LibraryItem {
            path: from_chars(&path),
            title: from_chars(&title),
            kind,
            media_url,
            editable_text: kind == LibraryKind::Text,
            feed,
        },
    )
}

} // verus!
