use slowclaw::clock::UtcStamp;
use slowclaw::media::{
    infer_media_kind_from_content_type, journal_file_body, library_item, library_kind,
    media_kind_directory, media_storage_rel_path, media_storage_rel_path_at, parse_scope,
    safe_file_name, scope_roots, text_journal_rel_path, text_journal_rel_path_at,
    text_or_default, LibraryKind, LibraryScope,
};

fn stamp() -> UtcStamp {
    UtcStamp { year: 2024, month: 3, day: 7, hour: 9, minute: 5, second: 2 }
}

#[test]
fn media_kind_from_content_type() {
    assert_eq!(infer_media_kind_from_content_type("audio/mp4"), "audio");
    assert_eq!(infer_media_kind_from_content_type("AUDIO/mpeg"), "audio");
    assert_eq!(infer_media_kind_from_content_type("video/webm"), "video");
    assert_eq!(infer_media_kind_from_content_type("image/png"), "image");
    assert_eq!(infer_media_kind_from_content_type("application/octet-stream"), "files");
    assert_eq!(infer_media_kind_from_content_type("audio"), "files");
    assert_eq!(infer_media_kind_from_content_type(""), "files");
}

#[test]
fn media_kind_directories() {
    assert_eq!(media_kind_directory(" Audio "), "audio");
    assert_eq!(media_kind_directory("video"), "video");
    assert_eq!(media_kind_directory("IMAGE"), "image");
    assert_eq!(media_kind_directory("file"), "files");
    assert_eq!(media_kind_directory("files"), "files");
    assert_eq!(media_kind_directory("../etc"), "files");
}

#[test]
fn safe_file_names() {
    assert_eq!(safe_file_name("note.m4a"), "note.m4a");
    assert_eq!(safe_file_name("my note (1).m4a"), "my_note__1_.m4a");
    assert_eq!(safe_file_name("../../etc/passwd"), ".._.._etc_passwd");
    assert_eq!(safe_file_name("__a__"), "a");
    assert_eq!(safe_file_name("  "), "upload.bin");
    assert_eq!(safe_file_name(""), "upload.bin");
    assert_eq!(safe_file_name("___"), "upload.bin");
    assert_eq!(safe_file_name("é"), "upload.bin");
    assert_eq!(safe_file_name("aé-b_C.9"), "a_-b_C.9");
    assert_eq!(safe_file_name(&"a".repeat(200)), "a".repeat(128));
    assert_eq!(safe_file_name(&format!("_{}", "b".repeat(128))), "b".repeat(128));
    assert_eq!(safe_file_name(&"c".repeat(128)), "c".repeat(128));
}

#[test]
fn media_storage_paths() {
    assert_eq!(
        media_storage_rel_path_at("audio", "note 1.m4a", stamp()),
        "journals/media/audio/2024/03/07/090502_note_1.m4a"
    );
    assert_eq!(
        media_storage_rel_path_at("weird", "", stamp()),
        "journals/media/files/2024/03/07/090502_upload.bin"
    );
    let late = UtcStamp { year: 12024, month: 12, day: 31, hour: 23, minute: 59, second: 59 };
    assert_eq!(
        media_storage_rel_path_at("Video", "v.mp4", late),
        "journals/media/video/12024/12/31/235959_v.mp4"
    );
    let early = UtcStamp { year: 33, month: 1, day: 1, hour: 0, minute: 0, second: 0 };
    assert_eq!(
        media_storage_rel_path_at("image", "i.png", early),
        "journals/media/image/0033/01/01/000000_i.png"
    );
    let before = UtcStamp { year: -5, month: 1, day: 1, hour: 0, minute: 0, second: 0 };
    assert_eq!(
        media_storage_rel_path_at("image", "i.png", before),
        "journals/media/image/-005/01/01/000000_i.png"
    );
}

#[test]
fn media_storage_path_now_has_the_same_shape() {
    let path = media_storage_rel_path("audio", "a b.m4a");
    assert!(path.starts_with("journals/media/audio/2"));
    assert!(path.ends_with("_a_b.m4a"));
    assert_eq!(path.len(), "journals/media/audio/2024/03/07/090502_a_b.m4a".len());
    let note = text_journal_rel_path("My day");
    assert!(note.starts_with("journals/text/2"));
    assert!(note.ends_with("_My_day.md"));
}

#[test]
fn journal_paths() {
    assert_eq!(
        text_journal_rel_path_at("Journal entry", stamp()),
        "journals/text/2024/03/07/090502_Journal_entry.md"
    );
    assert_eq!(
        text_journal_rel_path_at("Done.", stamp()),
        "journals/text/2024/03/07/090502_Done.md"
    );
    assert_eq!(
        text_journal_rel_path_at("...", stamp()),
        "journals/text/2024/03/07/090502_journal.md"
    );
    assert_eq!(
        text_journal_rel_path_at("", stamp()),
        "journals/text/2024/03/07/090502_upload.bin.md"
    );
    assert_eq!(journal_file_body("T", "body"), "# T\n\nbody\n");
}

#[test]
fn text_fields_fall_back_to_defaults() {
    assert_eq!(text_or_default(Some("  x "), "mobile"), "x");
    assert_eq!(text_or_default(Some("   "), "mobile"), "mobile");
    assert_eq!(text_or_default(None, "Journal entry"), "Journal entry");
}

#[test]
fn library_kinds() {
    for ext in ["md", "txt", "json", "srt", "MD"] {
        assert_eq!(library_kind(ext), LibraryKind::Text, "{ext}");
    }
    for ext in ["mp3", "wav", "m4a", "aac", "flac", "M4A"] {
        assert_eq!(library_kind(ext), LibraryKind::Audio, "{ext}");
    }
    for ext in ["mp4", "mov", "webm", "mkv"] {
        assert_eq!(library_kind(ext), LibraryKind::Video, "{ext}");
    }
    for ext in ["jpg", "jpeg", "png", "webp"] {
        assert_eq!(library_kind(ext), LibraryKind::Image, "{ext}");
    }
    for ext in ["", "exe", "pdf", "md5", "mp"] {
        assert_eq!(library_kind(ext), LibraryKind::Hidden, "{ext}");
    }
    assert_eq!(LibraryKind::Text.label(), "text");
    assert_eq!(LibraryKind::Audio.label(), "audio");
    assert_eq!(LibraryKind::Video.label(), "video");
    assert_eq!(LibraryKind::Image.label(), "image");
    assert!(LibraryKind::Image.is_media());
    assert!(!LibraryKind::Text.is_media());
}

#[test]
fn library_scopes() {
    assert_eq!(parse_scope("journal"), LibraryScope::Journal);
    assert_eq!(parse_scope(" FEED "), LibraryScope::Feed);
    assert_eq!(parse_scope("all"), LibraryScope::All);
    assert_eq!(parse_scope("anything"), LibraryScope::All);
    assert_eq!(scope_roots(LibraryScope::Journal), vec!["journals"]);
    assert_eq!(scope_roots(LibraryScope::Feed), vec!["journals/processed", "posts"]);
    assert_eq!(scope_roots(LibraryScope::All), vec!["journals", "posts"]);
}

#[test]
fn library_items() {
    let item = library_item(LibraryScope::All, "journals/media/audio/a_b.m4a", "m4a", "a_b").unwrap();
    assert_eq!(item.path, "journals/media/audio/a_b.m4a");
    assert_eq!(item.title, "a b");
    assert_eq!(item.kind, LibraryKind::Audio);
    assert_eq!(item.media_url.as_deref(), Some("/api/media/journals/media/audio/a_b.m4a"));
    assert!(!item.editable_text);
    assert!(!item.feed);

    let note = library_item(LibraryScope::Journal, "journals/text/n.md", "md", "n").unwrap();
    assert_eq!(note.kind, LibraryKind::Text);
    assert!(note.media_url.is_none());
    assert!(note.editable_text);

    let post = library_item(LibraryScope::Feed, "posts/p.mp4", "MP4", "p").unwrap();
    assert!(post.feed);
    assert_eq!(post.kind, LibraryKind::Video);
    assert!(library_item(LibraryScope::Journal, "posts/p.mp4", "mp4", "p").is_none());
    assert!(library_item(LibraryScope::Feed, "journals/text/n.md", "md", "n").is_none());
    assert!(library_item(LibraryScope::All, "journals/x.bin", "bin", "x").is_none());
    assert!(library_item(LibraryScope::All, "memory/n.md", "md", "n").is_none());
}

#[test]
fn journal_scope_is_everything_under_journals() {
    let processed = library_item(LibraryScope::Journal, "journals/processed/v.mp4", "mp4", "v").unwrap();
    assert!(processed.feed);
    assert!(library_item(LibraryScope::Journal, "journals/processed/v.srt", "srt", "v").is_some());
    assert!(library_item(LibraryScope::Journal, "journals/pipeline/a.json", "json", "a").is_some());
    assert!(library_item(LibraryScope::Journal, "journals/media/audio/a.m4a", "m4a", "a").is_some());
    assert!(library_item(LibraryScope::Journal, "journalsx/a.md", "md", "a").is_none());
    assert!(library_item(LibraryScope::Journal, "journals/a.exe", "exe", "a").is_none());
}

#[test]
fn feed_byproducts_are_hidden() {
    for (rel, ext) in [
        ("posts/Artifacts/x.mp4", "mp4"),
        ("journals/processed/pipeline/x.mp4", "mp4"),
        ("posts/a.srt", "srt"),
        ("posts/a.JSON", "JSON"),
        ("journals/processed/a.caption.txt", "txt"),
    ] {
        assert!(library_item(LibraryScope::Feed, rel, ext, "x").is_none(), "{rel}");
    }
    // A listing of everything hides the by-products of posts; those under
    // journals are part of the journal.
    assert!(library_item(LibraryScope::All, "posts/Artifacts/x.mp4", "mp4", "x").is_none());
    assert!(library_item(LibraryScope::All, "posts/a.srt", "srt", "a").is_none());
    assert!(library_item(LibraryScope::All, "journals/processed/a.caption.txt", "txt", "a").is_some());
    // The same names outside the feed are shown.
    assert!(library_item(LibraryScope::All, "journals/pipeline/a.json", "json", "a").is_some());
    assert!(library_item(LibraryScope::All, "posts/a.txt", "txt", "a").is_some());
}
