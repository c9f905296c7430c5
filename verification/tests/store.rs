use pkb::PkbError;
use pkb::page::{FsEntry, NotLoaded, Page};

fn entry(file_name: &str, mtime: i64, content: &str) -> FsEntry {
    FsEntry {
        file_name: file_name.to_string(),
        is_file: true,
        len: content.len() as u64,
        mtime,
        content: Some(content.to_string()),
    }
}

#[test]
fn zero_length_file_is_excluded_from_list_all() {
    let entries = vec![
        entry("full.md", 100, "content"),
        entry("empty.md", 200, ""),
        entry("other.md", 300, "more"),
    ];
    let pages = Page::<NotLoaded>::all(&entries);
    let names: Vec<&str> = pages.iter().map(|p| p.name.as_str()).collect();
    assert_eq!(names, vec!["full", "other"]);
}

#[test]
fn non_markdown_files_are_excluded() {
    let entries = vec![
        entry("page.md", 100, "content"),
        entry("notes.txt", 200, "text"),
        entry(".md", 300, "dotfile"),
        entry("md", 400, "bare"),
    ];
    let pages = Page::<NotLoaded>::all(&entries);
    let names: Vec<&str> = pages.iter().map(|p| p.name.as_str()).collect();
    assert_eq!(names, vec!["page"]);
}

#[test]
fn hidden_page_is_excluded_from_recently_modified_but_loadable() {
    let entries = vec![
        entry("visible.md", 100, "hello"),
        entry("secret.md", 200, "---\nhidden: true\n---\nshh"),
    ];
    let recent = Page::<NotLoaded>::recently_modified(10, &entries);
    let names: Vec<&str> = recent.iter().map(|p| p.name.as_str()).collect();
    assert_eq!(names, vec!["visible"]);

    let page = Page::<NotLoaded>::find("secret", &entries).expect("hidden page is addressable");
    let loaded = page.load(&entries).expect("hidden page loads");
    assert!(loaded.is_hidden());
    assert_eq!(loaded.markdown(), "\nshh");
}

#[test]
fn recently_modified_is_newest_first_and_limited() {
    let entries = vec![
        entry("a.md", 100, "a"),
        entry("b.md", 300, "b"),
        entry("c.md", 200, "c"),
    ];
    let recent = Page::<NotLoaded>::recently_modified(2, &entries);
    let names: Vec<&str> = recent.iter().map(|p| p.name.as_str()).collect();
    assert_eq!(names, vec!["b", "c"]);
}

#[test]
fn directory_last_modified_is_the_maximum_mtime() {
    let entries = vec![
        entry("a.md", 100, "a"),
        entry("b.md", 900, "b"),
        entry("c.md", 500, "c"),
    ];
    assert_eq!(Page::<NotLoaded>::last_modified_page(&entries), 900);
}

#[test]
fn home_freshness_follows_every_page() {
    let entries = vec![entry("home.md", 100, "home"), entry("note.md", 800, "note")];
    let home = Page::<NotLoaded>::find("home", &entries).expect("home exists");
    // the home page lists recent changes, so touching any page makes it stale
    assert_eq!(home.last_modified(&entries), 800);

    let touched = vec![entry("home.md", 100, "home"), entry("note.md", 900, "note")];
    let home = Page::<NotLoaded>::find("home", &touched).expect("home exists");
    assert_eq!(home.last_modified(&touched), 900);

    let note = Page::<NotLoaded>::find("note", &touched).expect("note exists");
    assert_eq!(note.last_modified(&touched), 900);
    let plain = Page::<NotLoaded>::find("home", &touched).expect("home exists");
    assert_eq!(plain.mtime(), 100);
}

#[test]
fn front_matter_round_trip() {
    let entries = vec![entry(
        "post.md",
        100,
        "---\ntitle: \"Foo\"\ntags: [a, b]\n---\nbody text\n",
    )];
    let page = Page::<NotLoaded>::find("post", &entries).expect("found");
    let loaded = page.load(&entries).expect("loads");
    assert_eq!(loaded.title(), "Foo");
    let tags: Vec<&str> = loaded.tags().iter().map(|t| t.as_str()).collect();
    assert_eq!(tags, vec!["a", "b"]);
    assert!(!loaded.is_hidden());
    assert_eq!(loaded.markdown(), "\nbody text\n");
}

#[test]
fn page_without_front_matter_has_defaults() {
    let raw = "just some **markdown** body\n";
    let entries = vec![entry("plain.md", 100, raw)];
    let page = Page::<NotLoaded>::find("plain", &entries).expect("found");
    let loaded = page.load(&entries).expect("loads");
    assert_eq!(loaded.markdown(), raw);
    assert!(loaded.tags().is_empty());
    assert!(!loaded.is_hidden());
    // the title falls back to a title-cased page name
    assert_eq!(loaded.title(), "Plain");
}

#[test]
fn unreadable_file_fails_with_io_error() {
    let entries = vec![FsEntry {
        file_name: "broken.md".to_string(),
        is_file: true,
        len: 5,
        mtime: 100,
        content: None,
    }];
    let page = Page::<NotLoaded>::find("broken", &entries).expect("stat worked");
    match page.load(&entries) {
        Err(PkbError::Io(_)) => {}
        other => panic!("expected an I/O failure, got {:?}", other),
    }
}

#[test]
fn malformed_front_matter_fails_the_load() {
    let entries = vec![entry("bad.md", 100, "---\ntitle: [\n---\nbody")];
    let page = Page::<NotLoaded>::find("bad", &entries).expect("found");
    match page.load(&entries) {
        Err(PkbError::Io(_)) => {}
        other => panic!("expected a format failure, got {:?}", other),
    }
}

#[test]
fn find_rejects_missing_empty_and_non_files() {
    let entries = vec![
        entry("there.md", 100, "hi"),
        entry("empty.md", 100, ""),
        FsEntry {
            file_name: "dir.md".to_string(),
            is_file: false,
            len: 1,
            mtime: 100,
            content: None,
        },
    ];
    assert!(Page::<NotLoaded>::find("there", &entries).is_some());
    assert!(Page::<NotLoaded>::find("missing", &entries).is_none());
    assert!(Page::<NotLoaded>::find("empty", &entries).is_none());
    assert!(Page::<NotLoaded>::find("dir", &entries).is_none());
}

#[test]
fn crlf_front_matter_is_recognised() {
    let entries = vec![entry("win.md", 100, "---\r\ntitle: X\r\n---\r\nbody")];
    let page = Page::<NotLoaded>::find("win", &entries).expect("found");
    let loaded = page.load(&entries).expect("loads");
    assert_eq!(loaded.title(), "X");
    assert_eq!(loaded.markdown(), "\r\nbody");
}

#[test]
fn mtime_text_forms() {
    let entries = vec![entry("note.md", 0, "hi")];
    let page = Page::<NotLoaded>::find("note", &entries).expect("found");
    assert_eq!(page.mtime_rfc3339(), "1970-01-01T00:00:00Z");
    assert_eq!(page.mtime_date(), "01 January 1970");
    assert_eq!(page.mtime_human(), "01 January 1970, 12:00 AM UTC");
}
