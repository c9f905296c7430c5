use pkb::page::FsEntry;
use pkb::tag::Tag;

fn entry(file_name: &str, mtime: i64, content: &str) -> FsEntry {
    FsEntry {
        file_name: file_name.to_string(),
        is_file: true,
        len: content.len() as u64,
        mtime,
        content: Some(content.to_string()),
    }
}

#[test]
fn page_appears_under_each_of_its_tags() {
    let entries = vec![
        entry("multi.md", 100, "---\ntags: [a, b]\n---\nbody"),
        entry("other.md", 200, "---\ntags: [b]\n---\nbody"),
    ];
    let under_a = Tag::find("a", &entries).expect("tag a exists");
    let names_a: Vec<&str> = under_a.pages.iter().map(|p| p.name.as_str()).collect();
    assert_eq!(names_a, vec!["multi"]);

    let under_b = Tag::find("b", &entries).expect("tag b exists");
    let names_b: Vec<&str> = under_b.pages.iter().map(|p| p.name.as_str()).collect();
    assert_eq!(names_b, vec!["multi", "other"]);
}

#[test]
fn tags_are_sorted_and_unknown_tag_is_absent() {
    let entries = vec![
        entry("one.md", 100, "---\ntags: [zebra, apple]\n---\nbody"),
        entry("two.md", 200, "---\ntags: [mango]\n---\nbody"),
    ];
    let tags = Tag::all(&entries);
    let names: Vec<&str> = tags.iter().map(|t| t.name.as_str()).collect();
    assert_eq!(names, vec!["apple", "mango", "zebra"]);
    assert!(Tag::find("durian", &entries).is_none());
}

#[test]
fn hidden_pages_do_not_reach_the_tag_index() {
    let entries = vec![
        entry("shown.md", 100, "---\ntags: [t]\n---\nbody"),
        entry("ghost.md", 200, "---\ntags: [t, only-here]\nhidden: true\n---\nbody"),
    ];
    let t = Tag::find("t", &entries).expect("tag t exists");
    let names: Vec<&str> = t.pages.iter().map(|p| p.name.as_str()).collect();
    assert_eq!(names, vec!["shown"]);
    assert!(Tag::find("only-here", &entries).is_none());
}

#[test]
fn sorted_pages_is_lexicographic_by_name() {
    let entries = vec![
        entry("zeta.md", 100, "---\ntags: [x]\n---\nbody"),
        entry("alpha.md", 300, "---\ntags: [x]\n---\nbody"),
        entry("mid.md", 200, "---\ntags: [x]\n---\nbody"),
    ];
    let t = Tag::find("x", &entries).expect("tag x exists");
    let sorted = t.sorted_pages();
    let names: Vec<&str> = sorted.iter().map(|p| p.name.as_str()).collect();
    assert_eq!(names, vec!["alpha", "mid", "zeta"]);
    // the copy is independent of the membership order
    let member_names: Vec<&str> = t.pages.iter().map(|p| p.name.as_str()).collect();
    assert_eq!(member_names, vec!["zeta", "alpha", "mid"]);
}

#[test]
fn page_count_equals_member_count() {
    let entries = vec![
        entry("a.md", 100, "---\ntags: [x]\n---\nbody"),
        entry("b.md", 200, "---\ntags: [x]\n---\nbody"),
        entry("c.md", 300, "---\ntags: [y]\n---\nbody"),
    ];
    let x = Tag::find("x", &entries).expect("tag x exists");
    assert_eq!(x.page_count(), 2);
    let y = Tag::find("y", &entries).expect("tag y exists");
    assert_eq!(y.page_count(), 1);
}

#[test]
fn tag_last_modified_is_the_member_maximum() {
    let entries = vec![
        entry("a.md", 100, "---\ntags: [x]\n---\nbody"),
        entry("b.md", 700, "---\ntags: [x]\n---\nbody"),
        entry("c.md", 900, "---\ntags: [y]\n---\nbody"),
    ];
    let x = Tag::find("x", &entries).expect("tag x exists");
    assert_eq!(x.last_modified(), 700);
}
