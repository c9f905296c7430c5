use comrak::plugins::syntect::SyntectAdapter;
use pkb::PkbError;
use pkb::page::FsEntry;
use pkb::web::{
    CachedHtml, expires_in, is_fresh, parse_if_modified_since, render_page, render_page_index,
    render_tag, render_tag_index, routes, to_decimal,
};

fn entry(file_name: &str, mtime: i64, content: &str) -> FsEntry {
    FsEntry {
        file_name: file_name.to_string(),
        is_file: true,
        len: content.len() as u64,
        mtime,
        content: Some(content.to_string()),
    }
}

#[test]
fn equal_timestamp_is_fresh() {
    let t = 1_600_000_000;
    assert!(is_fresh(Some(t), t));
}

#[test]
fn one_second_older_conditional_is_stale() {
    let t = 1_600_000_000;
    assert!(!is_fresh(Some(t - 1), t));
}

#[test]
fn missing_or_unparseable_conditional_is_stale() {
    assert_eq!(parse_if_modified_since(None), None);
    assert_eq!(parse_if_modified_since(Some("certainly not a date")), None);
    assert_eq!(parse_if_modified_since(Some("Thu, 01 Jan 1970 00:00:42")), None);
    assert!(!is_fresh(parse_if_modified_since(Some("garbage GMT")), 0));
}

#[test]
fn http_dates_round_trip_at_second_resolution() {
    let parsed = parse_if_modified_since(Some("Thu, 01 Jan 1970 00:00:42 GMT"));
    assert_eq!(parsed, Some(42));
    let response = CachedHtml::not_modified(42, 0);
    match response {
        CachedHtml::NotModified { cache_control, last_modified } => {
            assert_eq!(cache_control, "max-age=60, public");
            assert_eq!(last_modified, "Thu, 01 Jan 1970 00:00:42 GMT");
        }
        CachedHtml::Html { .. } => panic!("expected a bare not-modified response"),
    }
}

#[test]
fn decimal_and_cache_header_forms() {
    assert_eq!(to_decimal(0), "0");
    assert_eq!(to_decimal(60), "60");
    assert_eq!(to_decimal(18446744073709551615), "18446744073709551615");
    assert_eq!(expires_in(60), "max-age=60, public");
}

#[test]
fn render_page_gates_on_the_conditional_timestamp() {
    let entries = vec![entry("note.md", 500, "hello *world*\n")];
    let adapter = SyntectAdapter::new(Some("base16-ocean.dark"));

    match render_page("note", Some(500), 0, &entries, &adapter) {
        Ok(CachedHtml::NotModified { .. }) => {}
        other => panic!("expected not modified, got {:?}", other),
    }
    match render_page("note", Some(499), 0, &entries, &adapter) {
        Ok(CachedHtml::Html { body, last_modified, .. }) => {
            assert!(body.contains("<em>world</em>"));
            assert_eq!(last_modified, "Thu, 01 Jan 1970 00:08:20 GMT");
        }
        other => panic!("expected a full response, got {:?}", other),
    }
    match render_page("missing", None, 0, &entries, &adapter) {
        Err(PkbError::PageNotFound) => {}
        other => panic!("expected not found, got {:?}", other),
    }
}

#[test]
fn home_page_stales_when_any_page_changes() {
    let entries = vec![
        entry("home.md", 100, "welcome\n"),
        entry("news.md", 900, "news\n"),
    ];
    let adapter = SyntectAdapter::new(Some("base16-ocean.dark"));
    // the conditional matches home's own file time, but another page is newer
    match render_page("home", Some(100), 0, &entries, &adapter) {
        Ok(CachedHtml::Html { .. }) => {}
        other => panic!("expected a full response, got {:?}", other),
    }
    match render_page("home", Some(900), 0, &entries, &adapter) {
        Ok(CachedHtml::NotModified { .. }) => {}
        other => panic!("expected not modified, got {:?}", other),
    }
}

#[test]
fn last_modified_is_floored_at_the_build_date() {
    let entries = vec![entry("note.md", 500, "hello\n")];
    let adapter = SyntectAdapter::new(Some("base16-ocean.dark"));
    match render_page("note", None, 1_000, &entries, &adapter) {
        Ok(CachedHtml::Html { last_modified, .. }) => {
            assert_eq!(last_modified, "Thu, 01 Jan 1970 00:16:40 GMT");
        }
        other => panic!("expected a full response, got {:?}", other),
    }
}

#[test]
fn page_index_lists_visible_pages_sorted_by_name() {
    let entries = vec![
        entry("zeta.md", 100, "z\n"),
        entry("alpha.md", 300, "a\n"),
        entry("ghost.md", 200, "---\nhidden: true\n---\nboo\n"),
    ];
    match render_page_index(None, 0, &entries) {
        CachedHtml::Html { body, .. } => {
            assert_eq!(
                body,
                "<ul><li><a href=\"/alpha\">Alpha</a></li><li><a href=\"/zeta\">Zeta</a></li></ul>"
            );
        }
        other => panic!("expected a full response, got {:?}", other),
    }
    match render_page_index(Some(300), 0, &entries) {
        CachedHtml::NotModified { .. } => {}
        other => panic!("expected not modified, got {:?}", other),
    }
}

#[test]
fn tag_pages_render_and_gate() {
    let entries = vec![
        entry("b.md", 100, "---\ntags: [x]\n---\nb\n"),
        entry("a.md", 700, "---\ntags: [x, y]\n---\na\n"),
    ];
    match render_tag("x", None, 0, &entries) {
        Ok(CachedHtml::Html { body, .. }) => {
            assert_eq!(body, "<ul><li><a href=\"/a\">A</a></li><li><a href=\"/b\">B</a></li></ul>");
        }
        other => panic!("expected a full response, got {:?}", other),
    }
    match render_tag("x", Some(700), 0, &entries) {
        Ok(CachedHtml::NotModified { .. }) => {}
        other => panic!("expected not modified, got {:?}", other),
    }
    match render_tag("zzz", None, 0, &entries) {
        Err(PkbError::PageNotFound) => {}
        other => panic!("expected not found, got {:?}", other),
    }
    match render_tag_index(None, 0, &entries) {
        CachedHtml::Html { body, .. } => {
            assert_eq!(
                body,
                "<ul><li><a href=\"/tags/x\">x</a> <span class=\"badge lighten monospace\">2</span></li><li><a href=\"/tags/y\">y</a> <span class=\"badge lighten monospace\">1</span></li></ul>"
            );
        }
        other => panic!("expected a full response, got {:?}", other),
    }
}

#[test]
fn route_patterns_are_fixed() {
    let r = routes();
    let patterns: Vec<&str> = r.iter().map(|s| s.as_str()).collect();
    assert_eq!(patterns, vec!["/<name>", "/pages", "/tags/<name>", "/tags"]);
}

#[test]
fn gate_compares_the_build_floored_time() {
    // a conditional between the page's time and the build time is stale:
    // cached copies must never be considered fresher than the running binary
    let entries = vec![entry("note.md", 500, "hello\n")];
    let adapter = SyntectAdapter::new(Some("base16-ocean.dark"));
    match render_page("note", Some(700), 1_000, &entries, &adapter) {
        Ok(CachedHtml::Html { .. }) => {}
        other => panic!("expected a full response, got {:?}", other),
    }
    match render_page("note", Some(1_000), 1_000, &entries, &adapter) {
        Ok(CachedHtml::NotModified { .. }) => {}
        other => panic!("expected not modified, got {:?}", other),
    }
}
