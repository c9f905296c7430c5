use comrak::plugins::syntect::SyntectAdapter;
use pkb::decorators::{RecentEntry, enhance_markup};
use pkb::page::{FsEntry, NotLoaded, Page};
use pkb::templates::markdown;
use pkb::web::recent_entries;
use regex::Regex;

const HTML: &str = "<h1>Test</h1><recently-changed-list></recently-changed-list>";

fn entry(file_name: &str, mtime: i64, content: &str) -> FsEntry {
    FsEntry {
        file_name: file_name.to_string(),
        is_file: true,
        len: content.len() as u64,
        mtime,
        content: Some(content.to_string()),
    }
}

fn sample_recents() -> Vec<RecentEntry> {
    let entries = vec![
        entry("first-note.md", 1_600_000_000, "---\ntitle: First Note\n---\nbody"),
        entry("second-note.md", 1_700_000_000, "body"),
    ];
    let pages = Page::<NotLoaded>::recently_modified(5, &entries);
    recent_entries(&pages)
}

#[test]
fn test_custom_elements() {
    // Not so much a test as documentation that the renderer wraps the custom
    // element in a <p> tag.
    let md = "## Recently Updated Pages\n\n<recently-changed-list></recently-changed-list>\n";
    let adapter = SyntectAdapter::new(Some("base16-ocean.dark"));
    let html = markdown(md, &adapter);
    assert_eq!(
        html,
        "<h2>Recently Updated Pages</h2>\n<p><recently-changed-list></recently-changed-list></p>\n"
    )
}

#[test]
fn recently_changed_list() {
    // The custom element is replaced with a list of pages.
    let recents = sample_recents();
    let processed = enhance_markup(HTML, &recents);

    let regex = Regex::new(r#"<ul>(<li><a href="/[^"]+">[^<]+</a><span class="smaller-font lighten"> updated <abbr title="\d{4}-\d{2}-\d{2}T\d{2}:\d{2}:\d{2}Z">[^<]+</abbr></span></li>)+</ul>"#).unwrap();
    assert!(regex.is_match(&processed));
}

#[test]
fn recently_changed_list_strips_parent_p_tag() {
    // When rendering the Markdown to HTML the renderer wraps the custom
    // element in a <p>; that wrapper must be stripped.
    let html = "<h2>Recently Updated Pages</h2>\n<p><recently-changed-list></recently-changed-list></p>\n";
    let recents = sample_recents();
    let processed = enhance_markup(html, &recents);
    assert!(!processed.contains("<p>"));
}

#[test]
fn enhancing_markup_does_not_add_html_tag() {
    let markup = "<p>no HTML tag please</p>";
    let recents: Vec<RecentEntry> = Vec::new();
    let enhanced = enhance_markup(markup, &recents);
    assert_eq!(markup, enhanced);
}

#[test]
fn rendered_placeholder_yields_one_list_item_per_page() {
    // The full pipeline of the home page body: Markdown to HTML, then the
    // paragraph-wrapped placeholder replaced by exactly one list.
    let md = "## Recently Updated Pages\n\n<recently-changed-list></recently-changed-list>\n";
    let adapter = SyntectAdapter::new(Some("base16-ocean.dark"));
    let html = markdown(md, &adapter);
    let recents = sample_recents();
    let enhanced = enhance_markup(&html, &recents);

    assert!(!enhanced.contains("<p>"));
    assert_eq!(enhanced.matches("<ul>").count(), 1);
    assert_eq!(enhanced.matches("<li>").count(), recents.len());
}

#[test]
fn headings_receive_anchor_links() {
    let recents: Vec<RecentEntry> = Vec::new();
    let enhanced = enhance_markup("<h2>This: is an example! 😬</h2>", &recents);
    assert_eq!(
        enhanced,
        "<h2><a class=\"anchor\" href=\"#this-is-an-example-grimacing\" id=\"this-is-an-example-grimacing\"><span class=\"link-icon monospace\">#</span></a>This: is an example! 😬</h2>"
    );
}

#[test]
fn code_block_whitespace_is_trimmed() {
    let recents: Vec<RecentEntry> = Vec::new();
    let enhanced = enhance_markup(
        "<pre><code>\n<span>let x = 1;</span>\n</code></pre>",
        &recents,
    );
    assert_eq!(enhanced, "<pre><code><span>let x = 1;</span></code></pre>");
}

#[test]
fn recent_titles_fall_back_to_titlecased_names() {
    let recents = sample_recents();
    let titles: Vec<&str> = recents.iter().map(|e| e.title.as_str()).collect();
    // newest first: the second note has no front matter title
    assert_eq!(titles, vec!["Second-Note", "First Note"]);
}

#[test]
fn attributes_and_entities_round_trip() {
    let recents: Vec<RecentEntry> = Vec::new();
    let markup = "<p class=\"note\">a &amp; b &lt;c&gt;</p>";
    assert_eq!(enhance_markup(markup, &recents), markup);
}

#[test]
fn void_elements_and_stray_close_tags_are_tolerated() {
    let recents: Vec<RecentEntry> = Vec::new();
    assert_eq!(enhance_markup("a<br>b</em>", &recents), "a<br>b");
    assert_eq!(enhance_markup("<ul><li>one<li>two</ul>", &recents), "<ul><li>one<li>two</li></li></ul>");
}

#[test]
fn code_block_trim_keeps_text_between_elements() {
    // only the leading and trailing bare text runs go; text standing
    // between elements stays, while a code block whose whole content is one
    // bare text run loses it, being leading and trailing at once
    let recents: Vec<RecentEntry> = Vec::new();
    let enhanced = enhance_markup(
        "<pre><code>\n<span>let x</span> = <span>1;</span>\n\n</code></pre>",
        &recents,
    );
    assert_eq!(
        enhanced,
        "<pre><code><span>let x</span> = <span>1;</span></code></pre>"
    );
    let plain = enhance_markup("<pre><code>fn main() {}\n</code></pre>", &recents);
    assert_eq!(plain, "<pre><code></code></pre>");
}

#[test]
fn script_and_style_content_is_raw_text()  {
    // raw-text elements keep their content verbatim: no entity decoding on
    // the way in, no escaping on the way out, and no element parsing inside
    let recents: Vec<RecentEntry> = Vec::new();
    let markup = "<script>if (a && b < 2) { go(\"x\"); }</script>";
    assert_eq!(enhance_markup(markup, &recents), markup);
    let styled = "<style>a > b { color: red; }</style><p>after</p>";
    assert_eq!(enhance_markup(styled, &recents), styled);
}
