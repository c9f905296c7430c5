//! The request-facing layer: the freshness gate, the caching headers, and
//! the render entry points for a page, the page index, a tag, and the tag
//! index.
//!
//! A fresh conditional request short-circuits rendering and yields only the
//! caching headers; otherwise the page body is rendered, enhanced, and
//! returned with the same headers.  The outer page layout is the caller's.
use vstd::prelude::*;

use crate::PkbError;
use crate::dates::{format_http_date, http_date_of, http_date_secs, parse_http_date, valid_timestamp};
use crate::decorators::{RecentEntry, RecentEntryV, enhance_markup};
use crate::dom::{Attr, AttrV, Html, HtmlV, attr_views, deep_list, lemma_deep_list_index,
    lemma_deep_list_len, lemma_deep_list_singleton, lemma_deep_list_snoc};
use crate::page::{FsEntry, Loaded, LoadedPageV, NotLoaded, Page, entry_views, home_name,
    is_dir_max, loaded_views, md_suffix, spec_has_front_matter, spec_list_all, spec_lookup,
    spec_title};
use crate::tag::Tag;
use crate::templates::markdown;

verus! {

broadcast use vstd::std_specs::vec::group_vec_axioms, vstd::seq::axiom_seq_index_decreases;

/// The larger of two timestamps.
pub open spec fn max_ts(a: i64, b: i64) -> i64 {
    if a >= b {
        a
    } else {
        b
    }
}

/// A timestamp brought into the range the date formats take: the sane range
/// from 1970 up to year 9999.  Real modification times pass unchanged.
pub open spec fn spec_clamp_ts(t: i64) -> i64 {
    if t < 0 {
        0
    } else if t >= 253402300800 {
        253402300799
    } else {
        t
    }
}

/// Brings a timestamp into the formattable range.
pub fn clamp_ts(t: i64) -> (r: i64)
    ensures
        r == spec_clamp_ts(t),
        valid_timestamp(r),
{
    if t < 0 {
        0
    } else if t >= 253402300800 {
        253402300799
    } else {
        t
    }
}

/// The decimal digit character of a value below ten.
pub open spec fn spec_digit(n: int) -> char {
    ((('0' as u8) + n) as char)
}

/// The decimal form of a number.
pub open spec fn spec_decimal(n: int) -> Seq<char>
    decreases n,
{
    if n < 10 {
        seq![spec_digit(if n < 0 {
            0
        } else {
            n
        })]
    } else {
        spec_decimal(n / 10).push(spec_digit(n % 10))
    }
}

/// The decimal form of a number, as text.
pub fn to_decimal(n: u64) -> (r: String)
    ensures
        r@ == spec_decimal(n as int),
    decreases n,
{
    if n < 10 {
        let mut s = String::new();
        let d = (('0' as u8) + (n as u8)) as char;
        crate::string_ext::push_char(&mut s, d);
        proof {
            assert(s@ =~= spec_decimal(n as int));
        }
        s
    } else {
        let mut s = to_decimal(n / 10);
        let d = (('0' as u8) + ((n % 10) as u8)) as char;
        crate::string_ext::push_char(&mut s, d);
        s
    }
}

/// The Cache-Control value for a max-age in seconds.
pub open spec fn spec_cache_header(secs: int) -> Seq<char> {
    seq!['m', 'a', 'x', '-', 'a', 'g', 'e', '='] + spec_decimal(secs) + seq![
        ',',
        ' ',
        'p',
        'u',
        'b',
        'l',
        'i',
        'c',
    ]
}

/// The Cache-Control header value that caches a response for `secs` seconds
/// in any cache.
pub fn expires_in(secs: u64) -> (r: String)
    ensures
        r@ == spec_cache_header(secs as int),
{
    proof {
        reveal_strlit("max-age=");
        reveal_strlit(", public");
    }
    let mut r = "max-age=".to_owned();
    let d = to_decimal(secs);
    r.append(d.as_str());
    r.append(", public");
    proof {
        assert("max-age="@ =~= seq!['m', 'a', 'x', '-', 'a', 'g', 'e', '=']);
        assert(", public"@ =~= seq![',', ' ', 'p', 'u', 'b', 'l', 'i', 'c']);
        assert(r@ =~= spec_cache_header(secs as int));
    }
    r
}

/// How many seconds a response may be served from cache.
pub open spec fn cache_secs() -> int {
    60
}

/// A renderable response: either a bare not-modified answer carrying only
/// the caching headers, or the full body with the same headers.
#[derive(Debug)]
pub enum CachedHtml {
    NotModified { cache_control: String, last_modified: String },
    Html { cache_control: String, last_modified: String, body: String },
}

/// The Last-Modified stamp a response carries: the resource time floored at
/// the build time, in HTTP date form.
pub open spec fn spec_stamp(last_modified: i64, build_date: i64) -> Seq<char> {
    http_date_of(spec_clamp_ts(max_ts(last_modified, build_date)))
}

impl CachedHtml {
    /// A full response: the bounded max-age, the Last-Modified stamp floored
    /// at the build time, and the body.
    pub fn html(last_modified: i64, build_date: i64, content: String) -> (r: CachedHtml)
        ensures
            r matches CachedHtml::Html { cache_control, last_modified: lm, body } && (
            cache_control@ == spec_cache_header(cache_secs()) && lm@ == spec_stamp(
                last_modified,
                build_date,
            ) && body == content),
    {
        let stamp = clamp_ts(if last_modified >= build_date {
            last_modified
        } else {
            build_date
        });
        CachedHtml::Html {
            cache_control: expires_in(60),
            last_modified: format_http_date(stamp),
            body: content,
        }
    }

    /// A bare not-modified response with the same caching headers.
    pub fn not_modified(last_modified: i64, build_date: i64) -> (r: CachedHtml)
        ensures
            r matches CachedHtml::NotModified { cache_control, last_modified: lm } && (
            cache_control@ == spec_cache_header(cache_secs()) && lm@ == spec_stamp(
                last_modified,
                build_date,
            )),
    {
        let stamp = clamp_ts(if last_modified >= build_date {
            last_modified
        } else {
            build_date
        });
        CachedHtml::NotModified {
            cache_control: expires_in(60),
            last_modified: format_http_date(stamp),
        }
    }
}

/// Whether a resource is fresh for a conditional request: a conditional
/// timestamp is present and the given time — the resource's last-modified
/// time, floored at the build time by the callers — is at or before it, in
/// whole seconds.  No timestamp means no gating.
pub open spec fn spec_is_fresh(conditional: Option<i64>, last_modified: i64) -> bool {
    conditional matches Some(t) && last_modified <= t
}

/// The freshness gate: whether rendering can be skipped.
pub fn is_fresh(conditional: Option<i64>, last_modified: i64) -> (r: bool)
    ensures
        r == spec_is_fresh(conditional, last_modified),
{
    match conditional {
        Some(t) => last_modified <= t,
        None => false,
    }
}

/// Whether the text ends in the HTTP date suffix ` GMT`.
pub open spec fn spec_ends_gmt(s: Seq<char>) -> bool {
    s.len() >= 4 && s[s.len() - 4] == ' ' && s[s.len() - 3] == 'G' && s[s.len() - 2] == 'M'
        && s[s.len() - 1] == 'T'
}

/// Reads a conditional timestamp from an If-Modified-Since header value: the
/// value must end in ` GMT` and parse in the fixed HTTP date format;
/// anything else means no gating.
pub fn parse_if_modified_since(header: Option<&str>) -> (r: Option<i64>)
    ensures
        r == match header {
            Some(h) => if spec_ends_gmt(h@) {
                http_date_secs(h@)
            } else {
                None
            },
            None => None,
        },
{
    match header {
        Some(h) => {
            let n = h.unicode_len();
            if n >= 4 && h.get_char(n - 4) == ' ' && h.get_char(n - 3) == 'G' && h.get_char(n - 2)
                == 'M' && h.get_char(n - 1) == 'T' {
                parse_http_date(h)
            } else {
                None
            }
        },
        None => None,
    }
}

/// The route patterns the library's resources answer to, in mount order:
/// the page by name, the page index, the tag by name, the tag index.
pub fn routes() -> (r: Vec<String>)
    ensures
        r@.len() == 4,
        r@[0]@ == page_route(),
        r@[1]@ == page_index_route(),
        r@[2]@ == tag_route(),
        r@[3]@ == tag_index_route(),
{
    proof {
        reveal_strlit("/<name>");
        reveal_strlit("/pages");
        reveal_strlit("/tags/<name>");
        reveal_strlit("/tags");
        assert("/<name>"@ =~= page_route());
        assert("/pages"@ =~= page_index_route());
        assert("/tags/<name>"@ =~= tag_route());
        assert("/tags"@ =~= tag_index_route());
    }
    let mut r: Vec<String> = Vec::new();
    r.push("/<name>".to_owned());
    r.push("/pages".to_owned());
    r.push("/tags/<name>".to_owned());
    r.push("/tags".to_owned());
    r
}

/// The listing entries for the recently modified pages, one per page, in
/// order: the page name, its display title, and its modification time in
/// machine and human form (capped at the formats' range).
pub fn recent_entries(pages: &Vec<Page<Loaded>>) -> (r: Vec<RecentEntry>)
    ensures
        crate::decorators::recent_views(r@) == spec_recent_entries_of(loaded_views(pages@)),
        r@.len() == pages@.len(),
        forall|i: int|
            0 <= i < r@.len() ==> (#[trigger] r@[i])@ == spec_recent_entry(pages@[i]@),
{
    let mut r: Vec<RecentEntry> = Vec::new();
    let mut i: usize = 0;
    while i < pages.len()
        invariant
            i <= pages@.len(),
            r@.len() == i,
            forall|k: int| 0 <= k < i ==> (#[trigger] r@[k])@ == spec_recent_entry(pages@[k]@),
        decreases pages@.len() - i,
    {
        let p = &pages[i];
        let stamp = clamp_ts(p.mtime);
        let e = RecentEntry {
            name: p.name.clone(),
            title: p.title(),
            updated_rfc3339: crate::dates::format_rfc3339(stamp),
            updated_human: crate::dates::format_human_datetime(stamp),
        };
        r.push(e);
        i += 1;
    }
    proof {
        assert(crate::decorators::recent_views(r@) =~= spec_recent_entries_of(
            loaded_views(pages@),
        ));
    }
    r
}

/// The listing entry a loaded page yields: its name, display title, and
/// modification time in machine and human form, capped at the formats'
/// range.
pub open spec fn spec_recent_entry(p: LoadedPageV) -> RecentEntryV {
    RecentEntryV {
        name: p.name,
        title: spec_title(p),
        updated_rfc3339: crate::dates::rfc3339_of(spec_clamp_ts(p.mtime)),
        updated_human: crate::dates::human_datetime_of(spec_clamp_ts(p.mtime)),
    }
}

/// The listing entries of a list of loaded pages, in order.
pub open spec fn spec_recent_entries_of(l: Seq<LoadedPageV>) -> Seq<RecentEntryV> {
    l.map_values(|p: LoadedPageV| spec_recent_entry(p))
}

/// The recently-changed entries a snapshot yields: the visible prefix of its
/// pages, newest first, as listing entries.
pub open spec fn spec_recents(entries: Seq<crate::page::FsEntryV>) -> Seq<RecentEntryV> {
    spec_recent_entries_of(
        crate::page::spec_take_visible(
            crate::page::spec_load_pages(
                entries,
                crate::page::spec_sort_desc(spec_list_all(entries)),
            ),
            recently_modified_limit(),
        ),
    )
}

/// One item of a page listing: a link to the page by name, showing its
/// title.
pub open spec fn spec_page_link_item(p: LoadedPageV) -> HtmlV {
    HtmlV::Element {
        name: seq!['l', 'i'],
        attrs: Seq::empty(),
        children: seq![
            HtmlV::Element {
                name: seq!['a'],
                attrs: seq![
                    AttrV {
                        name: crate::decorators::href_attr_name(),
                        value: seq!['/'] + p.name,
                    },
                ],
                children: seq![HtmlV::Text { text: spec_title(p) }],
            },
        ],
    }
}

/// The items of a page listing, one per page, in order.
pub open spec fn spec_page_link_items(l: Seq<LoadedPageV>) -> Seq<HtmlV>
    decreases l,
{
    if l.len() == 0 {
        Seq::empty()
    } else {
        spec_page_link_items(l.drop_last()).push(spec_page_link_item(l.last()))
    }
}

/// A page listing: an unordered list of links.
pub open spec fn spec_page_list(l: Seq<LoadedPageV>) -> HtmlV {
    HtmlV::Element {
        name: seq!['u', 'l'],
        attrs: Seq::empty(),
        children: spec_page_link_items(l),
    }
}

/// Builds the page listing markup for a list of pages, in their order.
pub fn page_list_body(pages: &Vec<Page<Loaded>>) -> (r: String)
    ensures
        r@ == crate::dom::spec_ser_node(spec_page_list(loaded_views(pages@))),
{
    let mut items: Vec<Html> = Vec::new();
    let mut i: usize = 0;
    while i < pages.len()
        invariant
            i <= pages@.len(),
            deep_list(items@) == spec_page_link_items(loaded_views(pages@).subrange(0, i as int)),
        decreases pages@.len() - i,
    {
        proof {
            reveal_strlit("li");
            reveal_strlit("a");
            reveal_strlit("href");
            reveal_strlit("/");
            assert("li"@ =~= seq!['l', 'i']);
            assert("a"@ =~= seq!['a']);
            assert("href"@ =~= crate::decorators::href_attr_name());
            assert("/"@ =~= seq!['/']);
        }
        let p = &pages[i];
        let mut href = String::new();
        crate::string_ext::push_char(&mut href, '/');
        href.append(p.name.as_str());
        let mut a_attrs: Vec<Attr> = Vec::new();
        a_attrs.push(Attr { name: "href".to_owned(), value: href });
        let mut a_children: Vec<Html> = Vec::new();
        a_children.push(Html::Text { text: p.title() });
        let link = Html::Element { name: "a".to_owned(), attrs: a_attrs, children: a_children };
        let mut li_children: Vec<Html> = Vec::new();
        li_children.push(link);
        let li = Html::Element { name: "li".to_owned(), attrs: Vec::new(), children: li_children };
        proof {
            lemma_deep_list_singleton(a_children@[0]);
            assert(a_children@ =~= seq![a_children@[0]]);
            lemma_deep_list_singleton(li_children@[0]);
            assert(li_children@ =~= seq![li_children@[0]]);
            assert(attr_views(a_attrs@) =~= seq![
                AttrV { name: crate::decorators::href_attr_name(), value: seq!['/'] + pages@[i as int]@.name },
            ]);
            assert(attr_views(Seq::<Attr>::empty()) =~= Seq::<AttrV>::empty());
            assert(li.deep() =~~= spec_page_link_item(pages@[i as int]@));
        }
        let ghost olditems = items@;
        items.push(li);
        proof {
            lemma_deep_list_snoc(olditems, li);
            assert(items@ == olditems.push(li));
            let lv = loaded_views(pages@);
            let cur = lv.subrange(0, i + 1);
            assert(cur.drop_last() =~= lv.subrange(0, i as int));
            assert(cur.last() == pages@[i as int]@);
            assert(deep_list(items@) =~= spec_page_link_items(cur));
        }
        i += 1;
    }
    proof {
        assert(loaded_views(pages@).subrange(0, pages@.len() as int) =~= loaded_views(pages@));
    }
    proof {
        reveal_strlit("ul");
        assert("ul"@ =~= seq!['u', 'l']);
    }
    let ul = Html::Element { name: "ul".to_owned(), attrs: Vec::new(), children: items };
    let mut out = String::new();
    proof {
        assert(attr_views(Seq::<Attr>::empty()) =~= Seq::<AttrV>::empty());
        assert(ul.deep() =~~= spec_page_list(loaded_views(pages@)));
    }
    crate::dom::serialize_into(&ul, &mut out);
    proof {
        assert(out@ =~= crate::dom::spec_ser_node(spec_page_list(loaded_views(pages@))));
    }
    out
}

/// One item of the tag listing: a link to the tag and its page count.
pub open spec fn spec_tag_item(t: crate::tag::TagV) -> HtmlV {
    HtmlV::Element {
        name: seq!['l', 'i'],
        attrs: Seq::empty(),
        children: seq![
            HtmlV::Element {
                name: seq!['a'],
                attrs: seq![
                    AttrV {
                        name: crate::decorators::href_attr_name(),
                        value: seq!['/', 't', 'a', 'g', 's', '/'] + t.name,
                    },
                ],
                children: seq![HtmlV::Text { text: t.name }],
            },
            HtmlV::Text { text: seq![' '] },
            HtmlV::Element {
                name: seq!['s', 'p', 'a', 'n'],
                attrs: seq![
                    AttrV { name: crate::decorators::class_attr_name(), value: badge_class() },
                ],
                children: seq![HtmlV::Text { text: spec_decimal(t.pages.len() as int) }],
            },
        ],
    }
}

/// The class of a tag's page-count badge.
pub open spec fn badge_class() -> Seq<char> {
    seq!['b', 'a', 'd', 'g', 'e', ' ', 'l', 'i', 'g', 'h', 't', 'e', 'n', ' ', 'm', 'o', 'n', 'o', 's', 'p', 'a', 'c', 'e']
}

/// The items of the tag listing, one per tag, in order.
pub open spec fn spec_tag_items(l: Seq<crate::tag::TagV>) -> Seq<HtmlV>
    decreases l,
{
    if l.len() == 0 {
        Seq::empty()
    } else {
        spec_tag_items(l.drop_last()).push(spec_tag_item(l.last()))
    }
}

/// The tag listing: an unordered list of tags with their page counts.
pub open spec fn spec_tag_list(l: Seq<crate::tag::TagV>) -> HtmlV {
    HtmlV::Element { name: seq!['u', 'l'], attrs: Seq::empty(), children: spec_tag_items(l) }
}

/// Builds the tag listing markup for a list of tags, in their order.
pub fn tag_list_body(tags: &Vec<Tag>) -> (r: String)
    ensures
        r@ == crate::dom::spec_ser_node(spec_tag_list(tags@.map_values(|t: Tag| t@))),
{
    let mut items: Vec<Html> = Vec::new();
    let mut i: usize = 0;
    while i < tags.len()
        invariant
            i <= tags@.len(),
            deep_list(items@) == spec_tag_items(
                tags@.map_values(|t: Tag| t@).subrange(0, i as int),
            ),
        decreases tags@.len() - i,
    {
        proof {
            reveal_strlit("li");
            reveal_strlit("a");
            reveal_strlit("span");
            reveal_strlit("href");
            reveal_strlit("class");
            reveal_strlit("/tags/");
            reveal_strlit(" ");
            reveal_strlit("badge lighten monospace");
            assert("li"@ =~= seq!['l', 'i']);
            assert("a"@ =~= seq!['a']);
            assert("span"@ =~= seq!['s', 'p', 'a', 'n']);
            assert("href"@ =~= crate::decorators::href_attr_name());
            assert("class"@ =~= crate::decorators::class_attr_name());
            assert("/tags/"@ =~= seq!['/', 't', 'a', 'g', 's', '/']);
            assert(" "@ =~= seq![' ']);
            assert("badge lighten monospace"@ =~= badge_class());
        }
        let t = &tags[i];
        let mut href = "/tags/".to_owned();
        href.append(t.name.as_str());
        let mut a_attrs: Vec<Attr> = Vec::new();
        a_attrs.push(Attr { name: "href".to_owned(), value: href });
        let mut a_children: Vec<Html> = Vec::new();
        a_children.push(Html::Text { text: t.name.clone() });
        let link = Html::Element { name: "a".to_owned(), attrs: a_attrs, children: a_children };
        let count = to_decimal(t.page_count() as u64);
        let mut span_attrs: Vec<Attr> = Vec::new();
        span_attrs.push(
            Attr { name: "class".to_owned(), value: "badge lighten monospace".to_owned() },
        );
        let mut span_children: Vec<Html> = Vec::new();
        span_children.push(Html::Text { text: count });
        let span = Html::Element {
            name: "span".to_owned(),
            attrs: span_attrs,
            children: span_children,
        };
        let mut li_children: Vec<Html> = Vec::new();
        li_children.push(link);
        li_children.push(Html::Text { text: " ".to_owned() });
        li_children.push(span);
        let li = Html::Element { name: "li".to_owned(), attrs: Vec::new(), children: li_children };
        proof {
            lemma_deep_list_singleton(a_children@[0]);
            assert(a_children@ =~= seq![a_children@[0]]);
            lemma_deep_list_singleton(span_children@[0]);
            assert(span_children@ =~= seq![span_children@[0]]);
            lemma_deep_list_len(li_children@);
            lemma_deep_list_index(li_children@, 0);
            lemma_deep_list_index(li_children@, 1);
            lemma_deep_list_index(li_children@, 2);
            assert(attr_views(a_attrs@) =~= seq![
                AttrV {
                    name: crate::decorators::href_attr_name(),
                    value: seq!['/', 't', 'a', 'g', 's', '/'] + tags@[i as int]@.name,
                },
            ]);
            assert(attr_views(span_attrs@) =~= seq![
                AttrV { name: crate::decorators::class_attr_name(), value: badge_class() },
            ]);
            assert(attr_views(Seq::<Attr>::empty()) =~= Seq::<AttrV>::empty());
            assert(tags@[i as int]@.pages.len() == tags@[i as int].pages@.len());
            assert(deep_list(li_children@) =~~= seq![
                link.deep(),
                HtmlV::Text { text: seq![' '] },
                span.deep(),
            ]);
            assert(li.deep() =~~= spec_tag_item(tags@[i as int]@));
        }
        let ghost olditems = items@;
        items.push(li);
        proof {
            lemma_deep_list_snoc(olditems, li);
            assert(items@ == olditems.push(li));
            let tv = tags@.map_values(|t2: Tag| t2@);
            let cur = tv.subrange(0, i + 1);
            assert(cur.drop_last() =~= tv.subrange(0, i as int));
            assert(cur.last() == tags@[i as int]@);
            assert(deep_list(items@) =~= spec_tag_items(cur));
        }
        i += 1;
    }
    proof {
        let tv = tags@.map_values(|t2: Tag| t2@);
        assert(tv.subrange(0, tags@.len() as int) =~= tv);
    }
    proof {
        reveal_strlit("ul");
        assert("ul"@ =~= seq!['u', 'l']);
    }
    let ul = Html::Element { name: "ul".to_owned(), attrs: Vec::new(), children: items };
    let mut out = String::new();
    proof {
        assert(attr_views(Seq::<Attr>::empty()) =~= Seq::<AttrV>::empty());
        assert(ul.deep() =~~= spec_tag_list(tags@.map_values(|t2: Tag| t2@)));
    }
    crate::dom::serialize_into(&ul, &mut out);
    proof {
        assert(out@ =~= crate::dom::spec_ser_node(spec_tag_list(tags@.map_values(|t2: Tag| t2@))));
    }
    out
}

/// How many pages the recently-changed listing shows.
pub const RECENTLY_MODIFIED_LIMIT: usize = 5;

/// How many pages the recently-changed listing shows.
pub open spec fn recently_modified_limit() -> int {
    RECENTLY_MODIFIED_LIMIT as int
}

/// Whether this text is the listing of the snapshot's tag index: some tag
/// list, strictly sorted by name, whose every entry holds exactly the
/// non-hidden loadable pages carrying its name — at least one — and which
/// has an entry for every tag name a non-hidden loadable page carries.
/// Only one list fits, so the text is determined by the snapshot.
pub open spec fn is_tag_index_listing(body: Seq<char>, entries: Seq<crate::page::FsEntryV>) -> bool {
    exists|l: Seq<crate::tag::TagV>|
        {
            let lp = crate::page::spec_load_pages(entries, spec_list_all(entries));
            &&& body == #[trigger] crate::dom::spec_ser_node(spec_tag_list(l))
            &&& crate::tag::tags_strictly_sorted(l)
            &&& (forall|t: int|
                0 <= t < l.len() ==> (#[trigger] l[t]).pages == crate::tag::spec_tag_pages(
                    lp,
                    l[t].name,
                ) && l[t].pages.len() > 0)
            &&& (forall|p: int, j: int|
                0 <= p < lp.len() && !(#[trigger] lp[p]).hidden && 0 <= j
                    < lp[p].tags.len() ==> crate::tag::has_tag_entry(l, #[trigger] lp[p].tags[j]))
        }
}

/// Renders one page by name: not found when the snapshot has no such
/// regular, non-empty file; an I/O failure when it cannot be read or its
/// front matter does not parse; a bare not-modified answer when the
/// conditional timestamp says the caller's copy is fresh; otherwise the
/// enhanced body with caching headers.
pub fn render_page(
    name: &str,
    if_modified_since: Option<i64>,
    build_date: i64,
    entries: &Vec<FsEntry>,
    adapter: &comrak::plugins::syntect::SyntectAdapter,
) -> (r: Result<CachedHtml, PkbError>)
    ensures
        ({
            let found = spec_lookup(entry_views(entries@), name@ + md_suffix());
            match found {
                None => r matches Err(e) && e is PageNotFound,
                Some(en) => if !(en.is_file && en.len > 0) {
                    r matches Err(e) && e is PageNotFound
                } else {
                    match en.content {
                        None => r matches Err(e) && e is Io,
                        Some(c) => {
                            &&& ((r is Ok) <==> crate::page::spec_load_content(c) is Some)
                            &&& (r matches Err(e) ==> e is Io)
                            &&& (r matches Ok(ch) ==> (ch matches CachedHtml::Html {
                                body,
                                ..
                            } ==> exists|rendered: Seq<char>|
                                body@ == #[trigger] crate::decorators::spec_enhanced(
                                    crate::dom::spec_parse(rendered),
                                    spec_recents(entry_views(entries@)),
                                )))
                            &&& (r matches Ok(ch) ==> (name@ == home_name()
                                && spec_list_all(entry_views(entries@)).len() > 0
                                ==> forall|m: i64|
                                is_dir_max(entry_views(entries@), m) ==> ((ch is NotModified)
                                    <==> spec_is_fresh(if_modified_since, max_ts(m, build_date)))))
                            &&& (r matches Ok(ch) ==> (name@ != home_name() ==> {
                                &&& (ch is NotModified <==> spec_is_fresh(
                                    if_modified_since,
                                    max_ts(en.mtime, build_date),
                                ))
                                &&& (ch matches CachedHtml::NotModified {
                                    cache_control,
                                    last_modified,
                                } ==> (cache_control@ == spec_cache_header(cache_secs())
                                    && last_modified@ == spec_stamp(en.mtime, build_date)))
                                &&& (ch matches CachedHtml::Html {
                                    cache_control,
                                    last_modified,
                                    body,
                                } ==> (cache_control@ == spec_cache_header(cache_secs())
                                    && last_modified@ == spec_stamp(en.mtime, build_date)))
                            }))
                            &&& (r matches Ok(ch) && ch is NotModified
                                ==> if_modified_since is Some)
                        },
                    }
                },
            }
        }),
{
    let page = match Page::find(name, entries) {
        Some(p) => p,
        None => { return Err(PkbError::PageNotFound) },
    };
    let loaded = match page.load(entries) {
        Ok(l) => l,
        Err(e) => { return Err(e) },
    };
    let last_mod = loaded.last_modified(entries);
    proof {
        if loaded.name@ == home_name() && spec_list_all(entry_views(entries@)).len() > 0 {
            let pages = spec_list_all(entry_views(entries@));
            assert forall|m: i64| is_dir_max(entry_views(entries@), m) implies m == last_mod by {
                let i = choose|i: int| 0 <= i < pages.len() && pages[i].mtime == m;
                let j = choose|j: int| 0 <= j < pages.len() && pages[j].mtime == last_mod;
                assert(pages[i].mtime <= last_mod);
                assert(pages[j].mtime <= m);
            }
        }
    }
    let floored = if last_mod >= build_date {
        last_mod
    } else {
        build_date
    };
    if is_fresh(if_modified_since, floored) {
        return Ok(CachedHtml::not_modified(last_mod, build_date));
    }
    let html = markdown(loaded.markdown(), adapter);
    let recent_pages = Page::recently_modified(RECENTLY_MODIFIED_LIMIT, entries);
    let recents = recent_entries(&recent_pages);
    let body = enhance_markup(html.as_str(), &recents);
    proof {
        assert(crate::decorators::recent_views(recents@) == spec_recents(entry_views(entries@)));
    }
    Ok(CachedHtml::html(last_mod, build_date, body))
}

/// Renders the page index: all non-hidden pages that load, sorted by name,
/// as a listing — or a bare not-modified answer when the caller's copy is as
/// new as every page.
pub fn render_page_index(
    if_modified_since: Option<i64>,
    build_date: i64,
    entries: &Vec<FsEntry>,
) -> (r: CachedHtml)
    ensures
        r is NotModified ==> if_modified_since is Some,
        (r matches CachedHtml::NotModified { cache_control, .. } ==> cache_control@
            == spec_cache_header(cache_secs())),
        (r matches CachedHtml::Html { cache_control, .. } ==> cache_control@ == spec_cache_header(
            cache_secs(),
        )),
        spec_list_all(entry_views(entries@)).len() > 0 ==> forall|m: i64|
            is_dir_max(entry_views(entries@), m) ==> {
                &&& ((r is NotModified) <==> spec_is_fresh(
                    if_modified_since,
                    max_ts(m, build_date),
                ))
                &&& (r matches CachedHtml::NotModified { last_modified, .. } ==> last_modified@
                    == spec_stamp(m, build_date))
                &&& (r matches CachedHtml::Html { last_modified, .. } ==> last_modified@
                    == spec_stamp(m, build_date))
            },
        (r matches CachedHtml::Html { body, .. } ==> body@ == crate::dom::spec_ser_node(
            spec_page_list(
                crate::tag::spec_sort_by_name(
                    crate::page::spec_visible_pages(
                        crate::page::spec_load_pages(
                            entry_views(entries@),
                            spec_list_all(entry_views(entries@)),
                        ),
                    ),
                ),
            ),
        )),
{
    let last_mod = Page::last_modified_page(entries);
    proof {
        let pages = spec_list_all(entry_views(entries@));
        if pages.len() > 0 {
            assert forall|m: i64| is_dir_max(entry_views(entries@), m) implies m == last_mod by {
                let i = choose|i: int| 0 <= i < pages.len() && pages[i].mtime == m;
                let j = choose|j: int| 0 <= j < pages.len() && pages[j].mtime == last_mod;
                assert(pages[i].mtime <= last_mod);
                assert(pages[j].mtime <= m);
            }
        }
    }
    let floored = if last_mod >= build_date {
        last_mod
    } else {
        build_date
    };
    if is_fresh(if_modified_since, floored) {
        return CachedHtml::not_modified(last_mod, build_date);
    }
    let loaded = Tag::loaded_pages(entries);
    let mut visible: Vec<Page<Loaded>> = Vec::new();
    let mut i: usize = 0;
    while i < loaded.len()
        invariant
            i <= loaded@.len(),
            loaded_views(visible@) == crate::page::spec_visible_pages(
                loaded_views(loaded@).subrange(0, i as int),
            ),
        decreases loaded@.len() - i,
    {
        let ghost pre = loaded_views(loaded@).subrange(0, i as int);
        if !loaded[i].is_hidden() {
            visible.push(loaded[i].clone());
        }
        proof {
            let cur = loaded_views(loaded@).subrange(0, i + 1);
            assert(cur.drop_last() =~= pre);
            assert(cur.last() == loaded@[i as int]@);
            assert(loaded_views(visible@) =~= crate::page::spec_visible_pages(cur));
        }
        i += 1;
    }
    proof {
        assert(loaded_views(loaded@).subrange(0, loaded@.len() as int) =~= loaded_views(loaded@));
    }
    let sorted = crate::tag::sorted_by_name(visible);
    let body = page_list_body(&sorted);
    CachedHtml::html(last_mod, build_date, body)
}

/// Renders one tag by name: not found for an unknown tag; a bare
/// not-modified answer when the caller's copy is as new as every member
/// page; otherwise the tag's pages, sorted by name, as a listing.
pub fn render_tag(
    name: &str,
    if_modified_since: Option<i64>,
    build_date: i64,
    entries: &Vec<FsEntry>,
) -> (r: Result<CachedHtml, PkbError>)
    ensures
        ({
            let lp = crate::page::spec_load_pages(
                entry_views(entries@),
                spec_list_all(entry_views(entries@)),
            );
            &&& ((r is Err) <==> !crate::tag::spec_has_tag(lp, name@))
            &&& (r matches Err(e) ==> e is PageNotFound)
            &&& (r matches Ok(ch) ==> {
                &&& (ch is NotModified ==> if_modified_since is Some)
                &&& (ch matches CachedHtml::NotModified { cache_control, .. } ==> cache_control@
                    == spec_cache_header(cache_secs()))
                &&& (ch matches CachedHtml::Html { cache_control, .. } ==> cache_control@
                    == spec_cache_header(cache_secs()))
                &&& (forall|m: i64|
                    crate::tag::is_members_max(crate::tag::spec_tag_pages(lp, name@), m) ==> {
                        &&& ((ch is NotModified) <==> spec_is_fresh(
                            if_modified_since,
                            max_ts(m, build_date),
                        ))
                        &&& (ch matches CachedHtml::NotModified { last_modified, .. }
                            ==> last_modified@ == spec_stamp(m, build_date))
                        &&& (ch matches CachedHtml::Html { last_modified, .. } ==> last_modified@
                            == spec_stamp(m, build_date))
                    })
                &&& (ch matches CachedHtml::Html { body, .. } ==> body@
                    == crate::dom::spec_ser_node(
                    spec_page_list(
                        crate::tag::spec_sort_by_name(crate::tag::spec_tag_pages(lp, name@)),
                    ),
                ))
            })
        }),
{
    let tag = match Tag::find(name, entries) {
        Some(t) => t,
        None => { return Err(PkbError::PageNotFound) },
    };
    let last_mod = tag.last_modified();
    proof {
        let members = tag@.pages;
        assert forall|m: i64| crate::tag::is_members_max(members, m) implies m == last_mod by {
            let i = choose|i: int| 0 <= i < members.len() && (#[trigger] members[i]).mtime == m;
            let j = choose|j: int|
                0 <= j < members.len() && (#[trigger] members[j]).mtime == last_mod;
            assert(members[i].mtime <= last_mod);
            assert(members[j].mtime <= m);
        }
    }
    let floored = if last_mod >= build_date {
        last_mod
    } else {
        build_date
    };
    if is_fresh(if_modified_since, floored) {
        return Ok(CachedHtml::not_modified(last_mod, build_date));
    }
    let sorted = tag.sorted_pages();
    let body = page_list_body(&sorted);
    Ok(CachedHtml::html(last_mod, build_date, body))
}

/// Renders the tag index: every tag with its page count — or a bare
/// not-modified answer when the caller's copy is as new as every page.
pub fn render_tag_index(
    if_modified_since: Option<i64>,
    build_date: i64,
    entries: &Vec<FsEntry>,
) -> (r: CachedHtml)
    ensures
        r is NotModified ==> if_modified_since is Some,
        (r matches CachedHtml::NotModified { cache_control, .. } ==> cache_control@
            == spec_cache_header(cache_secs())),
        (r matches CachedHtml::Html { cache_control, .. } ==> cache_control@ == spec_cache_header(
            cache_secs(),
        )),
        spec_list_all(entry_views(entries@)).len() > 0 ==> forall|m: i64|
            is_dir_max(entry_views(entries@), m) ==> {
                &&& ((r is NotModified) <==> spec_is_fresh(
                    if_modified_since,
                    max_ts(m, build_date),
                ))
                &&& (r matches CachedHtml::NotModified { last_modified, .. } ==> last_modified@
                    == spec_stamp(m, build_date))
                &&& (r matches CachedHtml::Html { last_modified, .. } ==> last_modified@
                    == spec_stamp(m, build_date))
            },
        (r matches CachedHtml::Html { body, .. } ==> is_tag_index_listing(body@, entry_views(entries@))),
{
    let last_mod = Page::last_modified_page(entries);
    proof {
        let pages = spec_list_all(entry_views(entries@));
        if pages.len() > 0 {
            assert forall|m: i64| is_dir_max(entry_views(entries@), m) implies m == last_mod by {
                let i = choose|i: int| 0 <= i < pages.len() && pages[i].mtime == m;
                let j = choose|j: int| 0 <= j < pages.len() && pages[j].mtime == last_mod;
                assert(pages[i].mtime <= last_mod);
                assert(pages[j].mtime <= m);
            }
        }
    }
    let floored = if last_mod >= build_date {
        last_mod
    } else {
        build_date
    };
    if is_fresh(if_modified_since, floored) {
        return CachedHtml::not_modified(last_mod, build_date);
    }
    let tags = Tag::all(entries);
    let body = tag_list_body(&tags);
    proof {
        let l = tags@.map_values(|t2: Tag| t2@);
        assert forall|t: int| 0 <= t < l.len() implies (#[trigger] l[t]) == tags@[t]@ by {}
        assert(is_tag_index_listing(body@, entry_views(entries@))) by {
            assert(body@ == crate::dom::spec_ser_node(spec_tag_list(l)));
        }
    }
    CachedHtml::html(last_mod, build_date, body)
}

/// The pattern of the page route.
pub open spec fn page_route() -> Seq<char> {
    seq!['/', '<', 'n', 'a', 'm', 'e', '>']
}

/// The pattern of the page index route.
pub open spec fn page_index_route() -> Seq<char> {
    seq!['/', 'p', 'a', 'g', 'e', 's']
}

/// The pattern of the tag route.
pub open spec fn tag_route() -> Seq<char> {
    seq!['/', 't', 'a', 'g', 's', '/', '<', 'n', 'a', 'm', 'e', '>']
}

/// The pattern of the tag index route.
pub open spec fn tag_index_route() -> Seq<char> {
    seq!['/', 't', 'a', 'g', 's']
}

} // verus!
