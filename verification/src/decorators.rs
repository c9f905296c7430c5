//! Enhancement of rendered HTML, in three passes over the fragment tree:
//! anchors are prepended to headings, the recently-changed placeholder is
//! expanded into a list of pages, and incidental whitespace inside
//! highlighted code blocks is removed.
use vstd::prelude::*;

use crate::dom::{
    Attr, AttrV, Html, HtmlV, attr_views, deep_list, lemma_deep_list_index, lemma_deep_list_len,
    lemma_deep_list_singleton, lemma_deep_list_snoc, parse_fragment, serialize_list, spec_ser_list,
};
use crate::string_ext::{push_char, slug_of, spec_slug_of};

verus! {

broadcast use vstd::std_specs::vec::group_vec_axioms, vstd::seq::axiom_seq_index_decreases;

/// Whether this is a heading element name, `h1` through `h6`.
pub open spec fn is_heading_name(name: Seq<char>) -> bool {
    name.len() == 2 && name[0] == 'h' && ('1' <= name[1] && name[1] <= '6')
}

/// The flattened text content of a node: its text, and its descendants'.
pub open spec fn spec_text_of(n: HtmlV) -> Seq<char>
    decreases n via spec_text_of_decreases
{
    match n {
        HtmlV::Text { text } => text,
        HtmlV::Element { children, .. } => spec_text_of_list(children),
    }
}

#[via_fn]
proof fn spec_text_of_decreases(n: HtmlV) {
    match n {
        HtmlV::Element { name, attrs, children } => {
            assert(decreases_to!(n => children));
        },
        _ => {},
    }
}

/// The flattened text content of a list of nodes, left to right.
pub open spec fn spec_text_of_list(l: Seq<HtmlV>) -> Seq<char>
    decreases l,
{
    if l.len() == 0 {
        Seq::empty()
    } else {
        spec_text_of_list(l.drop_last()) + spec_text_of(l.last())
    }
}

/// The anchor element a heading receives: a link to its own identifier,
/// holding a small decorative marker span.
pub open spec fn spec_anchor(id: Seq<char>) -> HtmlV {
    HtmlV::Element {
        name: seq!['a'],
        attrs: seq![
            AttrV { name: class_attr_name(), value: anchor_class() },
            AttrV { name: href_attr_name(), value: seq!['#'] + id },
            AttrV { name: id_attr_name(), value: id },
        ],
        children: seq![
            HtmlV::Element {
                name: seq!['s', 'p', 'a', 'n'],
                attrs: seq![AttrV { name: class_attr_name(), value: link_icon_class() }],
                children: seq![HtmlV::Text { text: seq!['#'] }],
            },
        ],
    }
}

/// The characters of the `class` attribute name.
pub open spec fn class_attr_name() -> Seq<char> {
    seq!['c', 'l', 'a', 's', 's']
}

/// The characters of the `href` attribute name.
pub open spec fn href_attr_name() -> Seq<char> {
    seq!['h', 'r', 'e', 'f']
}

/// The characters of the `id` attribute name.
pub open spec fn id_attr_name() -> Seq<char> {
    seq!['i', 'd']
}

/// The class of a heading anchor.
pub open spec fn anchor_class() -> Seq<char> {
    seq!['a', 'n', 'c', 'h', 'o', 'r']
}

/// The class of the marker span inside a heading anchor.
pub open spec fn link_icon_class() -> Seq<char> {
    seq!['l', 'i', 'n', 'k', '-', 'i', 'c', 'o', 'n', ' ', 'm', 'o', 'n', 'o', 's', 'p', 'a', 'c', 'e']
}

/// The heading-anchor pass over one node: every heading gets an anchor for
/// its original text prepended to its (recursively processed) children.
pub open spec fn spec_link_node(n: HtmlV) -> HtmlV
    decreases n via spec_link_node_decreases
{
    match n {
        HtmlV::Text { .. } => n,
        HtmlV::Element { name, attrs, children } => {
            let done = spec_link_list(children);
            HtmlV::Element {
                name,
                attrs,
                children: if is_heading_name(name) {
                    seq![spec_anchor(spec_slug_of(spec_text_of_list(children)))] + done
                } else {
                    done
                },
            }
        },
    }
}

#[via_fn]
proof fn spec_link_node_decreases(n: HtmlV) {
    match n {
        HtmlV::Element { name, attrs, children } => {
            assert(decreases_to!(n => children));
        },
        _ => {},
    }
}

/// The heading-anchor pass over a list of nodes.
pub open spec fn spec_link_list(l: Seq<HtmlV>) -> Seq<HtmlV>
    decreases l,
{
    if l.len() == 0 {
        Seq::empty()
    } else {
        spec_link_list(l.drop_last()).push(spec_link_node(l.last()))
    }
}

/// Appends the flattened text content of one node.
fn text_into(n: &Html, out: &mut String)
    ensures
        final(out)@ == old(out)@ + spec_text_of(n.deep()),
    decreases *n,
{
    match n {
        Html::Text { text } => {
            out.append(text.as_str());
        },
        Html::Element { name, attrs, children } => {
            let ghost base = out@;
            let mut i: usize = 0;
            proof {
                assert(base + spec_text_of_list(deep_list(children@).subrange(0, 0)) =~= base);
            }
            while i < children.len()
                invariant
                    i <= children@.len(),
                    *n matches Html::Element { children: c2, .. } && c2 == *children,
                    out@ == base + spec_text_of_list(deep_list(children@).subrange(0, i as int)),
                decreases children@.len() - i,
            {
                proof {
                    assert(decreases_to!(*n => *children));
                    assert(decreases_to!(*children => children[i as int]));
                }
                text_into(&children[i], out);
                proof {
                    lemma_deep_list_len(children@);
                    lemma_deep_list_index(children@, i as int);
                    let vs = deep_list(children@);
                    let cur = vs.subrange(0, i + 1);
                    assert(cur.drop_last() =~= vs.subrange(0, i as int));
                    assert(cur.last() == children@[i as int].deep());
                    assert(out@ =~= base + spec_text_of_list(cur));
                }
                i += 1;
            }
            proof {
                lemma_deep_list_len(children@);
                assert(deep_list(children@).subrange(0, children@.len() as int) =~= deep_list(
                    children@,
                ));
            }
        },
    }
}

/// The flattened text content of a list of nodes.
fn text_content_list(nodes: &Vec<Html>) -> (r: String)
    ensures
        r@ == spec_text_of_list(deep_list(nodes@)),
{
    let mut out = String::new();
    let mut i: usize = 0;
    proof {
        assert(out@ + spec_text_of_list(deep_list(nodes@).subrange(0, 0)) =~= out@);
    }
    while i < nodes.len()
        invariant
            i <= nodes@.len(),
            out@ == spec_text_of_list(deep_list(nodes@).subrange(0, i as int)),
        decreases nodes@.len() - i,
    {
        text_into(&nodes[i], &mut out);
        proof {
            lemma_deep_list_len(nodes@);
            lemma_deep_list_index(nodes@, i as int);
            let vs = deep_list(nodes@);
            let cur = vs.subrange(0, i + 1);
            assert(cur.drop_last() =~= vs.subrange(0, i as int));
            assert(cur.last() == nodes@[i as int].deep());
            assert(out@ =~= spec_text_of_list(cur));
        }
        i += 1;
    }
    proof {
        lemma_deep_list_len(nodes@);
        assert(deep_list(nodes@).subrange(0, nodes@.len() as int) =~= deep_list(nodes@));
    }
    out
}

/// An exact copy of an attribute list.
fn clone_attrs(attrs: &Vec<Attr>) -> (r: Vec<Attr>)
    ensures
        attr_views(r@) == attr_views(attrs@),
{
    let mut r: Vec<Attr> = Vec::new();
    let mut i: usize = 0;
    while i < attrs.len()
        invariant
            i <= attrs@.len(),
            r@.len() == i,
            forall|k: int| 0 <= k < i ==> (#[trigger] r@[k]).deep() == attrs@[k].deep(),
        decreases attrs@.len() - i,
    {
        r.push(Attr { name: attrs[i].name.clone(), value: attrs[i].value.clone() });
        i += 1;
    }
    proof {
        assert(attr_views(r@) =~= attr_views(attrs@));
    }
    r
}

/// Whether this element name is a heading.
fn is_heading(name: &str) -> (r: bool)
    ensures
        r == is_heading_name(name@),
{
    let n = name.unicode_len();
    if n != 2 {
        return false;
    }
    let c0 = name.get_char(0);
    let c1 = name.get_char(1);
    c0 == 'h' && '1' <= c1 && c1 <= '6'
}

/// Builds the anchor element for a heading identifier.
fn build_anchor(id: String) -> (r: Html)
    ensures
        r.deep() == spec_anchor(id@),
{
    proof {
        reveal_strlit("a");
        reveal_strlit("span");
        reveal_strlit("class");
        reveal_strlit("href");
        reveal_strlit("id");
        reveal_strlit("anchor");
        reveal_strlit("link-icon monospace");
        reveal_strlit("#");
    }
    let mut span_attrs: Vec<Attr> = Vec::new();
    span_attrs.push(Attr { name: "class".to_owned(), value: "link-icon monospace".to_owned() });
    let mut span_children: Vec<Html> = Vec::new();
    span_children.push(Html::Text { text: "#".to_owned() });
    let span = Html::Element {
        name: "span".to_owned(),
        attrs: span_attrs,
        children: span_children,
    };
    let mut href = String::new();
    push_char(&mut href, '#');
    href.append(id.as_str());
    let mut a_attrs: Vec<Attr> = Vec::new();
    a_attrs.push(Attr { name: "class".to_owned(), value: "anchor".to_owned() });
    a_attrs.push(Attr { name: "href".to_owned(), value: href });
    a_attrs.push(Attr { name: "id".to_owned(), value: id });
    let mut a_children: Vec<Html> = Vec::new();
    a_children.push(span);
    let r = Html::Element { name: "a".to_owned(), attrs: a_attrs, children: a_children };
    proof {
        assert("a"@ =~= seq!['a']);
        assert("span"@ =~= seq!['s', 'p', 'a', 'n']);
        assert("class"@ =~= class_attr_name());
        assert("href"@ =~= href_attr_name());
        assert("id"@ =~= id_attr_name());
        assert("anchor"@ =~= anchor_class());
        assert("link-icon monospace"@ =~= link_icon_class());
        assert("#"@ =~= seq!['#']);
        assert(("#"@ + id@) =~= (seq!['#'] + id@));
        let sv = span.deep();
        assert(sv matches HtmlV::Element { name, attrs, children } ==> true);
        lemma_deep_list_singleton(span_children@[0]);
        assert(span_children@ =~= seq![span_children@[0]]);
        assert(deep_list(span_children@) =~= seq![HtmlV::Text { text: seq!['#'] }]);
        assert(attr_views(span_attrs@) =~= seq![
            AttrV { name: class_attr_name(), value: link_icon_class() },
        ]);
        assert(attr_views(a_attrs@) =~= seq![
            AttrV { name: class_attr_name(), value: anchor_class() },
            AttrV { name: href_attr_name(), value: seq!['#'] + id@ },
            AttrV { name: id_attr_name(), value: id@ },
        ]);
        lemma_deep_list_singleton(a_children@[0]);
        assert(a_children@ =~= seq![a_children@[0]]);
        assert(deep_list(a_children@) =~= seq![span.deep()]);
        assert(r.deep() =~~= spec_anchor(id@));
    }
    r
}

/// The heading-anchor pass over one node.
fn link_node(n: &Html) -> (r: Html)
    ensures
        r.deep() == spec_link_node(n.deep()),
    decreases *n,
{
    match n {
        Html::Text { text } => Html::Text { text: text.clone() },
        Html::Element { name, attrs, children } => {
            let mut newc: Vec<Html> = Vec::new();
            let ghost pre: Seq<HtmlV> = if is_heading_name(name@) {
                seq![spec_anchor(spec_slug_of(spec_text_of_list(deep_list(children@))))]
            } else {
                Seq::empty()
            };
            if is_heading(name.as_str()) {
                let txt = text_content_list(children);
                let id = slug_of(txt.as_str());
                let anchor = build_anchor(id);
                newc.push(anchor);
                proof {
                    lemma_deep_list_singleton(newc@[0]);
                    assert(newc@ =~= seq![newc@[0]]);
                    assert(deep_list(newc@) =~= pre);
                }
            } else {
                proof {
                    assert(deep_list(newc@) =~= pre);
                }
            }
            let mut i: usize = 0;
            proof {
                assert(pre + spec_link_list(deep_list(children@).subrange(0, 0)) =~= pre);
            }
            while i < children.len()
                invariant
                    i <= children@.len(),
                    *n matches Html::Element { children: c2, .. } && c2 == *children,
                    deep_list(newc@) == pre + spec_link_list(
                        deep_list(children@).subrange(0, i as int),
                    ),
                decreases children@.len() - i,
            {
                proof {
                    assert(decreases_to!(*n => *children));
                    assert(decreases_to!(*children => children[i as int]));
                }
                let ghost oldn = newc@;
                let child = link_node(&children[i]);
                newc.push(child);
                proof {
                    lemma_deep_list_len(children@);
                    lemma_deep_list_index(children@, i as int);
                    let vs = deep_list(children@);
                    let cur = vs.subrange(0, i + 1);
                    assert(cur.drop_last() =~= vs.subrange(0, i as int));
                    assert(cur.last() == children@[i as int].deep());
                    lemma_deep_list_snoc(oldn, child);
                    assert(newc@ == oldn.push(child));
                    assert(deep_list(newc@) =~= pre + spec_link_list(cur));
                }
                i += 1;
            }
            proof {
                lemma_deep_list_len(children@);
                assert(deep_list(children@).subrange(0, children@.len() as int) =~= deep_list(
                    children@,
                ));
            }
            let r = Html::Element {
                name: name.clone(),
                attrs: clone_attrs(attrs),
                children: newc,
            };
            proof {
                assert(r.deep() =~~= spec_link_node(n.deep()));
            }
            r
        },
    }
}

/// One entry of the recently-changed listing: the page name, its display
/// title, and its modification time in machine and human form.
pub struct RecentEntry {
    pub name: String,
    pub title: String,
    pub updated_rfc3339: String,
    pub updated_human: String,
}

/// The mathematical view of a listing entry.
pub struct RecentEntryV {
    pub name: Seq<char>,
    pub title: Seq<char>,
    pub updated_rfc3339: Seq<char>,
    pub updated_human: Seq<char>,
}

impl View for RecentEntry {
    type V = RecentEntryV;

    open spec fn view(&self) -> RecentEntryV {
        RecentEntryV {
            name: self.name@,
            title: self.title@,
            updated_rfc3339: self.updated_rfc3339@,
            updated_human: self.updated_human@,
        }
    }
}

/// The views of a list of entries.
pub open spec fn recent_views(l: Seq<RecentEntry>) -> Seq<RecentEntryV> {
    l.map_values(|e: RecentEntry| e@)
}

/// The name of the placeholder element.
pub open spec fn rcl_name() -> Seq<char> {
    seq![
        'r', 'e', 'c', 'e', 'n', 't', 'l', 'y', '-', 'c', 'h', 'a', 'n', 'g', 'e', 'd', '-', 'l',
        'i', 's', 't',
    ]
}

/// Whether this node is the placeholder element.
pub open spec fn is_rcl(n: HtmlV) -> bool {
    n matches HtmlV::Element { name, .. } && name == rcl_name()
}

/// Whether this node is a paragraph that directly holds a placeholder — the
/// implicit wrapper the Markdown renderer puts around a bare block-level
/// custom element.
pub open spec fn is_p_with_rcl(n: HtmlV) -> bool {
    n matches HtmlV::Element { name, children, .. } && name == seq!['p'] && exists|i: int|
        0 <= i < children.len() && is_rcl(#[trigger] children[i])
}

/// The class of the annotation span in a listing item.
pub open spec fn lighten_class() -> Seq<char> {
    seq!['s', 'm', 'a', 'l', 'l', 'e', 'r', '-', 'f', 'o', 'n', 't', ' ', 'l', 'i', 'g', 'h', 't', 'e', 'n']
}

/// The text between a listing link and its timestamp.
pub open spec fn updated_text() -> Seq<char> {
    seq![' ', 'u', 'p', 'd', 'a', 't', 'e', 'd', ' ']
}

/// The characters of the `title` attribute name.
pub open spec fn title_attr_name() -> Seq<char> {
    seq!['t', 'i', 't', 'l', 'e']
}

/// One item of the recently-changed listing: a link to the page by name
/// showing its title, and an annotation with the modification time, machine
/// readable in the `abbr` title and human readable as its text.
pub open spec fn spec_recent_item(e: RecentEntryV) -> HtmlV {
    HtmlV::Element {
        name: seq!['l', 'i'],
        attrs: Seq::empty(),
        children: seq![
            HtmlV::Element {
                name: seq!['a'],
                attrs: seq![AttrV { name: href_attr_name(), value: seq!['/'] + e.name }],
                children: seq![HtmlV::Text { text: e.title }],
            },
            HtmlV::Element {
                name: seq!['s', 'p', 'a', 'n'],
                attrs: seq![AttrV { name: class_attr_name(), value: lighten_class() }],
                children: seq![
                    HtmlV::Text { text: updated_text() },
                    HtmlV::Element {
                        name: seq!['a', 'b', 'b', 'r'],
                        attrs: seq![
                            AttrV { name: title_attr_name(), value: e.updated_rfc3339 },
                        ],
                        children: seq![HtmlV::Text { text: e.updated_human }],
                    },
                ],
            },
        ],
    }
}

/// The items of the listing, one per entry, in order.
pub open spec fn spec_recent_items(l: Seq<RecentEntryV>) -> Seq<HtmlV>
    decreases l,
{
    if l.len() == 0 {
        Seq::empty()
    } else {
        spec_recent_items(l.drop_last()).push(spec_recent_item(l.last()))
    }
}

/// The whole listing: an unordered list of the items.
pub open spec fn spec_recent_list(l: Seq<RecentEntryV>) -> HtmlV {
    HtmlV::Element { name: seq!['u', 'l'], attrs: Seq::empty(), children: spec_recent_items(l) }
}

/// The placeholder-expansion pass over one node that is itself kept: its
/// descendants are expanded.
pub open spec fn spec_expand_node(n: HtmlV, ul: HtmlV) -> HtmlV
    decreases n via spec_expand_node_decreases
{
    match n {
        HtmlV::Text { .. } => n,
        HtmlV::Element { name, attrs, children } => HtmlV::Element {
            name,
            attrs,
            children: spec_expand_list(children, ul),
        },
    }
}

#[via_fn]
proof fn spec_expand_node_decreases(n: HtmlV, ul: HtmlV) {
    match n {
        HtmlV::Element { name, attrs, children } => {
            assert(decreases_to!(n, ul => children));
        },
        _ => {},
    }
}

/// The placeholder-expansion pass over a list of nodes: a placeholder — or
/// the paragraph implicitly wrapping one — becomes the listing; everything
/// else is kept with its descendants expanded.
pub open spec fn spec_expand_list(l: Seq<HtmlV>, ul: HtmlV) -> Seq<HtmlV>
    decreases l,
{
    if l.len() == 0 {
        Seq::empty()
    } else {
        spec_expand_list(l.drop_last(), ul).push(
            if is_rcl(l.last()) || is_p_with_rcl(l.last()) {
                ul
            } else {
                spec_expand_node(l.last(), ul)
            },
        )
    }
}

/// Whether this node is a bare text node.
pub open spec fn is_text_node(n: HtmlV) -> bool {
    n is Text
}

/// How many bare text nodes open the list.
pub open spec fn spec_leading_texts(l: Seq<HtmlV>) -> int
    decreases l.len(),
{
    if l.len() > 0 && is_text_node(l.first()) {
        1 + spec_leading_texts(l.drop_first())
    } else {
        0
    }
}

/// How many bare text nodes close the list.
pub open spec fn spec_trailing_texts(l: Seq<HtmlV>) -> int
    decreases l.len(),
{
    if l.len() > 0 && is_text_node(l.last()) {
        1 + spec_trailing_texts(l.drop_last())
    } else {
        0
    }
}

/// The code-block whitespace pass over one node.  `in_pre` says whether some
/// ancestor is a `pre` element; inside such a `code` element the leading and
/// trailing runs of bare text children — the incidental newlines the
/// renderer leaves around the highlighted spans — are removed, and text
/// standing between elements is kept.
pub open spec fn spec_trim_node(n: HtmlV, in_pre: bool) -> HtmlV
    decreases n, 0int via spec_trim_node_decreases
{
    match n {
        HtmlV::Text { .. } => n,
        HtmlV::Element { name, attrs, children } => {
            let inp = in_pre || name == seq!['p', 'r', 'e'];
            if in_pre && name == seq!['c', 'o', 'd', 'e'] {
                let lo = spec_leading_texts(children);
                let hi = children.len() - spec_trailing_texts(children);
                HtmlV::Element { name, attrs, children: spec_trim_slice(children, lo, hi, inp) }
            } else {
                HtmlV::Element {
                    name,
                    attrs,
                    children: spec_trim_slice(children, 0, children.len() as int, inp),
                }
            }
        },
    }
}

#[via_fn]
proof fn spec_trim_node_decreases(n: HtmlV, in_pre: bool) {
    match n {
        HtmlV::Element { name, attrs, children } => {
            assert(decreases_to!(n, 0int => children));
        },
        _ => {},
    }
}

/// The code-block whitespace pass over the kept slice of a child list: each
/// child of the slice in turn, recursively trimmed.
pub open spec fn spec_trim_slice(l: Seq<HtmlV>, from: int, to: int, in_pre: bool) -> Seq<HtmlV>
    decreases l, (if to - from > 0 { to - from } else { 0 }) via spec_trim_slice_decreases
{
    if !(0 <= from && from < to && to <= l.len()) {
        Seq::empty()
    } else {
        spec_trim_slice(l, from, to - 1, in_pre).push(spec_trim_node(l[to - 1], in_pre))
    }
}

#[via_fn]
proof fn spec_trim_slice_decreases(l: Seq<HtmlV>, from: int, to: int, in_pre: bool) {
    if 0 <= from && from < to && to <= l.len() {
        assert(decreases_to!(l => l[to - 1]));
    }
}

/// The code-block whitespace pass over a whole list of nodes.
pub open spec fn spec_trim_top(l: Seq<HtmlV>) -> Seq<HtmlV> {
    spec_trim_slice(l, 0, l.len() as int, false)
}

/// An exact copy of a node.
fn clone_html(n: &Html) -> (r: Html)
    ensures
        r.deep() == n.deep(),
    decreases *n,
{
    match n {
        Html::Text { text } => Html::Text { text: text.clone() },
        Html::Element { name, attrs, children } => {
            let mut newc: Vec<Html> = Vec::new();
            let mut i: usize = 0;
            while i < children.len()
                invariant
                    i <= children@.len(),
                    *n matches Html::Element { children: c2, .. } && c2 == *children,
                    deep_list(newc@) == deep_list(children@).subrange(0, i as int),
                decreases children@.len() - i,
            {
                proof {
                    assert(decreases_to!(*n => *children));
                    assert(decreases_to!(*children => children[i as int]));
                }
                let ghost oldn = newc@;
                let child = clone_html(&children[i]);
                newc.push(child);
                proof {
                    lemma_deep_list_len(children@);
                    lemma_deep_list_index(children@, i as int);
                    lemma_deep_list_snoc(oldn, child);
                    assert(newc@ == oldn.push(child));
                    let vs = deep_list(children@);
                    assert(deep_list(newc@) =~= vs.subrange(0, i + 1));
                }
                i += 1;
            }
            proof {
                lemma_deep_list_len(children@);
                assert(deep_list(children@).subrange(0, children@.len() as int) =~= deep_list(
                    children@,
                ));
            }
            let r = Html::Element {
                name: name.clone(),
                attrs: clone_attrs(attrs),
                children: newc,
            };
            proof {
                assert(r.deep() =~~= n.deep());
            }
            r
        },
    }
}

/// Whether this node is the placeholder element.
fn is_rcl_elem(n: &Html) -> (r: bool)
    ensures
        r == is_rcl(n.deep()),
{
    proof {
        reveal_strlit("recently-changed-list");
        assert("recently-changed-list"@ =~= rcl_name());
    }
    match n {
        Html::Element { name, .. } => crate::str_eq(name.as_str(), "recently-changed-list"),
        Html::Text { .. } => false,
    }
}

/// Whether any direct child is the placeholder element.
fn has_direct_rcl(children: &Vec<Html>) -> (r: bool)
    ensures
        r == exists|i: int|
            0 <= i < deep_list(children@).len() && is_rcl(#[trigger] deep_list(children@)[i]),
{
    let mut i: usize = 0;
    proof {
        lemma_deep_list_len(children@);
    }
    while i < children.len()
        invariant
            i <= children@.len(),
            forall|k: int| 0 <= k < i ==> !is_rcl(#[trigger] deep_list(children@)[k]),
            deep_list(children@).len() == children@.len(),
        decreases children@.len() - i,
    {
        if is_rcl_elem(&children[i]) {
            proof {
                lemma_deep_list_index(children@, i as int);
            }
            return true;
        }
        proof {
            lemma_deep_list_index(children@, i as int);
        }
        i += 1;
    }
    false
}

/// Whether this node is a paragraph directly holding a placeholder.
fn is_p_with_rcl_elem(n: &Html) -> (r: bool)
    ensures
        r == is_p_with_rcl(n.deep()),
{
    proof {
        reveal_strlit("p");
        assert("p"@ =~= seq!['p']);
    }
    match n {
        Html::Element { name, children, .. } => {
            let isp = crate::str_eq(name.as_str(), "p");
            let has = if isp {
                has_direct_rcl(children)
            } else {
                false
            };
            proof {
                assert(n.deep() matches HtmlV::Element { name: dn, children: dc, .. } && dn
                    == name@ && dc == deep_list(children@));
            }
            isp && has
        },
        Html::Text { .. } => false,
    }
}

/// Builds the recently-changed listing element from the entries.
fn build_recent_list(recents: &Vec<RecentEntry>) -> (r: Html)
    ensures
        r.deep() == spec_recent_list(recent_views(recents@)),
{
    proof {
        reveal_strlit("ul");
        assert("ul"@ =~= seq!['u', 'l']);
    }
    let mut items: Vec<Html> = Vec::new();
    let mut i: usize = 0;
    while i < recents.len()
        invariant
            i <= recents@.len(),
            deep_list(items@) == spec_recent_items(recent_views(recents@).subrange(0, i as int)),
        decreases recents@.len() - i,
    {
        proof {
            reveal_strlit("ul");
            reveal_strlit("li");
            reveal_strlit("a");
            reveal_strlit("span");
            reveal_strlit("abbr");
            reveal_strlit("href");
            reveal_strlit("class");
            reveal_strlit("title");
            reveal_strlit("/");
            reveal_strlit(" updated ");
            reveal_strlit("smaller-font lighten");
            assert("ul"@ =~= seq!['u', 'l']);
            assert("li"@ =~= seq!['l', 'i']);
            assert("a"@ =~= seq!['a']);
            assert("span"@ =~= seq!['s', 'p', 'a', 'n']);
            assert("abbr"@ =~= seq!['a', 'b', 'b', 'r']);
            assert("href"@ =~= href_attr_name());
            assert("class"@ =~= class_attr_name());
            assert("title"@ =~= title_attr_name());
            assert("/"@ =~= seq!['/']);
            assert(" updated "@ =~= updated_text());
            assert("smaller-font lighten"@ =~= lighten_class());
        }
        let e = &recents[i];
        let mut link_attrs: Vec<Attr> = Vec::new();
        let mut href = String::new();
        push_char(&mut href, '/');
        href.append(e.name.as_str());
        link_attrs.push(Attr { name: "href".to_owned(), value: href });
        let mut link_children: Vec<Html> = Vec::new();
        link_children.push(Html::Text { text: e.title.clone() });
        let link = Html::Element {
            name: "a".to_owned(),
            attrs: link_attrs,
            children: link_children,
        };
        let mut abbr_attrs: Vec<Attr> = Vec::new();
        abbr_attrs.push(Attr { name: "title".to_owned(), value: e.updated_rfc3339.clone() });
        let mut abbr_children: Vec<Html> = Vec::new();
        abbr_children.push(Html::Text { text: e.updated_human.clone() });
        let abbr = Html::Element {
            name: "abbr".to_owned(),
            attrs: abbr_attrs,
            children: abbr_children,
        };
        let mut span_attrs: Vec<Attr> = Vec::new();
        span_attrs.push(Attr { name: "class".to_owned(), value: "smaller-font lighten".to_owned() });
        let mut span_children: Vec<Html> = Vec::new();
        span_children.push(Html::Text { text: " updated ".to_owned() });
        span_children.push(abbr);
        let span = Html::Element {
            name: "span".to_owned(),
            attrs: span_attrs,
            children: span_children,
        };
        let mut li_children: Vec<Html> = Vec::new();
        li_children.push(link);
        li_children.push(span);
        let li = Html::Element { name: "li".to_owned(), attrs: Vec::new(), children: li_children };
        proof {
            lemma_deep_list_singleton(link_children@[0]);
            assert(link_children@ =~= seq![link_children@[0]]);
            lemma_deep_list_singleton(abbr_children@[0]);
            assert(abbr_children@ =~= seq![abbr_children@[0]]);
            lemma_deep_list_len(span_children@);
            lemma_deep_list_index(span_children@, 0);
            lemma_deep_list_index(span_children@, 1);
            lemma_deep_list_len(li_children@);
            lemma_deep_list_index(li_children@, 0);
            lemma_deep_list_index(li_children@, 1);
            assert(attr_views(link_attrs@) =~= seq![
                AttrV { name: href_attr_name(), value: seq!['/'] + recents@[i as int]@.name },
            ]);
            assert(attr_views(abbr_attrs@) =~= seq![
                AttrV { name: title_attr_name(), value: recents@[i as int]@.updated_rfc3339 },
            ]);
            assert(attr_views(span_attrs@) =~= seq![
                AttrV { name: class_attr_name(), value: lighten_class() },
            ]);
            assert(attr_views(Seq::<Attr>::empty()) =~= Seq::<AttrV>::empty());
            let ev = recents@[i as int]@;
            assert(e@ == ev);
            assert(link.deep() =~~= (HtmlV::Element {
                name: seq!['a'],
                attrs: seq![AttrV { name: href_attr_name(), value: seq!['/'] + ev.name }],
                children: seq![HtmlV::Text { text: ev.title }],
            }));
            assert(abbr.deep() =~~= (HtmlV::Element {
                name: seq!['a', 'b', 'b', 'r'],
                attrs: seq![AttrV { name: title_attr_name(), value: ev.updated_rfc3339 }],
                children: seq![HtmlV::Text { text: ev.updated_human }],
            }));
            assert(deep_list(span_children@) =~~= seq![
                HtmlV::Text { text: updated_text() },
                HtmlV::Element {
                    name: seq!['a', 'b', 'b', 'r'],
                    attrs: seq![AttrV { name: title_attr_name(), value: ev.updated_rfc3339 }],
                    children: seq![HtmlV::Text { text: ev.updated_human }],
                },
            ]);
            assert(span.deep() =~~= (HtmlV::Element {
                name: seq!['s', 'p', 'a', 'n'],
                attrs: seq![AttrV { name: class_attr_name(), value: lighten_class() }],
                children: seq![
                    HtmlV::Text { text: updated_text() },
                    HtmlV::Element {
                        name: seq!['a', 'b', 'b', 'r'],
                        attrs: seq![AttrV { name: title_attr_name(), value: ev.updated_rfc3339 }],
                        children: seq![HtmlV::Text { text: ev.updated_human }],
                    },
                ],
            }));
            assert(deep_list(li_children@) =~~= seq![link.deep(), span.deep()]);
            assert(li.deep() =~~= spec_recent_item(recents@[i as int]@));
        }
        let ghost olditems = items@;
        items.push(li);
        proof {
            lemma_deep_list_snoc(olditems, li);
            assert(items@ == olditems.push(li));
            let rv = recent_views(recents@);
            let cur = rv.subrange(0, i + 1);
            assert(cur.drop_last() =~= rv.subrange(0, i as int));
            assert(cur.last() == recents@[i as int]@);
            assert(deep_list(items@) =~= spec_recent_items(cur));
        }
        i += 1;
    }
    proof {
        assert(recent_views(recents@).subrange(0, recents@.len() as int) =~= recent_views(
            recents@,
        ));
    }
    let r = Html::Element { name: "ul".to_owned(), attrs: Vec::new(), children: items };
    proof {
        assert(attr_views(Seq::<Attr>::empty()) =~= Seq::<AttrV>::empty());
        assert(r.deep() =~~= spec_recent_list(recent_views(recents@)));
    }
    r
}

/// The placeholder-expansion pass over one kept node.
fn expand_node(n: &Html, ul: &Html) -> (r: Html)
    ensures
        r.deep() == spec_expand_node(n.deep(), ul.deep()),
    decreases *n,
{
    match n {
        Html::Text { text } => Html::Text { text: text.clone() },
        Html::Element { name, attrs, children } => {
            let mut newc: Vec<Html> = Vec::new();
            let mut i: usize = 0;
            while i < children.len()
                invariant
                    i <= children@.len(),
                    *n matches Html::Element { children: c2, .. } && c2 == *children,
                    deep_list(newc@) == spec_expand_list(
                        deep_list(children@).subrange(0, i as int),
                        ul.deep(),
                    ),
                decreases children@.len() - i,
            {
                proof {
                    assert(decreases_to!(*n => *children));
                    assert(decreases_to!(*children => children[i as int]));
                }
                let ghost oldn = newc@;
                let child = if is_rcl_elem(&children[i]) || is_p_with_rcl_elem(&children[i]) {
                    clone_html(ul)
                } else {
                    expand_node(&children[i], ul)
                };
                newc.push(child);
                proof {
                    lemma_deep_list_len(children@);
                    lemma_deep_list_index(children@, i as int);
                    lemma_deep_list_snoc(oldn, child);
                    assert(newc@ == oldn.push(child));
                    let vs = deep_list(children@);
                    let cur = vs.subrange(0, i + 1);
                    assert(cur.drop_last() =~= vs.subrange(0, i as int));
                    assert(cur.last() == children@[i as int].deep());
                    assert(deep_list(newc@) =~= spec_expand_list(cur, ul.deep()));
                }
                i += 1;
            }
            proof {
                lemma_deep_list_len(children@);
                assert(deep_list(children@).subrange(0, children@.len() as int) =~= deep_list(
                    children@,
                ));
            }
            let r = Html::Element {
                name: name.clone(),
                attrs: clone_attrs(attrs),
                children: newc,
            };
            proof {
                assert(r.deep() =~~= spec_expand_node(n.deep(), ul.deep()));
            }
            r
        },
    }
}

/// The placeholder-expansion pass over the root nodes.
fn expand_list(nodes: &Vec<Html>, ul: &Html) -> (r: Vec<Html>)
    ensures
        deep_list(r@) == spec_expand_list(deep_list(nodes@), ul.deep()),
{
    let mut r: Vec<Html> = Vec::new();
    let mut i: usize = 0;
    while i < nodes.len()
        invariant
            i <= nodes@.len(),
            deep_list(r@) == spec_expand_list(deep_list(nodes@).subrange(0, i as int), ul.deep()),
        decreases nodes@.len() - i,
    {
        let ghost oldr = r@;
        let node = if is_rcl_elem(&nodes[i]) || is_p_with_rcl_elem(&nodes[i]) {
            clone_html(ul)
        } else {
            expand_node(&nodes[i], ul)
        };
        r.push(node);
        proof {
            lemma_deep_list_len(nodes@);
            lemma_deep_list_index(nodes@, i as int);
            lemma_deep_list_snoc(oldr, node);
            assert(r@ == oldr.push(node));
            let vs = deep_list(nodes@);
            let cur = vs.subrange(0, i + 1);
            assert(cur.drop_last() =~= vs.subrange(0, i as int));
            assert(cur.last() == nodes@[i as int].deep());
            assert(deep_list(r@) =~= spec_expand_list(cur, ul.deep()));
        }
        i += 1;
    }
    proof {
        lemma_deep_list_len(nodes@);
        assert(deep_list(nodes@).subrange(0, nodes@.len() as int) =~= deep_list(nodes@));
    }
    r
}

/// Whether this node is a bare text node.
fn is_text_elem(n: &Html) -> (r: bool)
    ensures
        r == is_text_node(n.deep()),
{
    match n {
        Html::Text { .. } => true,
        Html::Element { .. } => false,
    }
}

/// How many bare text nodes open the child list.
fn leading_texts(children: &Vec<Html>) -> (r: usize)
    ensures
        r as int == spec_leading_texts(deep_list(children@)),
        r <= children@.len(),
{
    let ghost dc = deep_list(children@);
    proof {
        lemma_deep_list_len(children@);
        assert(dc.skip(0) =~= dc);
    }
    let mut lo: usize = 0;
    while lo < children.len() && is_text_elem(&children[lo])
        invariant
            lo <= children@.len(),
            dc == deep_list(children@),
            dc.len() == children@.len(),
            spec_leading_texts(dc) == lo + spec_leading_texts(dc.skip(lo as int)),
        decreases children@.len() - lo,
    {
        proof {
            lemma_deep_list_index(children@, lo as int);
            assert(dc.skip(lo as int).first() == dc[lo as int]);
            assert(dc.skip(lo as int).drop_first() =~= dc.skip(lo + 1));
        }
        lo += 1;
    }
    proof {
        if lo < children@.len() {
            lemma_deep_list_index(children@, lo as int);
            assert(dc.skip(lo as int).first() == dc[lo as int]);
        }
    }
    lo
}

/// The position after which only trailing bare text nodes follow.
fn before_trailing_texts(children: &Vec<Html>) -> (r: usize)
    ensures
        r as int == deep_list(children@).len() - spec_trailing_texts(deep_list(children@)),
        r <= children@.len(),
{
    let ghost dc = deep_list(children@);
    proof {
        lemma_deep_list_len(children@);
        assert(dc.subrange(0, dc.len() as int) =~= dc);
    }
    let mut hi: usize = children.len();
    while hi > 0 && is_text_elem(&children[hi - 1])
        invariant
            hi <= children@.len(),
            dc == deep_list(children@),
            dc.len() == children@.len(),
            spec_trailing_texts(dc) == (dc.len() - hi) + spec_trailing_texts(
                dc.subrange(0, hi as int),
            ),
        decreases hi,
    {
        proof {
            lemma_deep_list_index(children@, hi - 1);
            let pre = dc.subrange(0, hi as int);
            assert(pre.last() == dc[hi - 1]);
            assert(pre.drop_last() =~= dc.subrange(0, hi - 1));
        }
        hi -= 1;
    }
    proof {
        if hi > 0 {
            lemma_deep_list_index(children@, hi - 1);
            assert(dc.subrange(0, hi as int).last() == dc[hi - 1]);
        }
    }
    hi
}

/// The code-block whitespace pass over one node.
fn trim_node(n: &Html, in_pre: bool) -> (r: Html)
    ensures
        r.deep() == spec_trim_node(n.deep(), in_pre),
    decreases *n,
{
    proof {
        reveal_strlit("pre");
        reveal_strlit("code");
        assert("pre"@ =~= seq!['p', 'r', 'e']);
        assert("code"@ =~= seq!['c', 'o', 'd', 'e']);
    }
    match n {
        Html::Text { text } => Html::Text { text: text.clone() },
        Html::Element { name, attrs, children } => {
            let inp = in_pre || crate::str_eq(name.as_str(), "pre");
            let is_code_block = in_pre && crate::str_eq(name.as_str(), "code");
            let lo: usize = if is_code_block {
                leading_texts(children)
            } else {
                0
            };
            let hi: usize = if is_code_block {
                before_trailing_texts(children)
            } else {
                children.len()
            };
            let mut newc: Vec<Html> = Vec::new();
            let mut i: usize = lo;
            proof {
                lemma_deep_list_len(children@);
                assert(deep_list(newc@) =~= Seq::<HtmlV>::empty());
            }
            while i < hi
                invariant
                    lo <= i,
                    i <= children@.len(),
                    hi <= children@.len(),
                    lo <= hi ==> i <= hi,
                    hi < lo ==> i == lo,
                    *n matches Html::Element { children: c2, .. } && c2 == *children,
                    deep_list(newc@) == spec_trim_slice(
                        deep_list(children@),
                        lo as int,
                        i as int,
                        inp,
                    ),
                decreases hi - i,
            {
                proof {
                    assert(decreases_to!(*n => *children));
                    assert(decreases_to!(*children => children[i as int]));
                    lemma_deep_list_len(children@);
                    lemma_deep_list_index(children@, i as int);
                }
                let ghost oldn = newc@;
                let child = trim_node(&children[i], inp);
                newc.push(child);
                proof {
                    lemma_deep_list_snoc(oldn, child);
                    assert(newc@ == oldn.push(child));
                    assert(deep_list(newc@) =~= spec_trim_slice(
                        deep_list(children@),
                        lo as int,
                        i + 1,
                        inp,
                    ));
                }
                i += 1;
            }
            proof {
                if hi <= lo {
                    assert(deep_list(newc@) =~= spec_trim_slice(
                        deep_list(children@),
                        lo as int,
                        hi as int,
                        inp,
                    ));
                }
            }
            let r = Html::Element {
                name: name.clone(),
                attrs: clone_attrs(attrs),
                children: newc,
            };
            proof {
                assert(r.deep() =~~= spec_trim_node(n.deep(), in_pre));
            }
            r
        },
    }
}

/// The code-block whitespace pass over the root nodes.
fn trim_list(nodes: &Vec<Html>) -> (r: Vec<Html>)
    ensures
        deep_list(r@) == spec_trim_top(deep_list(nodes@)),
{
    let mut r: Vec<Html> = Vec::new();
    let mut i: usize = 0;
    proof {
        lemma_deep_list_len(nodes@);
    }
    while i < nodes.len()
        invariant
            i <= nodes@.len(),
            deep_list(nodes@).len() == nodes@.len(),
            deep_list(r@) == spec_trim_slice(deep_list(nodes@), 0, i as int, false),
        decreases nodes@.len() - i,
    {
        let ghost oldr = r@;
        let node = trim_node(&nodes[i], false);
        r.push(node);
        proof {
            lemma_deep_list_len(nodes@);
            lemma_deep_list_index(nodes@, i as int);
            lemma_deep_list_snoc(oldr, node);
            assert(r@ == oldr.push(node));
            assert(deep_list(r@) =~= spec_trim_slice(deep_list(nodes@), 0, i + 1, false));
        }
        i += 1;
    }
    r
}

/// The enhanced serialization of a fragment tree: anchors injected into
/// headings, placeholders expanded into the recently-changed listing,
/// code-block whitespace trimmed, then serialized.
pub open spec fn spec_enhanced(t: Seq<HtmlV>, recents: Seq<RecentEntryV>) -> Seq<char> {
    spec_ser_list(
        spec_trim_top(spec_expand_list(spec_link_list(t), spec_recent_list(recents))),
    )
}

/// Enhances a parsed fragment tree and serializes it: the three passes in
/// their fixed order — heading anchors, placeholder expansion, code-block
/// whitespace — then the serialization.
pub fn enhance_tree(nodes: &Vec<Html>, recents: &Vec<RecentEntry>) -> (r: String)
    ensures
        r@ == spec_enhanced(deep_list(nodes@), recent_views(recents@)),
{
    let linked = link_list(nodes);
    let ul = build_recent_list(recents);
    let expanded = expand_list(&linked, &ul);
    let trimmed = trim_list(&expanded);
    serialize_list(&trimmed)
}

/// A node none of the passes has business with: no heading, no placeholder,
/// no code block — and nothing of the kind among its descendants.
pub open spec fn plain_node(n: HtmlV) -> bool
    decreases n via plain_node_decreases
{
    match n {
        HtmlV::Text { .. } => true,
        HtmlV::Element { name, children, .. } => {
            &&& !is_heading_name(name)
            &&& name != rcl_name()
            &&& name != seq!['p', 'r', 'e']
            &&& plain_list(children)
        },
    }
}

#[via_fn]
proof fn plain_node_decreases(n: HtmlV) {
    match n {
        HtmlV::Element { name, attrs, children } => {
            assert(decreases_to!(n => children));
        },
        _ => {},
    }
}

/// A list of nodes none of the passes has business with.
pub open spec fn plain_list(l: Seq<HtmlV>) -> bool
    decreases l,
{
    if l.len() == 0 {
        true
    } else {
        plain_list(l.drop_last()) && plain_node(l.last())
    }
}

proof fn lemma_link_plain(l: Seq<HtmlV>)
    requires
        plain_list(l),
    ensures
        spec_link_list(l) == l,
    decreases l, 1int,
{
    if l.len() > 0 {
        lemma_link_plain(l.drop_last());
        lemma_link_plain_node(l.last());
        assert(spec_link_list(l) =~= l);
    } else {
        assert(spec_link_list(l) =~= l);
    }
}

proof fn lemma_link_plain_node(n: HtmlV)
    requires
        plain_node(n),
    ensures
        spec_link_node(n) == n,
    decreases n, 0int,
{
    match n {
        HtmlV::Text { .. } => {},
        HtmlV::Element { name, attrs, children } => {
            assert(decreases_to!(n => children));
            lemma_link_plain(children);
            assert(spec_link_node(n) =~~= n);
        },
    }
}

proof fn lemma_expand_plain(l: Seq<HtmlV>, ul: HtmlV)
    requires
        plain_list(l),
    ensures
        spec_expand_list(l, ul) == l,
    decreases l, 1int,
{
    if l.len() > 0 {
        lemma_expand_plain(l.drop_last(), ul);
        lemma_expand_plain_node(l.last(), ul);
        assert(!is_rcl(l.last()));
        assert(!is_p_with_rcl(l.last())) by {
            if is_p_with_rcl(l.last()) {
                match l.last() {
                    HtmlV::Element { name, children, .. } => {
                        let i = choose|i: int|
                            0 <= i < children.len() && is_rcl(#[trigger] children[i]);
                        lemma_plain_list_member(children, i);
                    },
                    _ => {},
                }
            }
        }
        assert(spec_expand_list(l, ul) =~= l);
    } else {
        assert(spec_expand_list(l, ul) =~= l);
    }
}

proof fn lemma_expand_plain_node(n: HtmlV, ul: HtmlV)
    requires
        plain_node(n),
    ensures
        spec_expand_node(n, ul) == n,
    decreases n, 0int,
{
    match n {
        HtmlV::Text { .. } => {},
        HtmlV::Element { name, attrs, children } => {
            assert(decreases_to!(n => children));
            lemma_expand_plain(children, ul);
            assert(spec_expand_node(n, ul) =~~= n);
        },
    }
}

/// Every member of a plain list is itself plain.
proof fn lemma_plain_list_member(l: Seq<HtmlV>, i: int)
    requires
        plain_list(l),
        0 <= i < l.len(),
    ensures
        plain_node(l[i]),
    decreases l.len(),
{
    if i < l.len() - 1 {
        lemma_plain_list_member(l.drop_last(), i);
    }
}

proof fn lemma_trim_slice_plain(l: Seq<HtmlV>, to: int)
    requires
        plain_list(l),
        0 <= to <= l.len(),
    ensures
        spec_trim_slice(l, 0, to, false) == l.subrange(0, to),
    decreases l, to + 1,
{
    if to == 0 {
        assert(spec_trim_slice(l, 0, 0, false) =~= l.subrange(0, 0));
    } else {
        lemma_trim_slice_plain(l, to - 1);
        lemma_plain_list_member(l, to - 1);
        assert(decreases_to!(l => l[to - 1]));
        lemma_trim_plain_node(l[to - 1]);
        assert(spec_trim_slice(l, 0, to, false) =~= l.subrange(0, to));
    }
}

proof fn lemma_trim_plain_node(n: HtmlV)
    requires
        plain_node(n),
    ensures
        spec_trim_node(n, false) == n,
    decreases n, 0int,
{
    match n {
        HtmlV::Text { .. } => {},
        HtmlV::Element { name, attrs, children } => {
            assert(decreases_to!(n => children));
            assert(name != seq!['p', 'r', 'e']);
            lemma_trim_slice_plain(children, children.len() as int);
            assert(children.subrange(0, children.len() as int) =~= children);
            assert(spec_trim_node(n, false) =~~= n);
        },
    }
}

/// A fragment tree that holds no heading, no placeholder and no code block
/// passes through the enhancement unchanged: its enhanced form is exactly
/// its own serialization, whatever the recently-changed entries are.
pub proof fn lemma_enhance_plain(t: Seq<HtmlV>, recents: Seq<RecentEntryV>)
    requires
        plain_list(t),
    ensures
        spec_enhanced(t, recents) == spec_ser_list(t),
{
    lemma_link_plain(t);
    lemma_expand_plain(t, spec_recent_list(recents));
    let expanded = spec_expand_list(spec_link_list(t), spec_recent_list(recents));
    lemma_trim_slice_plain(expanded, expanded.len() as int);
    assert(expanded.subrange(0, expanded.len() as int) =~= expanded);
}

/// Enhances rendered HTML: the fragment is parsed into a tree, the three
/// passes are applied, and the result is serialized back to a string.
pub fn enhance_markup(html: &str, recents: &Vec<RecentEntry>) -> (r: String)
    ensures
        r@ == spec_enhanced(crate::dom::spec_parse(html@), recent_views(recents@)),
{
    let nodes = parse_fragment(html);
    enhance_tree(&nodes, recents)
}

/// The heading-anchor pass over a list of nodes.
fn link_list(nodes: &Vec<Html>) -> (r: Vec<Html>)
    ensures
        deep_list(r@) == spec_link_list(deep_list(nodes@)),
{
    let mut r: Vec<Html> = Vec::new();
    let mut i: usize = 0;
    while i < nodes.len()
        invariant
            i <= nodes@.len(),
            deep_list(r@) == spec_link_list(deep_list(nodes@).subrange(0, i as int)),
        decreases nodes@.len() - i,
    {
        let ghost oldr = r@;
        let node = link_node(&nodes[i]);
        r.push(node);
        proof {
            lemma_deep_list_len(nodes@);
            lemma_deep_list_index(nodes@, i as int);
            let vs = deep_list(nodes@);
            let cur = vs.subrange(0, i + 1);
            assert(cur.drop_last() =~= vs.subrange(0, i as int));
            assert(cur.last() == nodes@[i as int].deep());
            lemma_deep_list_snoc(oldr, node);
            assert(r@ == oldr.push(node));
            assert(deep_list(r@) =~= spec_link_list(cur));
        }
        i += 1;
    }
    proof {
        lemma_deep_list_len(nodes@);
        assert(deep_list(nodes@).subrange(0, nodes@.len() as int) =~= deep_list(nodes@));
    }
    r
}

} // verus!
