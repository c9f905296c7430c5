//! An owned HTML fragment tree: parsing, serialization, and the
//! mathematical view the enhancement passes are specified over.
//!
//! The tree is a value: passes take a tree and return a new one.  Parsing
//! covers the fragments the Markdown renderer emits — elements with quoted
//! attributes, text with the common named entities, void elements, comments
//! (dropped), raw-text content inside `script` and `style` — with the usual
//! tolerant recovery for mismatched close tags.  Both directions are
//! verified exactly: the parser against [`spec_parse`] and the serializer
//! against [`spec_ser_list`].
use vstd::prelude::*;

use crate::string_ext::push_char;

verus! {

broadcast use vstd::std_specs::vec::group_vec_axioms, vstd::seq::axiom_seq_index_decreases;

/// One attribute of an element.
pub struct Attr {
    pub name: String,
    pub value: String,
}

/// A node of the fragment tree: text, or an element with attributes and
/// children.
pub enum Html {
    Text { text: String },
    Element { name: String, attrs: Vec<Attr>, children: Vec<Html> },
}

/// The mathematical view of an attribute.
#[verifier::ext_equal]
pub struct AttrV {
    pub name: Seq<char>,
    pub value: Seq<char>,
}

/// The mathematical view of a node.
#[verifier::ext_equal]
pub enum HtmlV {
    Text { text: Seq<char> },
    Element { name: Seq<char>, attrs: Seq<AttrV>, children: Seq<HtmlV> },
}

impl Attr {
    /// The view of this attribute.
    pub open spec fn deep(self) -> AttrV {
        AttrV { name: self.name@, value: self.value@ }
    }
}

/// The views of a list of attributes.
pub open spec fn attr_views(l: Seq<Attr>) -> Seq<AttrV> {
    l.map_values(|a: Attr| a.deep())
}

impl Html {
    /// The view of this node.
    pub open spec fn deep(self) -> HtmlV
        decreases self via Self::deep_decreases
    {
        match self {
            Html::Text { text } => HtmlV::Text { text: text@ },
            Html::Element { name, attrs, children } => HtmlV::Element {
                name: name@,
                attrs: attr_views(attrs@),
                children: deep_list(children@),
            },
        }
    }

    #[via_fn]
    proof fn deep_decreases(self) {
        match self {
            Html::Element { name, attrs, children } => {
                assert(decreases_to!(self => children));
                assert(decreases_to!(children => children@));
            },
            _ => {},
        }
    }
}

/// The views of a list of nodes.
pub open spec fn deep_list(l: Seq<Html>) -> Seq<HtmlV>
    decreases l,
{
    if l.len() == 0 {
        Seq::empty()
    } else {
        deep_list(l.drop_last()).push(l.last().deep())
    }
}

/// Views distribute over indexing.
pub proof fn lemma_deep_list_index(l: Seq<Html>, i: int)
    requires
        0 <= i < l.len(),
    ensures
        deep_list(l).len() == l.len(),
        deep_list(l)[i] == l[i].deep(),
    decreases l.len(),
{
    lemma_deep_list_len(l);
    if i < l.len() - 1 {
        lemma_deep_list_index(l.drop_last(), i);
    }
}

/// The view of a single node as a list.
pub proof fn lemma_deep_list_singleton(x: Html)
    ensures
        deep_list(seq![x]) == seq![x.deep()],
{
    let l = seq![x];
    assert(l.drop_last() =~= Seq::<Html>::empty());
    assert(deep_list(Seq::<Html>::empty()) == Seq::<HtmlV>::empty());
    assert(deep_list(l) =~= seq![x.deep()]);
}

/// Views distribute over appending one node.
pub proof fn lemma_deep_list_snoc(l: Seq<Html>, x: Html)
    ensures
        deep_list(l.push(x)) == deep_list(l).push(x.deep()),
{
    assert(l.push(x).drop_last() =~= l);
    assert(l.push(x).last() == x);
    assert(deep_list(l.push(x)) =~= deep_list(l).push(x.deep()));
}

/// Views preserve length.
pub proof fn lemma_deep_list_len(l: Seq<Html>)
    ensures
        deep_list(l).len() == l.len(),
    decreases l.len(),
{
    if l.len() > 0 {
        lemma_deep_list_len(l.drop_last());
    }
}

/// How one character of a text node is serialized.
pub open spec fn spec_esc_text_char(c: char) -> Seq<char> {
    if c == '&' {
        seq!['&', 'a', 'm', 'p', ';']
    } else if c == '\u{a0}' {
        seq!['&', 'n', 'b', 's', 'p', ';']
    } else if c == '<' {
        seq!['&', 'l', 't', ';']
    } else if c == '>' {
        seq!['&', 'g', 't', ';']
    } else {
        seq![c]
    }
}

/// How text content is serialized.
pub open spec fn spec_esc_text(s: Seq<char>) -> Seq<char>
    decreases s.len(),
{
    if s.len() == 0 {
        Seq::empty()
    } else {
        spec_esc_text(s.drop_last()) + spec_esc_text_char(s.last())
    }
}

/// How one character of an attribute value is serialized.
pub open spec fn spec_esc_attr_char(c: char) -> Seq<char> {
    if c == '&' {
        seq!['&', 'a', 'm', 'p', ';']
    } else if c == '\u{a0}' {
        seq!['&', 'n', 'b', 's', 'p', ';']
    } else if c == '"' {
        seq!['&', 'q', 'u', 'o', 't', ';']
    } else {
        seq![c]
    }
}

/// How an attribute value is serialized.
pub open spec fn spec_esc_attr(s: Seq<char>) -> Seq<char>
    decreases s.len(),
{
    if s.len() == 0 {
        Seq::empty()
    } else {
        spec_esc_attr(s.drop_last()) + spec_esc_attr_char(s.last())
    }
}

/// How one attribute is serialized: a space, the name, `="`, the escaped
/// value, `"`.
pub open spec fn spec_ser_attr(a: AttrV) -> Seq<char> {
    seq![' '] + a.name + seq!['=', '"'] + spec_esc_attr(a.value) + seq!['"']
}

/// How an attribute list is serialized.
pub open spec fn spec_ser_attrs(l: Seq<AttrV>) -> Seq<char>
    decreases l.len(),
{
    if l.len() == 0 {
        Seq::empty()
    } else {
        spec_ser_attrs(l.drop_last()) + spec_ser_attr(l.last())
    }
}

/// The void elements: they serialize without children or a close tag.
pub open spec fn spec_is_void(name: Seq<char>) -> bool {
    ||| name == seq!['a', 'r', 'e', 'a']
    ||| name == seq!['b', 'a', 's', 'e']
    ||| name == seq!['b', 'r']
    ||| name == seq!['c', 'o', 'l']
    ||| name == seq!['e', 'm', 'b', 'e', 'd']
    ||| name == seq!['h', 'r']
    ||| name == seq!['i', 'm', 'g']
    ||| name == seq!['i', 'n', 'p', 'u', 't']
    ||| name == seq!['l', 'i', 'n', 'k']
    ||| name == seq!['m', 'e', 't', 'a']
    ||| name == seq!['p', 'a', 'r', 'a', 'm']
    ||| name == seq!['s', 'o', 'u', 'r', 'c', 'e']
    ||| name == seq!['t', 'r', 'a', 'c', 'k']
    ||| name == seq!['w', 'b', 'r']
}

/// The raw-text elements: their content is taken verbatim up to the
/// matching close tag, and serialized back without escaping.
pub open spec fn spec_is_raw_text(name: Seq<char>) -> bool {
    name == seq!['s', 'c', 'r', 'i', 'p', 't'] || name == seq!['s', 't', 'y', 'l', 'e']
}

/// How one node is serialized.
pub open spec fn spec_ser_node(n: HtmlV) -> Seq<char>
    decreases n via spec_ser_node_decreases
{
    match n {
        HtmlV::Text { text } => spec_esc_text(text),
        HtmlV::Element { name, attrs, children } => {
            let open = seq!['<'] + name + spec_ser_attrs(attrs) + seq!['>'];
            if spec_is_void(name) {
                open
            } else if spec_is_raw_text(name) {
                open + spec_ser_raw_list(children) + seq!['<', '/'] + name + seq!['>']
            } else {
                open + spec_ser_list(children) + seq!['<', '/'] + name + seq!['>']
            }
        },
    }
}

#[via_fn]
proof fn spec_ser_node_decreases(n: HtmlV) {
    match n {
        HtmlV::Element { name, attrs, children } => {
            assert(decreases_to!(n => children));
        },
        _ => {},
    }
}

/// How a list of sibling nodes is serialized: each in turn.
pub open spec fn spec_ser_list(l: Seq<HtmlV>) -> Seq<char>
    decreases l,
{
    if l.len() == 0 {
        Seq::empty()
    } else {
        spec_ser_list(l.drop_last()) + spec_ser_node(l.last())
    }
}

/// How the children of a raw-text element are serialized: text verbatim,
/// without escaping; any element normally.
pub open spec fn spec_ser_raw_list(l: Seq<HtmlV>) -> Seq<char>
    decreases l,
{
    if l.len() == 0 {
        Seq::empty()
    } else {
        spec_ser_raw_list(l.drop_last()) + (match l.last() {
            HtmlV::Text { text } => text,
            HtmlV::Element { .. } => spec_ser_node(l.last()),
        })
    }
}

/// Appends the serialization of text content.
fn push_escaped_text(out: &mut String, s: &str)
    ensures
        final(out)@ == old(out)@ + spec_esc_text(s@),
{
    let ghost base = out@;
    let n = s.unicode_len();
    let mut i: usize = 0;
    proof {
        assert(base + spec_esc_text(s@.subrange(0, 0)) =~= base);
    }
    while i < n
        invariant
            i <= n,
            n == s@.len(),
            out@ == base + spec_esc_text(s@.subrange(0, i as int)),
        decreases n - i,
    {
        let c = s.get_char(i);
        if c == '&' {
            proof {
                reveal_strlit("&amp;");
            }
            out.append("&amp;");
        } else if c == '\u{a0}' {
            proof {
                reveal_strlit("&nbsp;");
            }
            out.append("&nbsp;");
        } else if c == '<' {
            proof {
                reveal_strlit("&lt;");
            }
            out.append("&lt;");
        } else if c == '>' {
            proof {
                reveal_strlit("&gt;");
            }
            out.append("&gt;");
        } else {
            push_char(out, c);
        }
        proof {
            let pre = s@.subrange(0, i as int);
            let cur = s@.subrange(0, i + 1);
            assert(cur.drop_last() =~= pre);
            assert(cur.last() == c);
            assert(out@ =~= base + spec_esc_text(cur));
        }
        i += 1;
    }
    proof {
        assert(s@.subrange(0, s@.len() as int) =~= s@);
    }
}

/// Appends the serialization of an attribute value.
fn push_escaped_attr(out: &mut String, s: &str)
    ensures
        final(out)@ == old(out)@ + spec_esc_attr(s@),
{
    let ghost base = out@;
    let n = s.unicode_len();
    let mut i: usize = 0;
    proof {
        assert(base + spec_esc_attr(s@.subrange(0, 0)) =~= base);
    }
    while i < n
        invariant
            i <= n,
            n == s@.len(),
            out@ == base + spec_esc_attr(s@.subrange(0, i as int)),
        decreases n - i,
    {
        let c = s.get_char(i);
        if c == '&' {
            proof {
                reveal_strlit("&amp;");
            }
            out.append("&amp;");
        } else if c == '\u{a0}' {
            proof {
                reveal_strlit("&nbsp;");
            }
            out.append("&nbsp;");
        } else if c == '"' {
            proof {
                reveal_strlit("&quot;");
            }
            out.append("&quot;");
        } else {
            push_char(out, c);
        }
        proof {
            let pre = s@.subrange(0, i as int);
            let cur = s@.subrange(0, i + 1);
            assert(cur.drop_last() =~= pre);
            assert(cur.last() == c);
            assert(out@ =~= base + spec_esc_attr(cur));
        }
        i += 1;
    }
    proof {
        assert(s@.subrange(0, s@.len() as int) =~= s@);
    }
}

/// Whether this element name is a void element.
pub fn is_void_name(name: &str) -> (r: bool)
    ensures
        r == spec_is_void(name@),
{
    proof {
        reveal_strlit("area");
        reveal_strlit("base");
        reveal_strlit("br");
        reveal_strlit("col");
        reveal_strlit("embed");
        reveal_strlit("hr");
        reveal_strlit("img");
        reveal_strlit("input");
        reveal_strlit("link");
        reveal_strlit("meta");
        reveal_strlit("param");
        reveal_strlit("source");
        reveal_strlit("track");
        reveal_strlit("wbr");
        assert("area"@ =~= seq!['a', 'r', 'e', 'a']);
        assert("base"@ =~= seq!['b', 'a', 's', 'e']);
        assert("br"@ =~= seq!['b', 'r']);
        assert("col"@ =~= seq!['c', 'o', 'l']);
        assert("embed"@ =~= seq!['e', 'm', 'b', 'e', 'd']);
        assert("hr"@ =~= seq!['h', 'r']);
        assert("img"@ =~= seq!['i', 'm', 'g']);
        assert("input"@ =~= seq!['i', 'n', 'p', 'u', 't']);
        assert("link"@ =~= seq!['l', 'i', 'n', 'k']);
        assert("meta"@ =~= seq!['m', 'e', 't', 'a']);
        assert("param"@ =~= seq!['p', 'a', 'r', 'a', 'm']);
        assert("source"@ =~= seq!['s', 'o', 'u', 'r', 'c', 'e']);
        assert("track"@ =~= seq!['t', 'r', 'a', 'c', 'k']);
        assert("wbr"@ =~= seq!['w', 'b', 'r']);
    }
    crate::str_eq(name, "area") || crate::str_eq(name, "base") || crate::str_eq(name, "br")
        || crate::str_eq(name, "col") || crate::str_eq(name, "embed") || crate::str_eq(name, "hr")
        || crate::str_eq(name, "img") || crate::str_eq(name, "input") || crate::str_eq(
        name,
        "link",
    ) || crate::str_eq(name, "meta") || crate::str_eq(name, "param") || crate::str_eq(
        name,
        "source",
    ) || crate::str_eq(name, "track") || crate::str_eq(name, "wbr")
}

/// Whether this element name is a raw-text element.
pub fn is_raw_text_name(name: &str) -> (r: bool)
    ensures
        r == spec_is_raw_text(name@),
{
    proof {
        reveal_strlit("script");
        reveal_strlit("style");
        assert("script"@ =~= seq!['s', 'c', 'r', 'i', 'p', 't']);
        assert("style"@ =~= seq!['s', 't', 'y', 'l', 'e']);
    }
    crate::str_eq(name, "script") || crate::str_eq(name, "style")
}

/// Whether a close tag for `name` starts at `k`.
fn is_close_at(html: &str, k: usize, n: usize, name: &str) -> (r: bool)
    requires
        n == html@.len(),
        k < n,
    ensures
        r == spec_is_close_at(html@, k as int, name@),
{
    if k + 1 < n && html.get_char(k) == '<' && html.get_char(k + 1) == '/' {
        let (close_name, _after) = read_name(html, k + 2, n);
        crate::str_eq(close_name.as_str(), name)
    } else {
        false
    }
}

/// Appends the serialization of one node.
pub fn serialize_into(n: &Html, out: &mut String)
    ensures
        final(out)@ == old(out)@ + spec_ser_node(n.deep()),
    decreases *n,
{
    match n {
        Html::Text { text } => {
            push_escaped_text(out, text.as_str());
        },
        Html::Element { name, attrs, children } => {
            push_char(out, '<');
            out.append(name.as_str());
            let ghost abase = out@;
            let mut i: usize = 0;
            proof {
                assert(abase + spec_ser_attrs(attr_views(attrs@).subrange(0, 0)) =~= abase);
            }
            while i < attrs.len()
                invariant
                    i <= attrs@.len(),
                    out@ == abase + spec_ser_attrs(attr_views(attrs@).subrange(0, i as int)),
                decreases attrs@.len() - i,
            {
                push_char(out, ' ');
                out.append(attrs[i].name.as_str());
                proof {
                    reveal_strlit("=\"");
                }
                out.append("=\"");
                push_escaped_attr(out, attrs[i].value.as_str());
                push_char(out, '"');
                proof {
                    let vs = attr_views(attrs@);
                    let pre = vs.subrange(0, i as int);
                    let cur = vs.subrange(0, i + 1);
                    assert(cur.drop_last() =~= pre);
                    assert(cur.last() == attrs@[i as int].deep());
                    assert("=\""@ =~= seq!['=', '"']);
                    assert(out@ =~= abase + spec_ser_attrs(cur));
                }
                i += 1;
            }
            proof {
                assert(attr_views(attrs@).subrange(0, attrs@.len() as int) =~= attr_views(attrs@));
            }
            push_char(out, '>');
            if !is_void_name(name.as_str()) {
                let ghost cbase = out@;
                if is_raw_text_name(name.as_str()) {
                    let mut j: usize = 0;
                    proof {
                        assert(cbase + spec_ser_raw_list(deep_list(children@).subrange(0, 0))
                            =~= cbase);
                    }
                    while j < children.len()
                        invariant
                            j <= children@.len(),
                            *n matches Html::Element { name: n2, attrs: a2, children: c2 } && c2
                                == *children,
                            out@ == cbase + spec_ser_raw_list(
                                deep_list(children@).subrange(0, j as int),
                            ),
                        decreases children@.len() - j,
                    {
                        proof {
                            assert(decreases_to!(*n => *children));
                            assert(decreases_to!(*children => children[j as int]));
                        }
                        match &children[j] {
                            Html::Text { text } => {
                                out.append(text.as_str());
                            },
                            Html::Element { .. } => {
                                serialize_into(&children[j], out);
                            },
                        }
                        proof {
                            lemma_deep_list_len(children@);
                            lemma_deep_list_index(children@, j as int);
                            let vs = deep_list(children@);
                            let pre = vs.subrange(0, j as int);
                            let cur = vs.subrange(0, j + 1);
                            assert(cur.drop_last() =~= pre);
                            assert(cur.last() == children@[j as int].deep());
                            assert(out@ =~= cbase + spec_ser_raw_list(cur));
                        }
                        j += 1;
                    }
                    proof {
                        lemma_deep_list_len(children@);
                        assert(deep_list(children@).subrange(0, children@.len() as int)
                            =~= deep_list(children@));
                    }
                } else {
                    let mut j: usize = 0;
                    proof {
                        assert(cbase + spec_ser_list(deep_list(children@).subrange(0, 0))
                            =~= cbase);
                    }
                    while j < children.len()
                        invariant
                            j <= children@.len(),
                            *n matches Html::Element { name: n2, attrs: a2, children: c2 } && c2
                                == *children,
                            out@ == cbase + spec_ser_list(
                                deep_list(children@).subrange(0, j as int),
                            ),
                        decreases children@.len() - j,
                    {
                        proof {
                            assert(decreases_to!(*n => *children));
                            assert(decreases_to!(*children => children[j as int]));
                        }
                        serialize_into(&children[j], out);
                        proof {
                            lemma_deep_list_len(children@);
                            lemma_deep_list_index(children@, j as int);
                            let vs = deep_list(children@);
                            let pre = vs.subrange(0, j as int);
                            let cur = vs.subrange(0, j + 1);
                            assert(cur.drop_last() =~= pre);
                            assert(cur.last() == children@[j as int].deep());
                            assert(out@ =~= cbase + spec_ser_list(cur));
                        }
                        j += 1;
                    }
                    proof {
                        lemma_deep_list_len(children@);
                        assert(deep_list(children@).subrange(0, children@.len() as int)
                            =~= deep_list(children@));
                    }
                }
                proof {
                    reveal_strlit("</");
                }
                out.append("</");
                out.append(name.as_str());
                push_char(out, '>');
                proof {
                    assert("</"@ =~= seq!['<', '/']);
                    assert(out@ =~= old(out)@ + spec_ser_node(n.deep()));
                }
            } else {
                proof {
                    assert(out@ =~= old(out)@ + spec_ser_node(n.deep()));
                }
            }
        },
    }
}

/// An element whose close tag has not been seen yet.
struct OpenElement {
    name: String,
    attrs: Vec<Attr>,
    children: Vec<Html>,
}

/// The mathematical view of an open element.
pub struct OpenV {
    pub name: Seq<char>,
    pub attrs: Seq<AttrV>,
    pub children: Seq<HtmlV>,
}

/// The view of an open element.
spec fn open_view(o: OpenElement) -> OpenV {
    OpenV { name: o.name@, attrs: attr_views(o.attrs@), children: deep_list(o.children@) }
}

/// The views of the open-element stack.
spec fn open_views(s: Seq<OpenElement>) -> Seq<OpenV> {
    s.map_values(|o: OpenElement| open_view(o))
}

/// Whether a character can start a tag name.
pub open spec fn spec_is_name_start(c: char) -> bool {
    ('a' <= c && c <= 'z') || ('A' <= c && c <= 'Z')
}

/// Whether a character can continue a tag or attribute name.
pub open spec fn spec_is_name_char(c: char) -> bool {
    ('a' <= c && c <= 'z') || ('A' <= c && c <= 'Z') || ('0' <= c && c <= '9') || c == '-' || c
        == '_' || c == ':'
}

/// Whether a character is inter-tag whitespace.
pub open spec fn spec_is_space(c: char) -> bool {
    c == ' ' || c == '\t' || c == '\n' || c == '\r' || c == '\u{c}'
}

/// An ASCII letter, lowercased.
pub open spec fn spec_lower_char(c: char) -> char {
    if 'A' <= c && c <= 'Z' {
        (((c as u8) + 32) as char)
    } else {
        c
    }
}

/// Whether a character can start a tag name.
fn is_name_start(c: char) -> (r: bool)
    ensures
        r == spec_is_name_start(c),
{
    ('a' <= c && c <= 'z') || ('A' <= c && c <= 'Z')
}

/// Whether a character can continue a tag or attribute name.
fn is_name_char(c: char) -> (r: bool)
    ensures
        r == spec_is_name_char(c),
{
    ('a' <= c && c <= 'z') || ('A' <= c && c <= 'Z') || ('0' <= c && c <= '9') || c == '-' || c
        == '_' || c == ':'
}

/// Whether a character is inter-tag whitespace.
fn is_space(c: char) -> (r: bool)
    ensures
        r == spec_is_space(c),
{
    c == ' ' || c == '\t' || c == '\n' || c == '\r' || c == '\u{c}'
}

/// Lowercases an ASCII letter.
fn lower_char(c: char) -> (r: char)
    ensures
        r == spec_lower_char(c),
{
    if 'A' <= c && c <= 'Z' {
        (((c as u8) + 32) as char)
    } else {
        c
    }
}

/// The name starting at `i`, lowercased, and the position after it.
pub open spec fn spec_read_name(s: Seq<char>, i: int) -> (Seq<char>, int)
    decreases s.len() - i,
{
    if 0 <= i < s.len() && spec_is_name_char(s[i]) {
        let (rest, j) = spec_read_name(s, i + 1);
        (seq![spec_lower_char(s[i])] + rest, j)
    } else {
        (Seq::empty(), i)
    }
}

/// The name ends within the text and after where it began.
pub proof fn lemma_read_name_bounds(s: Seq<char>, i: int)
    requires
        0 <= i <= s.len(),
    ensures
        i <= spec_read_name(s, i).1 <= s.len(),
        spec_read_name(s, i).1 == i ==> spec_read_name(s, i).0.len() == 0,
    decreases s.len() - i,
{
    if i < s.len() && spec_is_name_char(s[i]) {
        lemma_read_name_bounds(s, i + 1);
    }
}

/// The position after the first `>` at or after `i`, or the end of the text.
pub open spec fn spec_skip_to_gt(s: Seq<char>, i: int) -> int
    decreases s.len() - i,
{
    if !(0 <= i < s.len()) {
        s.len() as int
    } else if s[i] == '>' {
        i + 1
    } else {
        spec_skip_to_gt(s, i + 1)
    }
}

/// Skipping to a `>` stays within the text and never goes backwards.
pub proof fn lemma_skip_to_gt_bounds(s: Seq<char>, i: int)
    requires
        0 <= i <= s.len(),
    ensures
        i <= spec_skip_to_gt(s, i) <= s.len(),
    decreases s.len() - i,
{
    if i < s.len() && s[i] != '>' {
        lemma_skip_to_gt_bounds(s, i + 1);
    }
}

/// The position after the first whitespace run at `i`.
pub open spec fn spec_skip_ws(s: Seq<char>, i: int) -> int
    decreases s.len() - i,
{
    if 0 <= i < s.len() && spec_is_space(s[i]) {
        spec_skip_ws(s, i + 1)
    } else {
        i
    }
}

/// Skipping whitespace stays within the text and never goes backwards.
pub proof fn lemma_skip_ws_bounds(s: Seq<char>, i: int)
    requires
        0 <= i <= s.len(),
    ensures
        i <= spec_skip_ws(s, i) <= s.len(),
    decreases s.len() - i,
{
    if i < s.len() && spec_is_space(s[i]) {
        lemma_skip_ws_bounds(s, i + 1);
    }
}

/// The entity starting at `i` (which holds `&`): the character it denotes —
/// one of the common named entities, or a literal ampersand — and how many
/// characters it spans.
pub open spec fn spec_decode_entity(s: Seq<char>, i: int) -> (char, int) {
    let rest = s.len() - i;
    if rest >= 5 && s[i + 1] == 'a' && s[i + 2] == 'm' && s[i + 3] == 'p' && s[i + 4] == ';' {
        ('&', 5)
    } else if rest >= 4 && s[i + 1] == 'l' && s[i + 2] == 't' && s[i + 3] == ';' {
        ('<', 4)
    } else if rest >= 4 && s[i + 1] == 'g' && s[i + 2] == 't' && s[i + 3] == ';' {
        ('>', 4)
    } else if rest >= 6 && s[i + 1] == 'q' && s[i + 2] == 'u' && s[i + 3] == 'o' && s[i + 4] == 't'
        && s[i + 5] == ';' {
        ('"', 6)
    } else if rest >= 6 && s[i + 1] == 'n' && s[i + 2] == 'b' && s[i + 3] == 's' && s[i + 4] == 'p'
        && s[i + 5] == ';' {
        ('\u{a0}', 6)
    } else if rest >= 5 && s[i + 1] == '#' && s[i + 2] == '3' && s[i + 3] == '9' && s[i + 4]
        == ';' {
        ('\'', 5)
    } else {
        ('&', 1)
    }
}

/// A quoted attribute value from `i` up to the closing quote: its decoded
/// text and the position after the quote.
pub open spec fn spec_quoted_value(s: Seq<char>, i: int, quote: char) -> (Seq<char>, int)
    decreases s.len() - i,
{
    if !(0 <= i < s.len()) {
        (Seq::empty(), s.len() as int)
    } else if s[i] == quote {
        (Seq::empty(), i + 1)
    } else if s[i] == '&' {
        let (c, adv) = spec_decode_entity(s, i);
        if i + adv <= s.len() && adv >= 1 {
            let (rest, j) = spec_quoted_value(s, i + adv, quote);
            (seq![c] + rest, j)
        } else {
            (Seq::empty(), s.len() as int)
        }
    } else {
        let (rest, j) = spec_quoted_value(s, i + 1, quote);
        (seq![s[i]] + rest, j)
    }
}

/// A quoted value ends within the text and after where it began.
pub proof fn lemma_quoted_value_bounds(s: Seq<char>, i: int, quote: char)
    requires
        0 <= i <= s.len(),
    ensures
        i < spec_quoted_value(s, i, quote).1 <= s.len() || (i == s.len()
            && spec_quoted_value(s, i, quote).1 == s.len()),
    decreases s.len() - i,
{
    if i < s.len() && s[i] != quote {
        if s[i] == '&' {
            let (c, adv) = spec_decode_entity(s, i);
            if i + adv <= s.len() && adv >= 1 {
                lemma_quoted_value_bounds(s, i + adv, quote);
            }
        } else {
            lemma_quoted_value_bounds(s, i + 1, quote);
        }
    }
}

/// An unquoted attribute value from `i` up to whitespace or `>`: its decoded
/// text and the position after it.
pub open spec fn spec_unquoted_value(s: Seq<char>, i: int) -> (Seq<char>, int)
    decreases s.len() - i,
{
    if !(0 <= i < s.len()) {
        (Seq::empty(), s.len() as int)
    } else if spec_is_space(s[i]) || s[i] == '>' {
        (Seq::empty(), i)
    } else if s[i] == '&' {
        let (c, adv) = spec_decode_entity(s, i);
        if i + adv <= s.len() && adv >= 1 {
            let (rest, j) = spec_unquoted_value(s, i + adv);
            (seq![c] + rest, j)
        } else {
            (Seq::empty(), s.len() as int)
        }
    } else {
        let (rest, j) = spec_unquoted_value(s, i + 1);
        (seq![s[i]] + rest, j)
    }
}

/// An unquoted value ends within the text and never before where it began.
pub proof fn lemma_unquoted_value_bounds(s: Seq<char>, i: int)
    requires
        0 <= i <= s.len(),
    ensures
        i <= spec_unquoted_value(s, i).1 <= s.len(),
    decreases s.len() - i,
{
    if i < s.len() && !(spec_is_space(s[i]) || s[i] == '>') {
        if s[i] == '&' {
            let (c, adv) = spec_decode_entity(s, i);
            if i + adv <= s.len() && adv >= 1 {
                lemma_unquoted_value_bounds(s, i + adv);
            }
        } else {
            lemma_unquoted_value_bounds(s, i + 1);
        }
    }
}

/// The attribute list from `i` up to and including the closing `>`: the
/// attributes, and the position after the tag.
pub open spec fn spec_read_attrs(s: Seq<char>, i: int) -> (Seq<AttrV>, int)
    decreases s.len() - i, 0int via spec_read_attrs_decreases
{
    if !(0 <= i < s.len()) {
        (Seq::empty(), s.len() as int)
    } else if spec_is_space(s[i]) || s[i] == '/' {
        spec_read_attrs(s, i + 1)
    } else if s[i] == '>' {
        (Seq::empty(), i + 1)
    } else {
        let (nm, j) = spec_read_name(s, i);
        if j == i {
            spec_read_attrs(s, i + 1)
        } else {
            let k = spec_skip_ws(s, j);
            if k < s.len() && s[k] == '=' {
                let k2 = spec_skip_ws(s, k + 1);
                if k2 < s.len() && (s[k2] == '"' || s[k2] == '\'') {
                    let (v, e) = spec_quoted_value(s, k2 + 1, s[k2]);
                    let (rest, done) = spec_read_attrs(s, e);
                    (seq![AttrV { name: nm, value: v }] + rest, done)
                } else {
                    let (v, e) = spec_unquoted_value(s, k2);
                    if e > i {
                        let (rest, done) = spec_read_attrs(s, e);
                        (seq![AttrV { name: nm, value: v }] + rest, done)
                    } else {
                        (Seq::empty(), s.len() as int)
                    }
                }
            } else {
                let (rest, done) = spec_read_attrs(s, j);
                (seq![AttrV { name: nm, value: Seq::empty() }] + rest, done)
            }
        }
    }
}

#[via_fn]
proof fn spec_read_attrs_decreases(s: Seq<char>, i: int) {
    if 0 <= i < s.len() && !(spec_is_space(s[i]) || s[i] == '/') && s[i] != '>' {
        lemma_read_name_bounds(s, i);
        let (nm, j) = spec_read_name(s, i);
        if j != i {
            lemma_skip_ws_bounds(s, j);
            let k = spec_skip_ws(s, j);
            if k < s.len() && s[k] == '=' {
                lemma_skip_ws_bounds(s, k + 1);
                let k2 = spec_skip_ws(s, k + 1);
                if k2 < s.len() && (s[k2] == '"' || s[k2] == '\'') {
                    lemma_quoted_value_bounds(s, k2 + 1, s[k2]);
                } else {
                    lemma_unquoted_value_bounds(s, k2);
                }
            }
        }
    }
}

/// The attribute list ends within the text.
pub proof fn lemma_read_attrs_bounds(s: Seq<char>, i: int)
    requires
        0 <= i <= s.len(),
    ensures
        i <= spec_read_attrs(s, i).1 <= s.len(),
    decreases s.len() - i, 0int,
{
    if 0 <= i < s.len() {
        if spec_is_space(s[i]) || s[i] == '/' {
            lemma_read_attrs_bounds(s, i + 1);
        } else if s[i] == '>' {
        } else {
            lemma_read_name_bounds(s, i);
            let (nm, j) = spec_read_name(s, i);
            if j == i {
                lemma_read_attrs_bounds(s, i + 1);
            } else {
                lemma_skip_ws_bounds(s, j);
                let k = spec_skip_ws(s, j);
                if k < s.len() && s[k] == '=' {
                    lemma_skip_ws_bounds(s, k + 1);
                    let k2 = spec_skip_ws(s, k + 1);
                    if k2 < s.len() && (s[k2] == '"' || s[k2] == '\'') {
                        lemma_quoted_value_bounds(s, k2 + 1, s[k2]);
                        let (v, e) = spec_quoted_value(s, k2 + 1, s[k2]);
                        lemma_read_attrs_bounds(s, e);
                    } else {
                        lemma_unquoted_value_bounds(s, k2);
                        let (v, e) = spec_unquoted_value(s, k2);
                        if e > i {
                            lemma_read_attrs_bounds(s, e);
                        }
                    }
                } else {
                    lemma_read_attrs_bounds(s, j);
                }
            }
        }
    }
}

/// Whether a close tag for `name` starts at `i`.
pub open spec fn spec_is_close_at(s: Seq<char>, i: int, name: Seq<char>) -> bool {
    0 <= i && i + 1 < s.len() && s[i] == '<' && s[i + 1] == '/' && spec_read_name(s, i + 2).0
        == name
}

/// Where the raw content of a raw-text element opened before `i` ends: the
/// first position at or after `i` where a close tag for `name` starts, or
/// the end of the text.
pub open spec fn spec_raw_end(s: Seq<char>, i: int, name: Seq<char>) -> int
    decreases s.len() - i,
{
    if !(0 <= i < s.len()) {
        s.len() as int
    } else if spec_is_close_at(s, i, name) {
        i
    } else {
        spec_raw_end(s, i + 1, name)
    }
}

/// The raw content ends within the text and never before where it began.
pub proof fn lemma_raw_end_bounds(s: Seq<char>, i: int, name: Seq<char>)
    requires
        0 <= i <= s.len(),
    ensures
        i <= spec_raw_end(s, i, name) <= s.len(),
    decreases s.len() - i,
{
    if i < s.len() && !spec_is_close_at(s, i, name) {
        lemma_raw_end_bounds(s, i + 1, name);
    }
}

/// The position after a comment opened before `k`: just past the first `-->`
/// whose `>` sits at or after `k`, or the end of the text.
pub open spec fn spec_skip_comment(s: Seq<char>, k: int) -> int
    decreases s.len() - k,
{
    if !(0 <= k < s.len()) {
        s.len() as int
    } else if s[k] == '>' && k >= 2 && s[k - 1] == '-' && s[k - 2] == '-' {
        k + 1
    } else {
        spec_skip_comment(s, k + 1)
    }
}

/// Hands a finished node to the innermost open element, or to the roots.
pub open spec fn spec_attach(stack: Seq<OpenV>, roots: Seq<HtmlV>, node: HtmlV) -> (
    Seq<OpenV>,
    Seq<HtmlV>,
) {
    if stack.len() == 0 {
        (stack, roots.push(node))
    } else {
        let top = stack.last();
        (
            stack.drop_last().push(
                OpenV { name: top.name, attrs: top.attrs, children: top.children.push(node) },
            ),
            roots,
        )
    }
}

/// Appends the pending text as a text node, if there is any.
pub open spec fn spec_flush(stack: Seq<OpenV>, roots: Seq<HtmlV>, text: Seq<char>) -> (
    Seq<OpenV>,
    Seq<HtmlV>,
) {
    if text.len() == 0 {
        (stack, roots)
    } else {
        spec_attach(stack, roots, HtmlV::Text { text })
    }
}

/// Closes the innermost open element and attaches it.
pub open spec fn spec_close_top(stack: Seq<OpenV>, roots: Seq<HtmlV>) -> (Seq<OpenV>, Seq<HtmlV>) {
    if stack.len() == 0 {
        (stack, roots)
    } else {
        let top = stack.last();
        spec_attach(
            stack.drop_last(),
            roots,
            HtmlV::Element { name: top.name, attrs: top.attrs, children: top.children },
        )
    }
}

/// The position of the innermost open element with this name, if any.
pub open spec fn spec_find_open(stack: Seq<OpenV>, name: Seq<char>) -> Option<int>
    decreases stack.len(),
{
    if stack.len() == 0 {
        None
    } else if stack.last().name == name {
        Some(stack.len() - 1)
    } else {
        spec_find_open(stack.drop_last(), name)
    }
}

/// Closes open elements until only `at` of them are left.
pub open spec fn spec_close_until(stack: Seq<OpenV>, roots: Seq<HtmlV>, at: int) -> (
    Seq<OpenV>,
    Seq<HtmlV>,
)
    decreases stack.len(),
{
    if stack.len() <= at || stack.len() == 0 {
        (stack, roots)
    } else {
        let (stack2, roots2) = spec_close_top(stack, roots);
        spec_close_until(stack2, roots2, at)
    }
}

/// Handles a close tag: closes up to the innermost open element of that
/// name, implicitly closing anything inside it; a close tag that matches no
/// open element is ignored.
pub open spec fn spec_close_matching(stack: Seq<OpenV>, roots: Seq<HtmlV>, name: Seq<char>) -> (
    Seq<OpenV>,
    Seq<HtmlV>,
) {
    match spec_find_open(stack, name) {
        None => (stack, roots),
        Some(at) => spec_close_until(stack, roots, at),
    }
}

/// The end of the parse: pending text flushed, open elements closed.
pub open spec fn spec_finish(stack: Seq<OpenV>, roots: Seq<HtmlV>, text: Seq<char>) -> Seq<HtmlV> {
    let (stack2, roots2) = spec_flush(stack, roots, text);
    spec_close_until(stack2, roots2, 0).1
}

/// One parse state: the remaining position, the open elements, the finished
/// roots and the pending text run.  The result is the finished roots once
/// the text is exhausted.
pub open spec fn spec_parse_from(
    s: Seq<char>,
    i: int,
    stack: Seq<OpenV>,
    roots: Seq<HtmlV>,
    text: Seq<char>,
) -> Seq<HtmlV>
    decreases s.len() - i via spec_parse_from_decreases
{
    if !(0 <= i < s.len()) {
        spec_finish(stack, roots, text)
    } else {
        let c = s[i];
        if c == '<' && i + 1 < s.len() && s[i + 1] == '/' {
            let (nm, j) = spec_read_name(s, i + 2);
            let k = spec_skip_to_gt(s, j);
            let (stack2, roots2) = spec_flush(stack, roots, text);
            let (stack3, roots3) = spec_close_matching(stack2, roots2, nm);
            spec_parse_from(s, k, stack3, roots3, Seq::empty())
        } else if c == '<' && i + 1 < s.len() && spec_is_name_start(s[i + 1]) {
            let (nm, j) = spec_read_name(s, i + 1);
            let (attrs, j2) = spec_read_attrs(s, j);
            let next = if j2 <= i {
                s.len() as int
            } else {
                j2
            };
            let (stack2, roots2) = spec_flush(stack, roots, text);
            if spec_is_void(nm) {
                let (stack3, roots3) = spec_attach(
                    stack2,
                    roots2,
                    HtmlV::Element { name: nm, attrs, children: Seq::empty() },
                );
                spec_parse_from(s, next, stack3, roots3, Seq::empty())
            } else if spec_is_raw_text(nm) {
                let end = spec_raw_end(s, next, nm);
                let kids: Seq<HtmlV> = if next < end {
                    seq![HtmlV::Text { text: s.subrange(next, end) }]
                } else {
                    Seq::empty()
                };
                spec_parse_from(
                    s,
                    end,
                    stack2.push(OpenV { name: nm, attrs, children: kids }),
                    roots2,
                    Seq::empty(),
                )
            } else {
                spec_parse_from(
                    s,
                    next,
                    stack2.push(OpenV { name: nm, attrs, children: Seq::empty() }),
                    roots2,
                    Seq::empty(),
                )
            }
        } else if c == '<' && s.len() - i > 3 && s[i + 1] == '!' && s[i + 2] == '-' && s[i + 3]
            == '-' {
            let k = spec_skip_comment(s, i + 4);
            let (stack2, roots2) = spec_flush(stack, roots, text);
            spec_parse_from(s, k, stack2, roots2, Seq::empty())
        } else if c == '<' && i + 1 < s.len() && s[i + 1] == '!' {
            let k = spec_skip_to_gt(s, i + 2);
            let (stack2, roots2) = spec_flush(stack, roots, text);
            spec_parse_from(s, k, stack2, roots2, Seq::empty())
        } else if c == '&' {
            let (ch, adv) = spec_decode_entity(s, i);
            spec_parse_from(s, i + adv, stack, roots, text.push(ch))
        } else {
            spec_parse_from(s, i + 1, stack, roots, text.push(c))
        }
    }
}

#[via_fn]
proof fn spec_parse_from_decreases(
    s: Seq<char>,
    i: int,
    stack: Seq<OpenV>,
    roots: Seq<HtmlV>,
    text: Seq<char>,
) {
    if 0 <= i < s.len() {
        let c = s[i];
        if c == '<' && i + 1 < s.len() && s[i + 1] == '/' {
            lemma_read_name_bounds(s, i + 2);
            lemma_skip_to_gt_bounds(s, spec_read_name(s, i + 2).1);
        } else if c == '<' && i + 1 < s.len() && spec_is_name_start(s[i + 1]) {
            lemma_read_name_bounds(s, i + 1);
            let (nm, j) = spec_read_name(s, i + 1);
            lemma_read_attrs_bounds(s, j);
            let j2 = spec_read_attrs(s, j).1;
            let next = if j2 <= i {
                s.len() as int
            } else {
                j2
            };
            lemma_raw_end_bounds(s, next, nm);
        } else if c == '<' && s.len() - i > 3 && s[i + 1] == '!' && s[i + 2] == '-' && s[i + 3]
            == '-' {
            lemma_skip_comment_bounds(s, i + 4);
        } else if c == '<' && i + 1 < s.len() && s[i + 1] == '!' {
            lemma_skip_to_gt_bounds(s, i + 2);
        }
    }
}

/// Skipping a comment stays within the text and never goes backwards.
pub proof fn lemma_skip_comment_bounds(s: Seq<char>, k: int)
    requires
        0 <= k <= s.len(),
    ensures
        k <= spec_skip_comment(s, k) <= s.len(),
    decreases s.len() - k,
{
    if k < s.len() && !(s[k] == '>' && k >= 2 && s[k - 1] == '-' && s[k - 2] == '-') {
        lemma_skip_comment_bounds(s, k + 1);
    }
}

/// What parsing an HTML fragment yields: the parse run from the start, with
/// nothing open, no roots and no pending text.
pub open spec fn spec_parse(s: Seq<char>) -> Seq<HtmlV> {
    spec_parse_from(s, 0, Seq::empty(), Seq::empty(), Seq::empty())
}

/// The name starting at `from`, lowercased.
fn read_name(html: &str, from: usize, n: usize) -> (r: (String, usize))
    requires
        n == html@.len(),
        from <= n,
    ensures
        (r.0@, r.1 as int) == spec_read_name(html@, from as int),
        from <= r.1 <= n,
{
    let mut name = String::new();
    let mut i = from;
    while i < n && is_name_char(html.get_char(i))
        invariant
            n == html@.len(),
            from <= i <= n,
            spec_read_name(html@, from as int).0 == name@ + spec_read_name(html@, i as int).0,
            spec_read_name(html@, from as int).1 == spec_read_name(html@, i as int).1,
        decreases n - i,
    {
        let ghost oldname = name@;
        push_char(&mut name, lower_char(html.get_char(i)));
        proof {
            assert(spec_read_name(html@, i as int).0 == seq![spec_lower_char(html@[i as int])]
                + spec_read_name(html@, i + 1).0);
            assert(oldname + spec_read_name(html@, i as int).0 =~= name@ + spec_read_name(
                html@,
                i + 1,
            ).0);
        }
        i += 1;
    }
    proof {
        assert(spec_read_name(html@, i as int).0 =~= Seq::<char>::empty());
        assert(name@ + spec_read_name(html@, i as int).0 =~= name@);
    }
    (name, i)
}

/// The position after the first `>` at or after `from`.
fn skip_to_gt(html: &str, from: usize, n: usize) -> (r: usize)
    requires
        n == html@.len(),
        from <= n,
    ensures
        r as int == spec_skip_to_gt(html@, from as int),
        from <= r <= n,
{
    let mut k = from;
    while k < n && html.get_char(k) != '>'
        invariant
            n == html@.len(),
            from <= k <= n,
            spec_skip_to_gt(html@, from as int) == spec_skip_to_gt(html@, k as int),
        decreases n - k,
    {
        k += 1;
    }
    if k < n {
        k + 1
    } else {
        n
    }
}

/// The position after the whitespace run at `from`.
fn skip_ws(html: &str, from: usize, n: usize) -> (r: usize)
    requires
        n == html@.len(),
        from <= n,
    ensures
        r as int == spec_skip_ws(html@, from as int),
        from <= r <= n,
{
    let mut k = from;
    while k < n && is_space(html.get_char(k))
        invariant
            n == html@.len(),
            from <= k <= n,
            spec_skip_ws(html@, from as int) == spec_skip_ws(html@, k as int),
        decreases n - k,
    {
        k += 1;
    }
    k
}

/// Decodes the entity starting at `i` (which holds `&`).
fn decode_entity(html: &str, i: usize, n: usize) -> (r: (char, usize))
    requires
        n == html@.len(),
        i < n,
    ensures
        (r.0, r.1 as int) == spec_decode_entity(html@, i as int),
        1 <= r.1,
        i + r.1 <= n,
{
    let rest = n - i;
    if rest >= 5 && html.get_char(i + 1) == 'a' && html.get_char(i + 2) == 'm' && html.get_char(
        i + 3,
    ) == 'p' && html.get_char(i + 4) == ';' {
        ('&', 5)
    } else if rest >= 4 && html.get_char(i + 1) == 'l' && html.get_char(i + 2) == 't'
        && html.get_char(i + 3) == ';' {
        ('<', 4)
    } else if rest >= 4 && html.get_char(i + 1) == 'g' && html.get_char(i + 2) == 't'
        && html.get_char(i + 3) == ';' {
        ('>', 4)
    } else if rest >= 6 && html.get_char(i + 1) == 'q' && html.get_char(i + 2) == 'u'
        && html.get_char(i + 3) == 'o' && html.get_char(i + 4) == 't' && html.get_char(i + 5)
        == ';' {
        ('"', 6)
    } else if rest >= 6 && html.get_char(i + 1) == 'n' && html.get_char(i + 2) == 'b'
        && html.get_char(i + 3) == 's' && html.get_char(i + 4) == 'p' && html.get_char(i + 5)
        == ';' {
        ('\u{a0}', 6)
    } else if rest >= 5 && html.get_char(i + 1) == '#' && html.get_char(i + 2) == '3'
        && html.get_char(i + 3) == '9' && html.get_char(i + 4) == ';' {
        ('\'', 5)
    } else {
        ('&', 1)
    }
}

/// A quoted attribute value, decoded, and the position after its quote.
fn quoted_value(html: &str, from: usize, quote: char, n: usize) -> (r: (String, usize))
    requires
        n == html@.len(),
        from <= n,
    ensures
        (r.0@, r.1 as int) == spec_quoted_value(html@, from as int, quote),
        from <= r.1 <= n,
{
    let mut value = String::new();
    let mut k = from;
    while k < n && html.get_char(k) != quote
        invariant
            n == html@.len(),
            from <= k <= n,
            spec_quoted_value(html@, from as int, quote).0 == value@ + spec_quoted_value(
                html@,
                k as int,
                quote,
            ).0,
            spec_quoted_value(html@, from as int, quote).1 == spec_quoted_value(
                html@,
                k as int,
                quote,
            ).1,
        decreases n - k,
    {
        let ghost oldv = value@;
        let ghost oldk = k as int;
        if html.get_char(k) == '&' {
            let (ch, adv) = decode_entity(html, k, n);
            push_char(&mut value, ch);
            k += adv;
        } else {
            push_char(&mut value, html.get_char(k));
            k += 1;
        }
        proof {
            assert(oldv + spec_quoted_value(html@, oldk, quote).0 =~= value@ + spec_quoted_value(
                html@,
                k as int,
                quote,
            ).0);
        }
    }
    proof {
        if k < n {
            assert(spec_quoted_value(html@, k as int, quote).0 =~= Seq::<char>::empty());
        } else {
            assert(spec_quoted_value(html@, k as int, quote).0 =~= Seq::<char>::empty());
        }
        assert(value@ + spec_quoted_value(html@, k as int, quote).0 =~= value@);
    }
    if k < n {
        (value, k + 1)
    } else {
        (value, n)
    }
}

/// An unquoted attribute value, decoded, and the position after it.
fn unquoted_value(html: &str, from: usize, n: usize) -> (r: (String, usize))
    requires
        n == html@.len(),
        from <= n,
    ensures
        (r.0@, r.1 as int) == spec_unquoted_value(html@, from as int),
        from <= r.1 <= n,
{
    let mut value = String::new();
    let mut k = from;
    while k < n && !is_space(html.get_char(k)) && html.get_char(k) != '>'
        invariant
            n == html@.len(),
            from <= k <= n,
            spec_unquoted_value(html@, from as int).0 == value@ + spec_unquoted_value(
                html@,
                k as int,
            ).0,
            spec_unquoted_value(html@, from as int).1 == spec_unquoted_value(html@, k as int).1,
        decreases n - k,
    {
        let ghost oldv = value@;
        let ghost oldk = k as int;
        if html.get_char(k) == '&' {
            let (ch, adv) = decode_entity(html, k, n);
            push_char(&mut value, ch);
            k += adv;
        } else {
            push_char(&mut value, html.get_char(k));
            k += 1;
        }
        proof {
            assert(oldv + spec_unquoted_value(html@, oldk).0 =~= value@ + spec_unquoted_value(
                html@,
                k as int,
            ).0);
        }
    }
    proof {
        assert(spec_unquoted_value(html@, k as int).0 =~= Seq::<char>::empty());
        assert(value@ + spec_unquoted_value(html@, k as int).0 =~= value@);
    }
    (value, k)
}

/// The attribute list up to and including the closing `>`, and the position
/// after the tag.
fn read_attrs(html: &str, from: usize, n: usize) -> (r: (Vec<Attr>, usize))
    requires
        n == html@.len(),
        from <= n,
    ensures
        (attr_views(r.0@), r.1 as int) == spec_read_attrs(html@, from as int),
        from <= r.1 <= n,
{
    let mut attrs: Vec<Attr> = Vec::new();
    let mut i = from;
    proof {
        assert(attr_views(attrs@) =~= Seq::<AttrV>::empty());
        assert(Seq::<AttrV>::empty() + spec_read_attrs(html@, from as int).0 =~= spec_read_attrs(
            html@,
            from as int,
        ).0);
    }
    while i < n
        invariant
            n == html@.len(),
            from <= i <= n,
            spec_read_attrs(html@, from as int).0 =~= attr_views(attrs@) + spec_read_attrs(
                html@,
                i as int,
            ).0,
            spec_read_attrs(html@, from as int).1 == spec_read_attrs(html@, i as int).1,
        decreases n - i,
    {
        let c = html.get_char(i);
        if is_space(c) || c == '/' {
            i += 1;
        } else if c == '>' {
            proof {
                assert(spec_read_attrs(html@, i as int).0 =~= Seq::<AttrV>::empty());
                assert(attr_views(attrs@) + spec_read_attrs(html@, i as int).0 =~= attr_views(
                    attrs@,
                ));
            }
            return (attrs, i + 1);
        } else {
            let (name, j) = read_name(html, i, n);
            if j == i {
                i += 1;
            } else {
                let ghost oldattrs = attr_views(attrs@);
                let ghost starti = i as int;
                let k = skip_ws(html, j, n);
                let mut value = String::new();
                let mut after = j;
                if k < n && html.get_char(k) == '=' {
                    let k2 = skip_ws(html, k + 1, n);
                    if k2 < n && (html.get_char(k2) == '"' || html.get_char(k2) == '\'') {
                        let quote = html.get_char(k2);
                        let (v, e) = quoted_value(html, k2 + 1, quote, n);
                        value = v;
                        after = e;
                    } else {
                        let (v, e) = unquoted_value(html, k2, n);
                        value = v;
                        after = if e > i {
                            e
                        } else {
                            n
                        };
                        proof {
                            if spec_unquoted_value(html@, k2 as int).1 <= starti {
                                assert(spec_read_attrs(html@, starti).0
                                    =~= Seq::<AttrV>::empty());
                            }
                        }
                    }
                } else {
                    after = j;
                }
                let ghost av = AttrV { name: name@, value: value@ };
                attrs.push(Attr { name, value });
                proof {
                    assert(attr_views(attrs@) =~= oldattrs.push(av));
                    if spec_read_attrs(html@, starti).0.len() > 0 {
                        assert(oldattrs + spec_read_attrs(html@, starti).0 =~= attr_views(attrs@)
                            + spec_read_attrs(html@, after as int).0);
                    }
                }
                i = after;
            }
        }
    }
    proof {
        assert(spec_read_attrs(html@, i as int).0 =~= Seq::<AttrV>::empty());
        assert(attr_views(attrs@) + spec_read_attrs(html@, i as int).0 =~= attr_views(attrs@));
    }
    (attrs, n)
}

/// Hands a finished node to the innermost open element, or to the roots.
fn attach(stack: &mut Vec<OpenElement>, roots: &mut Vec<Html>, node: Html)
    ensures
        (open_views(final(stack)@), deep_list(final(roots)@)) == spec_attach(
            open_views(old(stack)@),
            deep_list(old(roots)@),
            node.deep(),
        ),
        final(stack)@.len() == old(stack)@.len(),
{
    if stack.len() == 0 {
        let ghost oldroots = roots@;
        roots.push(node);
        proof {
            lemma_deep_list_snoc(oldroots, node);
            assert(open_views(stack@) =~= open_views(stack@));
        }
    } else {
        let ghost oldstack = stack@;
        match stack.pop() {
            Some(mut top) => {
                let ghost oldtop = open_view(top);
                let ghost oldchildren = top.children@;
                top.children.push(node);
                proof {
                    lemma_deep_list_snoc(oldchildren, node);
                }
                stack.push(top);
                proof {
                    assert(open_views(stack@) =~= open_views(oldstack).drop_last().push(
                        OpenV {
                            name: oldtop.name,
                            attrs: oldtop.attrs,
                            children: oldtop.children.push(node.deep()),
                        },
                    )) by {
                        assert forall|t: int| 0 <= t < stack@.len() - 1 implies open_views(
                            stack@,
                        )[t] == open_views(oldstack)[t] by {
                            assert(stack@[t] == oldstack[t]);
                        }
                    }
                    assert(open_views(oldstack).last() == oldtop);
                }
            },
            None => {},
        }
    }
}

/// Closes the innermost open element and attaches it.
fn close_top(stack: &mut Vec<OpenElement>, roots: &mut Vec<Html>)
    requires
        old(stack)@.len() > 0,
    ensures
        (open_views(final(stack)@), deep_list(final(roots)@)) == spec_close_top(
            open_views(old(stack)@),
            deep_list(old(roots)@),
        ),
        final(stack)@.len() == old(stack)@.len() - 1,
{
    let ghost oldstack = stack@;
    match stack.pop() {
        Some(top) => {
            let ghost topv = open_view(top);
            let node = Html::Element { name: top.name, attrs: top.attrs, children: top.children };
            proof {
                assert(node.deep() =~~= (HtmlV::Element {
                    name: topv.name,
                    attrs: topv.attrs,
                    children: topv.children,
                }));
                assert(open_views(stack@) =~= open_views(oldstack).drop_last());
                assert(open_views(oldstack).last() == topv);
            }
            attach(stack, roots, node);
        },
        None => {},
    }
}

/// Handles a close tag: closes up to the innermost open element of that
/// name; a close tag that matches no open element is ignored.
fn close_matching(stack: &mut Vec<OpenElement>, roots: &mut Vec<Html>, name: &str)
    ensures
        (open_views(final(stack)@), deep_list(final(roots)@)) == spec_close_matching(
            open_views(old(stack)@),
            deep_list(old(roots)@),
            name@,
        ),
{
    let ghost sv = open_views(stack@);
    let mut found: bool = false;
    let mut at: usize = 0;
    let mut k: usize = stack.len();
    proof {
        assert(sv.subrange(0, sv.len() as int) =~= sv);
    }
    while k > 0
        invariant
            k <= stack@.len(),
            sv == open_views(stack@),
            !found ==> spec_find_open(sv, name@) == spec_find_open(
                sv.subrange(0, k as int),
                name@,
            ),
            found ==> at < stack@.len() && spec_find_open(sv, name@) == Some(at as int),
        decreases k,
    {
        k -= 1;
        proof {
            let pre = sv.subrange(0, k + 1);
            assert(pre.drop_last() =~= sv.subrange(0, k as int));
            assert(pre.last() == sv[k as int]);
            assert(sv[k as int] == open_view(stack@[k as int]));
        }
        if !found && crate::str_eq(stack[k].name.as_str(), name) {
            found = true;
            at = k;
        }
    }
    proof {
        if !found {
            assert(sv.subrange(0, 0) =~= Seq::<OpenV>::empty());
        }
    }
    if found {
        let ghost roots0 = deep_list(roots@);
        while stack.len() > at
            invariant
                at <= stack@.len(),
                spec_close_until(sv, roots0, at as int) == spec_close_until(
                    open_views(stack@),
                    deep_list(roots@),
                    at as int,
                ),
            decreases stack@.len(),
        {
            close_top(stack, roots);
        }
        proof {
            assert(spec_close_until(open_views(stack@), deep_list(roots@), at as int) == (
            open_views(stack@),
            deep_list(roots@),
            ));
        }
    }
}

/// Appends the pending text run as a text node, if it is not empty.
fn flush_text(stack: &mut Vec<OpenElement>, roots: &mut Vec<Html>, text: &mut String)
    ensures
        (open_views(final(stack)@), deep_list(final(roots)@)) == spec_flush(
            open_views(old(stack)@),
            deep_list(old(roots)@),
            old(text)@,
        ),
        final(text)@ == Seq::<char>::empty(),
{
    if !text.as_str().is_empty() {
        let mut t = String::new();
        core::mem::swap(&mut t, text);
        attach(stack, roots, Html::Text { text: t });
    } else {
        proof {
            assert(text@ =~= Seq::<char>::empty());
        }
    }
}

/// Parses an HTML fragment into a list of root nodes, exactly as
/// [`spec_parse`] describes: elements nest by their open and close tags;
/// void elements complete at once; text decodes the common entities;
/// comments and doctypes are dropped; a stray close tag is ignored and
/// elements still open at the end are closed implicitly — the tolerant
/// treatment an HTML parser gives such fragments.
pub fn parse_fragment(html: &str) -> (r: Vec<Html>)
    ensures
        deep_list(r@) == spec_parse(html@),
{
    let n = html.unicode_len();
    let mut i: usize = 0;
    let mut stack: Vec<OpenElement> = Vec::new();
    let mut roots: Vec<Html> = Vec::new();
    let mut text = String::new();
    proof {
        assert(open_views(stack@) =~= Seq::<OpenV>::empty());
        assert(deep_list(roots@) =~= Seq::<HtmlV>::empty());
    }
    while i < n
        invariant
            n == html@.len(),
            i <= n,
            spec_parse(html@) == spec_parse_from(
                html@,
                i as int,
                open_views(stack@),
                deep_list(roots@),
                text@,
            ),
        decreases n - i,
    {
        let c = html.get_char(i);
        if c == '<' && i + 1 < n && html.get_char(i + 1) == '/' {
            flush_text(&mut stack, &mut roots, &mut text);
            let (name, j) = read_name(html, i + 2, n);
            let k = skip_to_gt(html, j, n);
            close_matching(&mut stack, &mut roots, name.as_str());
            i = k;
        } else if c == '<' && i + 1 < n && is_name_start(html.get_char(i + 1)) {
            flush_text(&mut stack, &mut roots, &mut text);
            let (name, j) = read_name(html, i + 1, n);
            let (attrs, j2) = read_attrs(html, j, n);
            let next = if j2 <= i {
                n
            } else {
                j2
            };
            if is_void_name(name.as_str()) {
                let node = Html::Element { name, attrs, children: Vec::new() };
                proof {
                    assert(node.deep() =~~= (HtmlV::Element {
                        name: spec_read_name(html@, i + 1).0,
                        attrs: spec_read_attrs(html@, spec_read_name(html@, i + 1).1).0,
                        children: Seq::empty(),
                    }));
                }
                attach(&mut stack, &mut roots, node);
                i = next;
            } else if is_raw_text_name(name.as_str()) {
                let ghost nm = name@;
                let mut k = next;
                while k < n && !is_close_at(html, k, n, name.as_str())
                    invariant
                        n == html@.len(),
                        next <= k <= n,
                        nm == name@,
                        spec_raw_end(html@, next as int, nm) == spec_raw_end(
                            html@,
                            k as int,
                            nm,
                        ),
                    decreases n - k,
                {
                    k += 1;
                }
                let end = k;
                let mut kids: Vec<Html> = Vec::new();
                if next < end {
                    let content = html.substring_char(next, end);
                    kids.push(Html::Text { text: content.to_owned() });
                    proof {
                        lemma_deep_list_singleton(kids@[0]);
                        assert(kids@ =~= seq![kids@[0]]);
                    }
                } else {
                    proof {
                        assert(deep_list(kids@) =~= Seq::<HtmlV>::empty());
                    }
                }
                let elem = OpenElement { name, attrs, children: kids };
                proof {
                    assert(end as int == spec_raw_end(html@, next as int, nm));
                    assert(open_view(elem) =~~= (OpenV {
                        name: spec_read_name(html@, i + 1).0,
                        attrs: spec_read_attrs(html@, spec_read_name(html@, i + 1).1).0,
                        children: if (next as int) < end as int {
                            seq![HtmlV::Text { text: html@.subrange(next as int, end as int) }]
                        } else {
                            Seq::empty()
                        },
                    }));
                }
                let ghost oldsv = open_views(stack@);
                let ghost ev = open_view(elem);
                stack.push(elem);
                proof {
                    assert(open_views(stack@) =~= oldsv.push(ev));
                }
                i = end;
            } else {
                let elem = OpenElement { name, attrs, children: Vec::new() };
                proof {
                    assert(open_view(elem) =~~= (OpenV {
                        name: spec_read_name(html@, i + 1).0,
                        attrs: spec_read_attrs(html@, spec_read_name(html@, i + 1).1).0,
                        children: Seq::empty(),
                    }));
                }
                let ghost oldsv = open_views(stack@);
                let ghost ev = open_view(elem);
                stack.push(elem);
                proof {
                    assert(open_views(stack@) =~= oldsv.push(ev));
                }
                i = next;
            }
        } else if c == '<' && n - i > 3 && html.get_char(i + 1) == '!' && html.get_char(i + 2)
            == '-' && html.get_char(i + 3) == '-' {
            flush_text(&mut stack, &mut roots, &mut text);
            let mut k = i + 4;
            while k < n && !(html.get_char(k) == '>' && k >= 2 && html.get_char(k - 1) == '-'
                && html.get_char(k - 2) == '-')
                invariant
                    n == html@.len(),
                    i + 4 <= k <= n,
                    spec_skip_comment(html@, i + 4) == spec_skip_comment(html@, k as int),
                decreases n - k,
            {
                k += 1;
            }
            i = if k < n {
                k + 1
            } else {
                n
            };
        } else if c == '<' && i + 1 < n && html.get_char(i + 1) == '!' {
            flush_text(&mut stack, &mut roots, &mut text);
            let k = skip_to_gt(html, i + 2, n);
            i = k;
        } else if c == '&' {
            let (ch, adv) = decode_entity(html, i, n);
            push_char(&mut text, ch);
            i += adv;
        } else {
            push_char(&mut text, c);
            i += 1;
        }
    }
    flush_text(&mut stack, &mut roots, &mut text);
    while stack.len() > 0
        invariant
            text@ == Seq::<char>::empty(),
            spec_parse(html@) == spec_finish(open_views(stack@), deep_list(roots@), text@),
        decreases stack@.len(),
    {
        proof {
            let sv = open_views(stack@);
            let rv = deep_list(roots@);
            assert(spec_flush(sv, rv, text@) == (sv, rv));
        }
        close_top(&mut stack, &mut roots);
    }
    proof {
        let sv = open_views(stack@);
        let rv = deep_list(roots@);
        assert(spec_flush(sv, rv, text@) == (sv, rv));
        assert(spec_close_until(sv, rv, 0) == (sv, rv));
    }
    roots
}

/// The serialization of a list of sibling nodes.
pub fn serialize_list(nodes: &Vec<Html>) -> (r: String)
    ensures
        r@ == spec_ser_list(deep_list(nodes@)),
{
    let mut out = String::new();
    let mut i: usize = 0;
    proof {
        assert(Seq::<char>::empty() + spec_ser_list(deep_list(nodes@).subrange(0, 0))
            =~= spec_ser_list(deep_list(nodes@).subrange(0, 0)));
        assert(out@ + spec_ser_list(deep_list(nodes@).subrange(0, 0)) =~= out@);
    }
    while i < nodes.len()
        invariant
            i <= nodes@.len(),
            out@ == spec_ser_list(deep_list(nodes@).subrange(0, i as int)),
        decreases nodes@.len() - i,
    {
        serialize_into(&nodes[i], &mut out);
        proof {
            lemma_deep_list_len(nodes@);
            lemma_deep_list_index(nodes@, i as int);
            let vs = deep_list(nodes@);
            let pre = vs.subrange(0, i as int);
            let cur = vs.subrange(0, i + 1);
            assert(cur.drop_last() =~= pre);
            assert(cur.last() == nodes@[i as int].deep());
            assert(out@ =~= spec_ser_list(cur));
        }
        i += 1;
    }
    proof {
        lemma_deep_list_len(nodes@);
        assert(deep_list(nodes@).subrange(0, nodes@.len() as int) =~= deep_list(nodes@));
    }
    out
}

} // verus!
