//! A file-backed personal knowledge base: Markdown pages with optional YAML
//! front matter are rendered into a browsable, taggable, cache-friendly site.
//!
//! The library holds the content pipeline: page loading and classification,
//! URL-safe slug generation, tag aggregation, HTML enhancement of rendered
//! Markdown, and HTTP freshness computation.  File and network I/O stay with
//! the caller, which hands the library a snapshot of the page directory as
//! plain values.
use vstd::prelude::*;

pub mod dates;
pub mod decorators;
pub mod dom;
pub mod page;
pub mod settings;
pub mod string_ext;
pub mod tag;
pub mod templates;
pub mod web;

verus! {

/// How an operation on the page store can fail.
#[derive(Debug)]
pub enum PkbError {
    /// The file could not be read, or its front matter could not be parsed.
    Io(String),
    /// Page is invalid or not found.
    PageNotFound,
}

/// The characters of an ASCII byte sequence, one character per byte.
pub open spec fn bytes_to_chars(b: Seq<u8>) -> Seq<char> {
    Seq::new(b.len(), |i: int| b[i] as char)
}

/// The bytes of a character sequence known to be ASCII, one byte per character.
pub open spec fn chars_to_bytes(s: Seq<char>) -> Seq<u8> {
    Seq::new(s.len(), |i: int| s[i] as u8)
}

/// Lexicographic order on character sequences by code point, the order Rust's
/// string comparison gives.
pub open spec fn chars_le(a: Seq<char>, b: Seq<char>) -> bool
    decreases a.len(),
{
    if a.len() == 0 {
        true
    } else if b.len() == 0 {
        false
    } else if a[0] != b[0] {
        a[0] < b[0]
    } else {
        chars_le(a.drop_first(), b.drop_first())
    }
}

/// The lexicographic order is total.
pub proof fn lemma_chars_le_total(a: Seq<char>, b: Seq<char>)
    ensures
        chars_le(a, b) || chars_le(b, a),
    decreases a.len(),
{
    if a.len() == 0 || b.len() == 0 {
    } else if a[0] != b[0] {
    } else {
        lemma_chars_le_total(a.drop_first(), b.drop_first());
    }
}

/// The lexicographic order is transitive.
pub proof fn lemma_chars_le_trans(a: Seq<char>, b: Seq<char>, c: Seq<char>)
    requires
        chars_le(a, b),
        chars_le(b, c),
    ensures
        chars_le(a, c),
    decreases a.len(),
{
    if a.len() == 0 || b.len() == 0 || c.len() == 0 {
    } else if a[0] == b[0] && b[0] == c[0] {
        lemma_chars_le_trans(a.drop_first(), b.drop_first(), c.drop_first());
    }
}

/// The lexicographic order is antisymmetric.
pub proof fn lemma_chars_le_antisym(a: Seq<char>, b: Seq<char>)
    requires
        chars_le(a, b),
        chars_le(b, a),
    ensures
        a == b,
    decreases a.len(),
{
    if a.len() == 0 {
        assert(b.len() == 0);
        assert(a =~= b);
    } else {
        assert(b.len() > 0);
        assert(a[0] == b[0]);
        lemma_chars_le_antisym(a.drop_first(), b.drop_first());
        assert(a =~= seq![a[0]] + a.drop_first());
        assert(b =~= seq![b[0]] + b.drop_first());
    }
}

/// The lexicographic order is reflexive.
pub proof fn lemma_chars_le_refl(a: Seq<char>)
    ensures
        chars_le(a, a),
    decreases a.len(),
{
    if a.len() > 0 {
        lemma_chars_le_refl(a.drop_first());
    }
}

/// Whether two string slices hold the same characters.
pub fn str_eq(a: &str, b: &str) -> (r: bool)
    ensures
        r == (a@ == b@),
{
    let r = str_le(a, b) && str_le(b, a);
    proof {
        if r {
            lemma_chars_le_antisym(a@, b@);
        } else {
            lemma_chars_le_refl(a@);
        }
    }
    r
}

/// Compares two strings in lexicographic code point order.
pub fn str_le(a: &str, b: &str) -> (r: bool)
    ensures
        r == chars_le(a@, b@),
{
    let an = a.unicode_len();
    let bn = b.unicode_len();
    let mut i: usize = 0;
    proof {
        assert(a@.skip(0) =~= a@);
        assert(b@.skip(0) =~= b@);
    }
    loop
        invariant
            i <= an,
            i <= bn,
            an == a@.len(),
            bn == b@.len(),
            a@.subrange(0, i as int) =~= b@.subrange(0, i as int),
            chars_le(a@, b@) == chars_le(a@.skip(i as int), b@.skip(i as int)),
        decreases an - i,
    {
        if i >= an {
            return true;
        }
        if i >= bn {
            return false;
        }
        let ca = a.get_char(i);
        let cb = b.get_char(i);
        if ca != cb {
            return ca < cb;
        }
        proof {
            assert(a@.skip(i as int).drop_first() =~= a@.skip(i + 1));
            assert(b@.skip(i as int).drop_first() =~= b@.skip(i + 1));
            assert(a@.subrange(0, i + 1) =~= b@.subrange(0, i + 1));
        }
        i += 1;
    }
}

} // verus!
