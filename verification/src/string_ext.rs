//! URL-safe slug generation and small string helpers.
//!
//! A slug is ASCII lowercase, words separated by single hyphens, with no
//! leading or trailing hyphen.  Punctuation becomes a hyphen, a few symbols
//! become whole words, and non-ASCII text is first transliterated to ASCII.
use vstd::prelude::*;

use crate::{bytes_to_chars, chars_to_bytes};

verus! {

broadcast use vstd::std_specs::vec::group_vec_axioms;

/// Lowercase ASCII letters and digits: the bytes a slug word is made of.
pub open spec fn is_slug_word_byte(b: u8) -> bool {
    (('a' as u8) <= b <= ('z' as u8)) || (('0' as u8) <= b <= ('9' as u8))
}

/// The bytes that may appear in a finished slug.
pub open spec fn is_slug_byte(b: u8) -> bool {
    is_slug_word_byte(b) || b == ('-' as u8)
}

/// ASCII letters and digits, either case.
pub open spec fn is_ascii_alnum(b: u8) -> bool {
    (('a' as u8) <= b <= ('z' as u8)) || (('A' as u8) <= b <= ('Z' as u8)) || (('0' as u8) <= b <= ('9' as u8))
}

/// Lowercases one ASCII byte.
pub open spec fn to_lower_byte(b: u8) -> u8 {
    if ('A' as u8) <= b <= ('Z' as u8) {
        (b + 32) as u8
    } else {
        b
    }
}

/// Whether this byte is replaced by a whole word in the slug.
pub open spec fn is_symbol_byte(b: u8) -> bool {
    b == ('@' as u8) || b == ('&' as u8) || b == ('/' as u8) || b == ('+' as u8)
}

/// The word a symbol byte is replaced by.
pub open spec fn symbol_word(b: u8) -> Seq<u8> {
    if b == ('@' as u8) {
        seq![('a' as u8), ('t' as u8)]
    } else if b == ('&' as u8) {
        seq![('a' as u8), ('n' as u8), ('d' as u8)]
    } else if b == ('/' as u8) {
        seq![('s' as u8), ('l' as u8), ('a' as u8), ('s' as u8), ('h' as u8)]
    } else {
        seq![('p' as u8), ('l' as u8), ('u' as u8), ('s' as u8)]
    }
}

/// Appends a standalone hyphen-delimited word: a separating hyphen unless the
/// output is empty or already ends in one, then the word, then a hyphen.
pub open spec fn spec_add_word(out: Seq<u8>, w: Seq<u8>) -> Seq<u8> {
    let base = if out.len() == 0 || out.last() == ('-' as u8) {
        out
    } else {
        out.push(('-' as u8))
    };
    base + w + seq![('-' as u8)]
}

/// One step of the slug scan: how one transliterated byte extends the output.
pub open spec fn spec_slug_push(out: Seq<u8>, b: u8) -> Seq<u8> {
    if b == ('\'' as u8) {
        out
    } else if is_symbol_byte(b) {
        spec_add_word(out, symbol_word(b))
    } else if is_ascii_alnum(b) {
        out.push(to_lower_byte(b))
    } else if out.len() == 0 || out.last() == ('-' as u8) {
        out
    } else {
        out.push(('-' as u8))
    }
}

/// The slug scan over a whole byte sequence, left to right.
pub open spec fn spec_slug_scan(s: Seq<u8>) -> Seq<u8>
    decreases s.len(),
{
    if s.len() == 0 {
        Seq::empty()
    } else {
        spec_slug_push(spec_slug_scan(s.drop_last()), s.last())
    }
}

/// Removes the single trailing hyphen the scan may leave.
pub open spec fn spec_trim_hyphen(s: Seq<u8>) -> Seq<u8> {
    if s.len() > 0 && s.last() == ('-' as u8) {
        s.drop_last()
    } else {
        s
    }
}

/// The slug of a transliterated ASCII byte sequence.
pub open spec fn slug_bytes(s: Seq<u8>) -> Seq<u8> {
    spec_trim_hyphen(spec_slug_scan(s))
}

/// The slug of a piece of text: transliterated, scanned, trimmed.
pub open spec fn spec_slug_of(s: Seq<char>) -> Seq<char> {
    crate::bytes_to_chars(slug_bytes(ascii_of(s)))
}

/// Invariant of the scan output: slug bytes only, no leading hyphen, no two
/// hyphens in a row.  A trailing hyphen is still allowed here.
pub open spec fn scan_ok(s: Seq<u8>) -> bool {
    &&& forall|i: int| 0 <= i < s.len() ==> is_slug_byte(#[trigger] s[i])
    &&& s.len() > 0 ==> s[0] != ('-' as u8)
    &&& forall|i: int| 0 < i < s.len() && #[trigger] s[i] == ('-' as u8) ==> s[i - 1] != ('-' as u8)
}

/// A well-formed slug: scan invariant plus no trailing hyphen.
pub open spec fn is_slug(s: Seq<u8>) -> bool {
    scan_ok(s) && (s.len() > 0 ==> s.last() != ('-' as u8))
}

/// A well-formed slug at the character level.
pub open spec fn low_ascii_char(c: char) -> bool {
    (c as u32) < 127
}

pub open spec fn is_slug_chars(s: Seq<char>) -> bool {
    &&& forall|i: int| 0 <= i < s.len() ==> low_ascii_char(#[trigger] s[i])
    &&& is_slug(chars_to_bytes(s))
}


proof fn lemma_low_char_roundtrip(c: char)
    requires
        (c as u32) < 127,
    ensures
        ((c as u8) as char) == c,
{
}

proof fn lemma_ascii_byte_roundtrip(b: u8)
    requires
        b < 128,
    ensures
        ((b as char) as u8) == b,
{
}

proof fn lemma_add_word_ok(out: Seq<u8>, w: Seq<u8>)
    requires
        scan_ok(out),
        w.len() > 0,
        forall|i: int| 0 <= i < w.len() ==> is_slug_word_byte(#[trigger] w[i]),
    ensures
        scan_ok(spec_add_word(out, w)),
{
    let base = if out.len() == 0 || out.last() == ('-' as u8) {
        out
    } else {
        out.push(('-' as u8))
    };
    let r = base + w + seq![('-' as u8)];
    assert forall|i: int| 0 <= i < r.len() implies is_slug_byte(#[trigger] r[i]) by {
        if i < base.len() {
            if i < out.len() {
                assert(r[i] == out[i]);
            } else {
                assert(r[i] == ('-' as u8));
            }
        } else if i < base.len() + w.len() {
            assert(r[i] == w[i - base.len()]);
        } else {
            assert(r[i] == ('-' as u8));
        }
    }
    assert(r.len() > 0);
    if out.len() > 0 {
        assert(r[0] == out[0]);
    } else {
        assert(r[0] == w[0]);
    }
    assert forall|i: int| 0 < i < r.len() && #[trigger] r[i] == ('-' as u8) implies r[i - 1] != ('-' as u8) by {
        if i < base.len() {
            if i < out.len() {
                assert(r[i] == out[i] && r[i - 1] == out[i - 1]);
            } else {
                // i is the separating hyphen; the byte before it is out's last,
                // and the separator is only added when that is not a hyphen
                assert(r[i - 1] == out[out.len() - 1]);
            }
        } else if i < base.len() + w.len() {
            assert(r[i] == w[i - base.len()]);
        } else {
            assert(i == base.len() + w.len());
            assert(r[i - 1] == w[w.len() - 1]);
        }
    }
}

proof fn lemma_push_ok(out: Seq<u8>, b: u8)
    requires
        scan_ok(out),
    ensures
        scan_ok(spec_slug_push(out, b)),
{
    if b == ('\'' as u8) {
    } else if is_symbol_byte(b) {
        lemma_add_word_ok(out, symbol_word(b));
    } else if is_ascii_alnum(b) {
        let r = out.push(to_lower_byte(b));
        assert forall|i: int| 0 <= i < r.len() implies is_slug_byte(#[trigger] r[i]) by {
            if i < out.len() {
                assert(r[i] == out[i]);
            }
        }
        assert forall|i: int| 0 < i < r.len() && #[trigger] r[i] == ('-' as u8) implies r[i - 1]
            != ('-' as u8) by {
            assert(r[i] == if i < out.len() {
                out[i]
            } else {
                to_lower_byte(b)
            });
            if i < out.len() {
                assert(r[i - 1] == out[i - 1]);
            }
        }
    } else if out.len() == 0 || out.last() == ('-' as u8) {
    } else {
        let r = out.push(('-' as u8));
        assert forall|i: int| 0 <= i < r.len() implies is_slug_byte(#[trigger] r[i]) by {
            if i < out.len() {
                assert(r[i] == out[i]);
            }
        }
        assert forall|i: int| 0 < i < r.len() && #[trigger] r[i] == ('-' as u8) implies r[i - 1]
            != ('-' as u8) by {
            if i < out.len() {
                assert(r[i] == out[i] && r[i - 1] == out[i - 1]);
            } else {
                assert(r[i - 1] == out[out.len() - 1]);
            }
        }
    }
}

proof fn lemma_scan_ok(s: Seq<u8>)
    ensures
        scan_ok(spec_slug_scan(s)),
    decreases s.len(),
{
    if s.len() == 0 {
    } else {
        lemma_scan_ok(s.drop_last());
        lemma_push_ok(spec_slug_scan(s.drop_last()), s.last());
    }
}

/// Every slug the scan produces is well formed: only lowercase ASCII letters,
/// digits and hyphens, with no leading, trailing or doubled hyphen.
pub proof fn lemma_slug_well_formed(s: Seq<u8>)
    ensures
        is_slug(slug_bytes(s)),
{
    lemma_scan_ok(s);
    let t = spec_slug_scan(s);
    let r = spec_trim_hyphen(t);
    assert forall|i: int| 0 <= i < r.len() implies is_slug_byte(#[trigger] r[i]) by {
        assert(r[i] == t[i]);
    }
    assert forall|i: int| 0 < i < r.len() && #[trigger] r[i] == ('-' as u8) implies r[i - 1] != ('-' as u8) by {
        assert(r[i] == t[i] && r[i - 1] == t[i - 1]);
    }
    if r.len() > 0 {
        assert(r[0] == t[0]);
        if r.last() == ('-' as u8) {
            assert(t.len() > 0 && t.last() == ('-' as u8));
            assert(t[r.len() - 1] == ('-' as u8) && t[r.len() as int] == ('-' as u8));
            assert(false);
        }
    }
}

proof fn lemma_scan_fixpoint(t: Seq<u8>)
    requires
        scan_ok(t),
    ensures
        spec_slug_scan(t) == t,
    decreases t.len(),
{
    if t.len() == 0 {
        assert(spec_slug_scan(t) =~= t);
    } else {
        let p = t.drop_last();
        let b = t.last();
        assert(is_slug_byte(t[t.len() - 1]));
        assert forall|i: int| 0 <= i < p.len() implies is_slug_byte(#[trigger] p[i]) by {
            assert(p[i] == t[i]);
        }
        assert forall|i: int| 0 < i < p.len() && #[trigger] p[i] == ('-' as u8) implies p[i - 1]
            != ('-' as u8) by {
            assert(p[i] == t[i] && p[i - 1] == t[i - 1]);
        }
        if p.len() > 0 {
            assert(p[0] == t[0]);
        }
        lemma_scan_fixpoint(p);
        if is_slug_word_byte(b) {
            assert(!is_symbol_byte(b) && b != ('\'' as u8));
            assert(is_ascii_alnum(b) && to_lower_byte(b) == b);
            assert(spec_slug_scan(t) =~= t);
        } else {
            assert(b == ('-' as u8));
            assert(p.len() > 0) by {
                if p.len() == 0 {
                    assert(t[0] == ('-' as u8));
                }
            }
            assert(p.last() != ('-' as u8)) by {
                assert(t[t.len() - 1] == ('-' as u8));
                assert(t[t.len() - 2] == p.last());
            }
            assert(spec_slug_scan(t) =~= t);
        }
    }
}

/// Slugging is idempotent: a well-formed slug comes back unchanged.
pub proof fn lemma_slug_fixpoint(t: Seq<u8>)
    requires
        is_slug(t),
    ensures
        slug_bytes(t) == t,
{
    lemma_scan_fixpoint(t);
}

/// Slugging twice is the same as slugging once.
pub proof fn lemma_slug_idempotent(s: Seq<u8>)
    ensures
        slug_bytes(slug_bytes(s)) == slug_bytes(s),
{
    lemma_slug_well_formed(s);
    lemma_slug_fixpoint(slug_bytes(s));
}

/// What the transliteration step returns for a given input text: an ASCII
/// approximation, fixed by the input alone.
pub uninterp spec fn ascii_of(s: Seq<char>) -> Seq<u8>;

/// Relies on deunicode::deunicode_with_tofu_cow with a hyphen placeholder:
/// the result is ASCII, depends on the input characters alone, and input that
/// is entirely below code point 0x7F is returned unchanged.
#[verifier::external_body]
fn transliterate(s: &str) -> (r: Vec<u8>)
    ensures
        r@ == ascii_of(s@),
        forall|i: int| 0 <= i < r@.len() ==> (#[trigger] r@[i]) < 128,
        (forall|i: int| 0 <= i < s@.len() ==> low_ascii_char(#[trigger] s@[i])) ==> r@
            == chars_to_bytes(s@),
{
    deunicode::deunicode_with_tofu_cow(s, "-").into_owned().into_bytes()
}

/// Relies on String::from_utf8: ASCII bytes are valid UTF-8 and decode to one
/// character per byte.
#[verifier::external_body]
pub(crate) fn ascii_string(v: Vec<u8>) -> (r: String)
    requires
        forall|i: int| 0 <= i < v@.len() ==> (#[trigger] v@[i]) < 128,
    ensures
        r@ == bytes_to_chars(v@),
{
    String::from_utf8(v).unwrap_or_default()
}

/// Relies on String::push: appends one character at the end.
#[verifier::external_body]
pub(crate) fn push_char(s: &mut String, c: char)
    ensures
        final(s)@ == old(s)@.push(c),
{
    s.push(c);
}

/// Appends `word` to the slug as a standalone hyphen-delimited word.
fn add_word(slug: &mut Vec<u8>, word: &Vec<u8>)
    ensures
        final(slug)@ == spec_add_word(old(slug)@, word@),
{
    if slug.len() > 0 && slug[slug.len() - 1] != ('-' as u8) {
        slug.push(('-' as u8));
    }
    let ghost base = slug@;
    let mut j: usize = 0;
    while j < word.len()
        invariant
            j <= word.len(),
            slug@ == base + word@.subrange(0, j as int),
        decreases word.len() - j,
    {
        slug.push(word[j]);
        proof {
            assert(base + word@.subrange(0, j + 1) =~= (base + word@.subrange(0, j as int)).push(
                word@[j as int],
            ));
        }
        j += 1;
    }
    proof {
        assert(word@.subrange(0, word@.len() as int) =~= word@);
    }
    slug.push(('-' as u8));
    proof {
        assert(slug@ =~= spec_add_word(old(slug)@, word@));
    }
}

/// The replacement word for a symbol byte, as bytes.
fn word_for(b: u8) -> (w: Vec<u8>)
    requires
        is_symbol_byte(b),
    ensures
        w@ == symbol_word(b),
{
    let mut w: Vec<u8> = Vec::new();
    if b == ('@' as u8) {
        w.push(('a' as u8));
        w.push(('t' as u8));
        proof {
            assert(w@ =~= symbol_word(b));
        }
    } else if b == ('&' as u8) {
        w.push(('a' as u8));
        w.push(('n' as u8));
        w.push(('d' as u8));
        proof {
            assert(w@ =~= symbol_word(b));
        }
    } else if b == ('/' as u8) {
        w.push(('s' as u8));
        w.push(('l' as u8));
        w.push(('a' as u8));
        w.push(('s' as u8));
        w.push(('h' as u8));
        proof {
            assert(w@ =~= symbol_word(b));
        }
    } else {
        w.push(('p' as u8));
        w.push(('l' as u8));
        w.push(('u' as u8));
        w.push(('s' as u8));
        proof {
            assert(w@ =~= symbol_word(b));
        }
    }
    w
}

/// The slug of `s`: transliterate to ASCII, replace punctuation by hyphens and
/// a few symbols by words, lowercase, collapse hyphens, trim the ends.
///
/// Already-slugged input comes back unchanged, so the function is idempotent.
pub fn slug_of(s: &str) -> (r: String)
    ensures
        r@ == spec_slug_of(s@),
        is_slug(chars_to_bytes(r@)),
        is_slug_chars(s@) ==> r@ == s@,
{
    let a: Vec<u8> = transliterate(s);
    let mut out: Vec<u8> = Vec::new();
    let mut i: usize = 0;
    while i < a.len()
        invariant
            i <= a.len(),
            out@ == spec_slug_scan(a@.subrange(0, i as int)),
            forall|k: int| 0 <= k < a@.len() ==> (#[trigger] a@[k]) < 128,
            forall|k: int| 0 <= k < out@.len() ==> is_slug_byte(#[trigger] out@[k]),
        decreases a.len() - i,
    {
        let ghost prefix = a@.subrange(0, i as int);
        let b = a[i];
        if b == ('\'' as u8) {
            // apostrophes vanish so contractions stay one word
        } else if b == ('@' as u8) || b == ('&' as u8) || b == ('/' as u8) || b == ('+' as u8) {
            let w = word_for(b);
            add_word(&mut out, &w);
        } else {
            let c = if (('a' as u8) <= b && b <= ('z' as u8)) || (('A' as u8) <= b && b <= ('Z' as u8)) || (('0' as u8) <= b && b
                <= ('9' as u8)) {
                if ('A' as u8) <= b && b <= ('Z' as u8) {
                    b + 32
                } else {
                    b
                }
            } else {
                ('-' as u8)
            };
            if c == ('-' as u8) && (out.len() == 0 || out[out.len() - 1] == ('-' as u8)) {
                // skip leading and consecutive hyphens
            } else {
                out.push(c);
            }
        }
        proof {
            assert(a@.subrange(0, i + 1).drop_last() =~= prefix);
            assert(a@.subrange(0, i + 1).last() == a@[i as int]);
            lemma_scan_ok(a@.subrange(0, i + 1));
        }
        i += 1;
    }
    proof {
        assert(a@.subrange(0, a@.len() as int) =~= a@);
    }
    if out.len() > 0 && out[out.len() - 1] == ('-' as u8) {
        let _ = out.pop();
        proof {
            assert(out@ =~= spec_trim_hyphen(spec_slug_scan(a@)));
        }
    }
    proof {
        lemma_slug_well_formed(a@);
        if is_slug_chars(s@) {
            lemma_slug_fixpoint(chars_to_bytes(s@));
            assert forall|k: int| 0 <= k < s@.len() implies bytes_to_chars(chars_to_bytes(s@))[k]
                == s@[k] by {
                let cb = chars_to_bytes(s@);
                let c = s@[k];
                assert(cb[k] == (c as u8));
                assert(bytes_to_chars(cb)[k] == (cb[k] as char));
                assert(low_ascii_char(c));
                lemma_low_char_roundtrip(c);
            }
            assert(bytes_to_chars(chars_to_bytes(s@)) =~= s@);
            assert(bytes_to_chars(slug_bytes(ascii_of(s@))) =~= s@);
        }
        assert forall|k: int| 0 <= k < out@.len() implies chars_to_bytes(bytes_to_chars(out@))[k]
            == out@[k] by {
            let bc = bytes_to_chars(out@);
            let b = out@[k];
            assert(bc[k] == (b as char));
            assert(chars_to_bytes(bc)[k] == (bc[k] as u8));
            assert(is_slug_byte(b));
            lemma_ascii_byte_roundtrip(b);
        }
        assert(chars_to_bytes(bytes_to_chars(out@)) =~= out@);
    }
    ascii_string(out)
}

/// Replaces underscores and dots by spaces, for a readable page name.
pub open spec fn spec_humanise(s: Seq<char>) -> Seq<char> {
    Seq::new(s.len(), |i: int| if s[i] == '_' || s[i] == '.' { ' ' } else { s[i] })
}

/// Replaces the word separators of a file name with spaces.
pub fn humanised(s: &str) -> (r: String)
    ensures
        r@ == spec_humanise(s@),
{
    let mut r = String::new();
    let n = s.unicode_len();
    let mut i: usize = 0;
    while i < n
        invariant
            i <= n,
            n == s@.len(),
            r@ == spec_humanise(s@).subrange(0, i as int),
        decreases n - i,
    {
        let c = s.get_char(i);
        if c == '_' || c == '.' {
            push_char(&mut r, ' ');
        } else {
            push_char(&mut r, c);
        }
        proof {
            assert(spec_humanise(s@).subrange(0, i + 1) =~= spec_humanise(s@).subrange(
                0,
                i as int,
            ).push(if s@[i as int] == '_' || s@[i as int] == '.' {
                ' '
            } else {
                s@[i as int]
            }));
        }
        i += 1;
    }
    proof {
        assert(spec_humanise(s@).subrange(0, s@.len() as int) =~= spec_humanise(s@));
    }
    r
}

/// Slug and human-readable forms of a piece of text.
pub trait StringExt {
    /// The characters of the text.
    spec fn chars(&self) -> Seq<char>;

    /// A readable form: separators replaced by spaces.
    fn humanise(&self) -> (r: String)
        ensures
            r@ == spec_humanise(self.chars()),
    ;

    /// A slugified form suitable for use in a URL path.
    fn to_slug(&self) -> (r: String)
        ensures
            r@ == spec_slug_of(self.chars()),
            is_slug(chars_to_bytes(r@)),
            is_slug_chars(self.chars()) ==> r@ == self.chars(),
    ;
}

impl StringExt for str {
    open spec fn chars(&self) -> Seq<char> {
        self@
    }

    fn humanise(&self) -> (r: String) {
        humanised(self)
    }

    fn to_slug(&self) -> (r: String) {
        slug_of(self)
    }
}

impl StringExt for String {
    open spec fn chars(&self) -> Seq<char> {
        self@
    }

    fn humanise(&self) -> (r: String) {
        humanised(self.as_str())
    }

    fn to_slug(&self) -> (r: String) {
        slug_of(self.as_str())
    }
}

} // verus!
