//! The page store: pages of the knowledge base, loaded from a snapshot of the
//! page directory.
//!
//! The caller scans the directory and hands over one [`FsEntry`] per file;
//! everything after that — classification, front matter, titles, ordering,
//! modification times — is computed here.
use vstd::prelude::*;

use crate::PkbError;
use crate::dates::{
    format_human_date, format_human_datetime, format_rfc3339, human_date_of, human_datetime_of,
    now_seconds, rfc3339_of, valid_timestamp,
};
use crate::str_eq;

verus! {

broadcast use vstd::std_specs::vec::group_vec_axioms;

/// One file of the page directory, as the caller found it on disk: its name,
/// whether it is a regular file, its size, its modification time in unix
/// seconds, and its text (`None` when the file could not be read).
#[derive(Debug)]
pub struct FsEntry {
    pub file_name: String,
    pub is_file: bool,
    pub len: u64,
    pub mtime: i64,
    pub content: Option<String>,
}

/// The mathematical view of a directory entry.
pub struct FsEntryV {
    pub file_name: Seq<char>,
    pub is_file: bool,
    pub len: u64,
    pub mtime: i64,
    pub content: Option<Seq<char>>,
}

impl View for FsEntry {
    type V = FsEntryV;

    open spec fn view(&self) -> FsEntryV {
        FsEntryV {
            file_name: self.file_name@,
            is_file: self.is_file,
            len: self.len,
            mtime: self.mtime,
            content: match self.content {
                Some(c) => Some(c@),
                None => None,
            },
        }
    }
}

/// The views of a directory snapshot.
pub open spec fn entry_views(s: Seq<FsEntry>) -> Seq<FsEntryV> {
    s.map_values(|e: FsEntry| e@)
}

/// Marks a page handle whose file content has not been read into it yet.
#[derive(Debug)]
pub struct NotLoaded;

/// The parsed front matter of a page.
#[derive(Debug)]
pub struct Metadata {
    pub title: Option<String>,
    pub tags: Vec<String>,
    pub hidden: bool,
}

impl Default for Metadata {
    /// No title, no tags, not hidden.
    fn default() -> (r: Self)
        ensures
            r.title is None,
            r.tags@.len() == 0,
            !r.hidden,
    {
        Metadata { title: None, tags: Vec::new(), hidden: false }
    }
}

/// The content of a loaded page: its raw text and its parsed front matter.
#[derive(Debug)]
pub struct Loaded {
    pub metadata: Metadata,
    pub content: String,
}

/// A page of the knowledge base.  `T` is [`NotLoaded`] for a handle fresh from
/// a directory scan and [`Loaded`] once the content has been read and parsed.
#[derive(Debug)]
pub struct Page<T> {
    pub name: String,
    pub mtime: i64,
    pub size: u64,
    pub content: T,
}

/// The mathematical view of an unloaded page handle.
pub struct PageV {
    pub name: Seq<char>,
    pub mtime: i64,
    pub size: u64,
}

impl View for Page<NotLoaded> {
    type V = PageV;

    open spec fn view(&self) -> PageV {
        PageV { name: self.name@, mtime: self.mtime, size: self.size }
    }
}

/// The views of a list of page handles.
pub open spec fn page_views(s: Seq<Page<NotLoaded>>) -> Seq<PageV> {
    s.map_values(|p: Page<NotLoaded>| p@)
}

/// The extension marker of a page file.
pub open spec fn md_suffix() -> Seq<char> {
    seq!['.', 'm', 'd']
}

/// The stem of a Markdown file name: the name with its final `.md` removed,
/// provided something is left of it.
pub open spec fn spec_md_stem(n: Seq<char>) -> Option<Seq<char>> {
    if n.len() > 3 && n[n.len() - 3] == '.' && n[n.len() - 2] == 'm' && n[n.len() - 1] == 'd' {
        Some(n.subrange(0, n.len() - 3))
    } else {
        None
    }
}

/// Whether a directory entry yields a page: a regular, non-empty Markdown file.
pub open spec fn spec_keep(e: FsEntryV) -> bool {
    e.is_file && e.len > 0 && spec_md_stem(e.file_name) is Some
}

/// The page a kept directory entry yields.
pub open spec fn spec_page_of(e: FsEntryV) -> PageV {
    PageV { name: spec_md_stem(e.file_name)->Some_0, mtime: e.mtime, size: e.len }
}

/// The pages of a directory snapshot, in directory order.
pub open spec fn spec_list_all(s: Seq<FsEntryV>) -> Seq<PageV>
    decreases s.len(),
{
    if s.len() == 0 {
        Seq::empty()
    } else if spec_keep(s.last()) {
        spec_list_all(s.drop_last()).push(spec_page_of(s.last()))
    } else {
        spec_list_all(s.drop_last())
    }
}

/// The first directory entry with the given file name, if any.
pub open spec fn spec_lookup(s: Seq<FsEntryV>, file_name: Seq<char>) -> Option<FsEntryV>
    decreases s.len(),
{
    if s.len() == 0 {
        None
    } else if s.first().file_name == file_name {
        Some(s.first())
    } else {
        spec_lookup(s.drop_first(), file_name)
    }
}

/// The stem of a Markdown file name, or `None` for any other file.
fn md_stem(file_name: &str) -> (r: Option<String>)
    ensures
        match r {
            Some(s) => spec_md_stem(file_name@) == Some(s@),
            None => spec_md_stem(file_name@) is None,
        },
{
    let n = file_name.unicode_len();
    if n > 3 && file_name.get_char(n - 3) == '.' && file_name.get_char(n - 2) == 'm'
        && file_name.get_char(n - 1) == 'd' {
        Some(file_name.substring_char(0, n - 3).to_owned())
    } else {
        None
    }
}

impl Page<NotLoaded> {
    /// Every page of the directory snapshot: one page per regular, non-empty
    /// `.md` file, in directory order.  Zero-length files are dropped here and
    /// so are excluded from every listing.
    pub fn all(entries: &Vec<FsEntry>) -> (r: Vec<Page<NotLoaded>>)
        ensures
            page_views(r@) == spec_list_all(entry_views(entries@)),
    {
        let mut r: Vec<Page<NotLoaded>> = Vec::new();
        let mut i: usize = 0;
        while i < entries.len()
            invariant
                i <= entries.len(),
                page_views(r@) == spec_list_all(entry_views(entries@).subrange(0, i as int)),
            decreases entries.len() - i,
        {
            let ghost pre = entry_views(entries@).subrange(0, i as int);
            let e = &entries[i];
            if e.is_file && e.len > 0 {
                if let Some(stem) = md_stem(e.file_name.as_str()) {
                    let page = Page { name: stem, mtime: e.mtime, size: e.len, content: NotLoaded };
                    r.push(page);
                }
            }
            proof {
                let cur = entry_views(entries@).subrange(0, i + 1);
                assert(cur.drop_last() =~= pre);
                assert(cur.last() == entries@[i as int]@);
                if spec_keep(entries@[i as int]@) {
                    assert(page_views(r@) =~= spec_list_all(cur));
                } else {
                    assert(page_views(r@) =~= spec_list_all(cur));
                }
            }
            i += 1;
        }
        proof {
            assert(entry_views(entries@).subrange(0, entries@.len() as int) =~= entry_views(
                entries@,
            ));
        }
        r
    }

    /// The directory entry for the page called `name`, that is the file
    /// `<name>.md`, if the snapshot holds one.
    fn lookup<'a>(name: &str, entries: &'a Vec<FsEntry>) -> (r: Option<&'a FsEntry>)
        ensures
            match r {
                Some(e) => spec_lookup(entry_views(entries@), name@ + md_suffix()) == Some(e@),
                None => spec_lookup(entry_views(entries@), name@ + md_suffix()) is None,
            },
    {
        let target = name.to_owned().concat(".md");
        proof {
            reveal_strlit(".md");
            assert(".md"@ =~= md_suffix());
        }
        let mut i: usize = 0;
        proof {
            assert(entry_views(entries@).skip(0) =~= entry_views(entries@));
        }
        while i < entries.len()
            invariant
                i <= entries.len(),
                target@ == name@ + md_suffix(),
                spec_lookup(entry_views(entries@), name@ + md_suffix()) == spec_lookup(
                    entry_views(entries@).skip(i as int),
                    name@ + md_suffix(),
                ),
            decreases entries.len() - i,
        {
            let ghost rest = entry_views(entries@).skip(i as int);
            if str_eq(entries[i].file_name.as_str(), target.as_str()) {
                proof {
                    assert(rest.first() == entries@[i as int]@);
                }
                return Some(&entries[i]);
            }
            proof {
                assert(rest.first() == entries@[i as int]@);
                assert(rest.drop_first() =~= entry_views(entries@).skip(i + 1));
            }
            i += 1;
        }
        proof {
            assert(entry_views(entries@).skip(entries@.len() as int).len() == 0);
        }
        None
    }

    /// The page called `name`: present in the snapshot, a regular file, and
    /// not empty.  A hidden page is still found here — hiding only removes a
    /// page from listings, not from direct addressing.
    pub fn find(name: &str, entries: &Vec<FsEntry>) -> (r: Option<Page<NotLoaded>>)
        ensures
            match spec_lookup(entry_views(entries@), name@ + md_suffix()) {
                Some(e) => {
                    if e.is_file && e.len > 0 {
                        r matches Some(p) && p@ == (PageV {
                            name: name@,
                            mtime: e.mtime,
                            size: e.len,
                        })
                    } else {
                        r is None
                    }
                },
                None => r is None,
            },
    {
        match Self::lookup(name, entries) {
            Some(e) => {
                if e.is_file && e.len > 0 {
                    Some(
                        Page {
                            name: name.to_owned(),
                            mtime: e.mtime,
                            size: e.len,
                            content: NotLoaded,
                        },
                    )
                } else {
                    None
                }
            },
            None => None,
        }
    }

    /// The designated home page, found by its fixed name.
    pub fn home(entries: &Vec<FsEntry>) -> (r: Option<Page<NotLoaded>>)
        ensures
            match spec_lookup(entry_views(entries@), home_name() + md_suffix()) {
                Some(e) => {
                    if e.is_file && e.len > 0 {
                        r matches Some(p) && p@ == (PageV {
                            name: home_name(),
                            mtime: e.mtime,
                            size: e.len,
                        })
                    } else {
                        r is None
                    }
                },
                None => r is None,
            },
    {
        proof {
            reveal_strlit("home");
            assert("home"@ =~= home_name());
        }
        Self::find("home", entries)
    }
}

/// The name of the home page.
pub open spec fn home_name() -> Seq<char> {
    seq!['h', 'o', 'm', 'e']
}

/// Whether a front matter marker line `---` starts at position `j`.
pub open spec fn marker_at(c: Seq<char>, j: int) -> bool {
    0 <= j && j + 3 <= c.len() && c[j] == '-' && c[j + 1] == '-' && c[j + 2] == '-'
}

/// Whether the first line of the text is exactly the front matter marker.
pub open spec fn spec_has_front_matter(c: Seq<char>) -> bool {
    marker_at(c, 0) && (c.len() == 3 || c[3] == '\n' || (c.len() > 4 && c[3] == '\r' && c[4]
        == '\n'))
}

/// The first position at or after `j` where a marker starts, if any.
pub open spec fn spec_find_marker(c: Seq<char>, j: int) -> Option<int>
    decreases c.len() - j,
{
    if j + 3 > c.len() {
        None
    } else if marker_at(c, j) {
        Some(j)
    } else {
        spec_find_marker(c, j + 1)
    }
}

/// The text between the opening marker and the second marker (or the end of
/// the text, if no second marker follows): the front matter document.
pub open spec fn spec_yaml_part(c: Seq<char>) -> Seq<char> {
    match spec_find_marker(c, 3) {
        Some(j) => c.subrange(3, j),
        None => c.subrange(3, c.len() as int),
    }
}

/// The page body: everything after the second marker when the text opens with
/// a front matter block, the whole text otherwise.
pub open spec fn spec_body(c: Seq<char>) -> Seq<char> {
    if !spec_has_front_matter(c) {
        c
    } else {
        match spec_find_marker(c, 3) {
            Some(j) => c.subrange(j + 3, c.len() as int),
            None => Seq::empty(),
        }
    }
}

/// Whether the text opens with a front matter block.
fn has_front_matter(s: &str) -> (r: bool)
    ensures
        r == spec_has_front_matter(s@),
{
    let n = s.unicode_len();
    if n < 3 {
        return false;
    }
    if !(s.get_char(0) == '-' && s.get_char(1) == '-' && s.get_char(2) == '-') {
        return false;
    }
    if n == 3 {
        return true;
    }
    let c3 = s.get_char(3);
    if c3 == '\n' {
        return true;
    }
    c3 == '\r' && n > 4 && s.get_char(4) == '\n'
}

/// The first marker position at or after `from`, if any.
fn find_marker(s: &str, from: usize) -> (r: Option<usize>)
    ensures
        match r {
            Some(j) => from <= j && j + 3 <= s@.len() && spec_find_marker(s@, from as int) == Some(
                j as int,
            ),
            None => spec_find_marker(s@, from as int) is None,
        },
{
    let n = s.unicode_len();
    let mut j = from;
    while n >= 3 && j <= n - 3
        invariant
            from <= j,
            n == s@.len(),
            spec_find_marker(s@, from as int) == spec_find_marker(s@, j as int),
        decreases n - j,
    {
        if s.get_char(j) == '-' && s.get_char(j + 1) == '-' && s.get_char(j + 2) == '-' {
            return Some(j);
        }
        j += 1;
    }
    None
}

/// The front matter document of a text that opens with one.
fn yaml_part<'a>(c: &'a str) -> (r: &'a str)
    requires
        spec_has_front_matter(c@),
    ensures
        r@ == spec_yaml_part(c@),
{
    let n = c.unicode_len();
    match find_marker(c, 3) {
        Some(j) => c.substring_char(3, j),
        None => c.substring_char(3, n),
    }
}

/// A YAML document, modeled as a plain value tree.  Strings, booleans,
/// sequences and mappings carry their contents; numbers and tagged values
/// only need telling apart from the rest, so they carry none.
pub enum Yaml {
    Null,
    Bool { value: bool },
    Number,
    Str { text: String },
    Sequence { items: Vec<Yaml> },
    Mapping { pairs: Vec<(Yaml, Yaml)> },
    Tagged,
}

/// What parsing a YAML document gives back: whether the text parses, and the
/// document tree it denotes, depend on the text alone.  Duplicate mapping
/// keys fail the parse, so the keys of every mapping are distinct.
pub uninterp spec fn yaml_tree_of(s: Seq<char>) -> Option<Yaml>;

#[verifier::external_type_specification]
#[verifier::external_body]
pub struct ExYamlValue(serde_yaml::Value);

/// Relies on serde_yaml::from_str::<Value>: parses one YAML document, handed
/// over as the modeled tree.
#[verifier::external_body]
fn parse_yaml(s: &str) -> (r: Option<Yaml>)
    ensures
        r == yaml_tree_of(s@),
{
    match serde_yaml::from_str::<serde_yaml::Value>(s) {
        Ok(v) => Some(convert_yaml(v)),
        Err(_) => None,
    }
}

/// Tells serde_yaml::Value's variants apart, one arm each, moving the fields
/// into the library's model.
#[verifier::external_body]
fn convert_yaml(v: serde_yaml::Value) -> Yaml {
    match v {
        serde_yaml::Value::Null => Yaml::Null,
        serde_yaml::Value::Bool(value) => Yaml::Bool { value },
        serde_yaml::Value::Number(_) => Yaml::Number,
        serde_yaml::Value::String(text) => Yaml::Str { text },
        serde_yaml::Value::Sequence(s) => Yaml::Sequence {
            items: s.into_iter().map(convert_yaml).collect(),
        },
        serde_yaml::Value::Mapping(m) => Yaml::Mapping {
            pairs: m.into_iter().map(|(k, w)| (convert_yaml(k), convert_yaml(w))).collect(),
        },
        serde_yaml::Value::Tagged(_) => Yaml::Tagged,
    }
}

/// The mathematical view of parsed front matter.
pub struct MetadataV {
    pub title: Option<Seq<char>>,
    pub tags: Seq<Seq<char>>,
    pub hidden: bool,
}

impl View for Metadata {
    type V = MetadataV;

    open spec fn view(&self) -> MetadataV {
        MetadataV {
            title: match self.title {
                Some(t) => Some(t@),
                None => None,
            },
            tags: self.tags@.map_values(|t: String| t@),
            hidden: self.hidden,
        }
    }
}

/// The all-default front matter: no title, no tags, not hidden.
pub open spec fn default_metadata() -> MetadataV {
    MetadataV { title: None, tags: Seq::empty(), hidden: false }
}

/// The value under a string key of a mapping: the first pair whose key is
/// that string (the parse leaves keys distinct).
pub open spec fn spec_yaml_get(pairs: Seq<(Yaml, Yaml)>, key: Seq<char>) -> Option<Yaml>
    decreases pairs.len(),
{
    if pairs.len() == 0 {
        None
    } else if pairs.first().0 matches Yaml::Str { text } && text@ == key {
        Some(pairs.first().1)
    } else {
        spec_yaml_get(pairs.drop_first(), key)
    }
}

/// The characters of the title key.
pub open spec fn title_key() -> Seq<char> {
    seq!['t', 'i', 't', 'l', 'e']
}

/// The characters of the tags key.
pub open spec fn tags_key() -> Seq<char> {
    seq!['t', 'a', 'g', 's']
}

/// The characters of the hidden key.
pub open spec fn hidden_key() -> Seq<char> {
    seq!['h', 'i', 'd', 'd', 'e', 'n']
}

/// The title field of a front matter mapping: absent or null means no title,
/// a string is the title, anything else fails.
pub open spec fn spec_title_field(pairs: Seq<(Yaml, Yaml)>) -> Option<Option<Seq<char>>> {
    match spec_yaml_get(pairs, title_key()) {
        None => Some(None),
        Some(y) => match y {
            Yaml::Null => Some(None),
            Yaml::Str { text } => Some(Some(text@)),
            _ => None,
        },
    }
}

/// The strings of a YAML sequence, provided every item is a string.
pub open spec fn spec_str_items(items: Seq<Yaml>) -> Option<Seq<Seq<char>>>
    decreases items.len(),
{
    if items.len() == 0 {
        Some(Seq::empty())
    } else {
        match spec_str_items(items.drop_last()) {
            None => None,
            Some(rest) => match items.last() {
                Yaml::Str { text } => Some(rest.push(text@)),
                _ => None,
            },
        }
    }
}

/// The tags field of a front matter mapping: absent means no tags, a
/// sequence of strings is the tag list, anything else fails.
pub open spec fn spec_tags_field(pairs: Seq<(Yaml, Yaml)>) -> Option<Seq<Seq<char>>> {
    match spec_yaml_get(pairs, tags_key()) {
        None => Some(Seq::empty()),
        Some(y) => match y {
            Yaml::Sequence { items } => spec_str_items(items@),
            _ => None,
        },
    }
}

/// The hidden field of a front matter mapping: absent means not hidden, a
/// boolean is taken as given, anything else fails.
pub open spec fn spec_hidden_field(pairs: Seq<(Yaml, Yaml)>) -> Option<bool> {
    match spec_yaml_get(pairs, hidden_key()) {
        None => Some(false),
        Some(y) => match y {
            Yaml::Bool { value } => Some(value),
            _ => None,
        },
    }
}

/// The front matter a YAML document denotes: the document must be a mapping;
/// a missing field takes its default; a present field of the wrong kind
/// fails; unknown keys are ignored.
pub open spec fn spec_metadata_of(y: Yaml) -> Option<MetadataV> {
    match y {
        Yaml::Mapping { pairs } => match (
            spec_title_field(pairs@),
            spec_tags_field(pairs@),
            spec_hidden_field(pairs@),
        ) {
            (Some(title), Some(tags), Some(hidden)) => Some(MetadataV { title, tags, hidden }),
            _ => None,
        },
        _ => None,
    }
}

/// The front matter a piece of text denotes, if it parses as a YAML document
/// that denotes one.
pub open spec fn front_matter_of(s: Seq<char>) -> Option<MetadataV> {
    match yaml_tree_of(s) {
        None => None,
        Some(y) => spec_metadata_of(y),
    }
}

/// The value under a string key of a mapping.
fn yaml_lookup<'a>(pairs: &'a Vec<(Yaml, Yaml)>, key: &str) -> (r: Option<&'a Yaml>)
    ensures
        match r {
            Some(y) => spec_yaml_get(pairs@, key@) == Some(*y),
            None => spec_yaml_get(pairs@, key@) is None,
        },
{
    let mut i: usize = 0;
    proof {
        assert(pairs@.skip(0) =~= pairs@);
    }
    while i < pairs.len()
        invariant
            i <= pairs@.len(),
            spec_yaml_get(pairs@, key@) == spec_yaml_get(pairs@.skip(i as int), key@),
        decreases pairs@.len() - i,
    {
        let ghost rest = pairs@.skip(i as int);
        let hit = match &pairs[i].0 {
            Yaml::Str { text } => crate::str_eq(text.as_str(), key),
            _ => false,
        };
        proof {
            assert(rest.first() == pairs@[i as int]);
            assert(rest.drop_first() =~= pairs@.skip(i + 1));
        }
        if hit {
            return Some(&pairs[i].1);
        }
        i += 1;
    }
    None
}

/// The strings of a YAML sequence, or a failure if any item is not one.
fn str_items(items: &Vec<Yaml>) -> (r: Result<Vec<String>, PkbError>)
    ensures
        match r {
            Ok(tags) => spec_str_items(items@) == Some(tags@.map_values(|t: String| t@)),
            Err(e) => e is Io && spec_str_items(items@) is None,
        },
{
    let mut tags: Vec<String> = Vec::new();
    let mut i: usize = 0;
    proof {
        assert(items@.subrange(0, 0) =~= Seq::<Yaml>::empty());
        assert(tags@.map_values(|t: String| t@) =~= Seq::<Seq<char>>::empty());
    }
    while i < items.len()
        invariant
            i <= items@.len(),
            spec_str_items(items@.subrange(0, i as int)) == Some(
                tags@.map_values(|t: String| t@),
            ),
        decreases items@.len() - i,
    {
        let ghost pre = items@.subrange(0, i as int);
        let ghost oldtags = tags@;
        match &items[i] {
            Yaml::Str { text } => tags.push(text.clone()),
            _ => {
                proof {
                    lemma_str_items_prefix_fail(items@, i as int);
                }
                return Err(PkbError::Io("tag is not a string".to_owned()));
            },
        }
        proof {
            let cur = items@.subrange(0, i + 1);
            assert(cur.drop_last() =~= pre);
            assert(cur.last() == items@[i as int]);
            assert(tags@.map_values(|t: String| t@) =~= oldtags.map_values(|t: String| t@).push(
                items@[i as int]->Str_text@,
            ));
        }
        i += 1;
    }
    proof {
        assert(items@.subrange(0, items@.len() as int) =~= items@);
    }
    Ok(tags)
}

/// A sequence with a non-string item holds no string list, wherever the item
/// sits.
proof fn lemma_str_items_prefix_fail(items: Seq<Yaml>, i: int)
    requires
        0 <= i < items.len(),
        !(items[i] matches Yaml::Str { .. }),
    ensures
        spec_str_items(items) is None,
    decreases items.len(),
{
    if items.len() > 0 {
        if i < items.len() - 1 {
            lemma_str_items_prefix_fail(items.drop_last(), i);
        }
    }
}

/// Reads the front matter fields out of a YAML document, with the defaults
/// and the strictness of a structure with defaulted fields.
fn parse_metadata(yaml: &str) -> (r: Result<Metadata, PkbError>)
    ensures
        match front_matter_of(yaml@) {
            None => r matches Err(e) && e is Io,
            Some(m) => r matches Ok(md) && md@ == m,
        },
{
    proof {
        reveal_strlit("title");
        reveal_strlit("tags");
        reveal_strlit("hidden");
        assert("title"@ =~= title_key());
        assert("tags"@ =~= tags_key());
        assert("hidden"@ =~= hidden_key());
    }
    let y = match parse_yaml(yaml) {
        Some(y) => y,
        None => { return Err(PkbError::Io("front matter does not parse".to_owned())) },
    };
    let pairs = match y {
        Yaml::Mapping { pairs } => pairs,
        _ => { return Err(PkbError::Io("front matter is not a mapping".to_owned())) },
    };
    let title: Option<String> = match yaml_lookup(&pairs, "title") {
        None => None,
        Some(y2) => match y2 {
            Yaml::Null => None,
            Yaml::Str { text } => Some(text.clone()),
            _ => { return Err(PkbError::Io("title is not a string".to_owned())) },
        },
    };
    let tags: Vec<String> = match yaml_lookup(&pairs, "tags") {
        None => Vec::new(),
        Some(y2) => match y2 {
            Yaml::Sequence { items } => match str_items(items) {
                Ok(tags) => tags,
                Err(e) => { return Err(e) },
            },
            _ => { return Err(PkbError::Io("tags is not a sequence".to_owned())) },
        },
    };
    let hidden: bool = match yaml_lookup(&pairs, "hidden") {
        None => false,
        Some(y2) => match y2 {
            Yaml::Bool { value } => *value,
            _ => { return Err(PkbError::Io("hidden is not a boolean".to_owned())) },
        },
    };
    let md = Metadata { title, tags, hidden };
    proof {
        if md.tags@.len() == 0 {
            assert(md.tags@.map_values(|t: String| t@) =~= Seq::<Seq<char>>::empty());
        }
        assert(md@ =~= front_matter_of(yaml@)->Some_0);
    }
    Ok(md)
}

impl Page<NotLoaded> {
    /// Reads this page's content out of the snapshot and parses its front
    /// matter.  Fails when the file is gone or unreadable, or when a front
    /// matter block is present but does not parse; a page without front
    /// matter loads with all-default metadata.
    pub fn load(self, entries: &Vec<FsEntry>) -> (r: Result<Page<Loaded>, PkbError>)
        ensures
            match spec_lookup(entry_views(entries@), self.name@ + md_suffix()) {
                None => r matches Err(e) && e is Io,
                Some(en) => match en.content {
                    None => r matches Err(e) && e is Io,
                    Some(c) => {
                        &&& ((r is Ok) <==> spec_load_content(c) is Some)
                        &&& (r matches Ok(p) ==> p@ == spec_loaded_view(
                            self@,
                            c,
                            spec_load_content(c)->Some_0,
                        ))
                        &&& (r matches Err(e) ==> e is Io)
                    },
                },
            },
    {
        let e = match Page::lookup(self.name.as_str(), entries) {
            Some(e) => e,
            None => { return Err(PkbError::Io("cannot stat page file".to_owned())) },
        };
        let content: String = match &e.content {
            Some(c) => c.clone(),
            None => { return Err(PkbError::Io("cannot read page file".to_owned())) },
        };
        let metadata = if has_front_matter(content.as_str()) {
            let yaml = yaml_part(content.as_str());
            match parse_metadata(yaml) {
                Ok(m) => m,
                Err(err) => { return Err(err) },
            }
        } else {
            Metadata::default()
        };
        proof {
            if !spec_has_front_matter(content@) {
                assert(metadata@.tags =~= default_metadata().tags);
                assert(metadata@ == default_metadata());
            }
            assert(metadata@ == spec_load_content(content@)->Some_0);
        }
        let loaded = Page {
            name: self.name,
            mtime: self.mtime,
            size: self.size,
            content: Loaded { metadata, content },
        };
        proof {
            assert(loaded@ =~~= spec_loaded_view(
                self@,
                loaded.content.content@,
                spec_load_content(loaded.content.content@)->Some_0,
            ));
        }
        Ok(loaded)
    }
}

/// The front matter a page text carries: the defaults when no front matter
/// block opens the text, otherwise whatever the block's document denotes —
/// or nothing, when that document does not parse or denotes no front matter.
pub open spec fn spec_load_content(c: Seq<char>) -> Option<MetadataV> {
    if !spec_has_front_matter(c) {
        Some(default_metadata())
    } else {
        front_matter_of(spec_yaml_part(c))
    }
}

/// The loaded page a handle, its raw text and its front matter make.
pub open spec fn spec_loaded_view(p: PageV, c: Seq<char>, m: MetadataV) -> LoadedPageV {
    LoadedPageV {
        name: p.name,
        mtime: p.mtime,
        size: p.size,
        title: m.title,
        tags: m.tags,
        hidden: m.hidden,
        content: c,
    }
}

/// What loading one page handle against the snapshot yields, if it loads.
pub open spec fn spec_load_one(entries: Seq<FsEntryV>, p: PageV) -> Option<LoadedPageV> {
    match spec_lookup(entries, p.name + md_suffix()) {
        None => None,
        Some(en) => match en.content {
            None => None,
            Some(c) => match spec_load_content(c) {
                None => None,
                Some(m) => Some(spec_loaded_view(p, c, m)),
            },
        },
    }
}

/// The pages of a handle list that load cleanly, loaded, in order.
pub open spec fn spec_load_pages(entries: Seq<FsEntryV>, hs: Seq<PageV>) -> Seq<LoadedPageV>
    decreases hs.len(),
{
    if hs.len() == 0 {
        Seq::empty()
    } else {
        match spec_load_one(entries, hs.first()) {
            Some(lp) => seq![lp] + spec_load_pages(entries, hs.drop_first()),
            None => spec_load_pages(entries, hs.drop_first()),
        }
    }
}

impl Page<Loaded> {
    /// The page body: the raw content with a leading front matter block
    /// stripped.
    pub fn markdown(&self) -> (r: &str)
        ensures
            r@ == spec_body(self.content.content@),
    {
        let c = self.content.content.as_str();
        if has_front_matter(c) {
            match find_marker(c, 3) {
                Some(j) => {
                    let n = c.unicode_len();
                    c.substring_char(j + 3, n)
                },
                None => {
                    let r = "";
                    proof {
                        reveal_strlit("");
                        assert(r@ =~= Seq::<char>::empty());
                    }
                    r
                },
            }
        } else {
            c
        }
    }

    /// The page title: the front matter title, or a title-cased form of the
    /// page name.
    pub fn title(&self) -> (r: String)
        ensures
            r@ == spec_title(self@),
    {
        match &self.content.metadata.title {
            Some(t) => t.clone(),
            None => titlecase_str(self.name.as_str()),
        }
    }

    /// The page's tags, in front matter order.
    pub fn tags(&self) -> (r: &Vec<String>)
        ensures
            r == &self.content.metadata.tags,
    {
        &self.content.metadata.tags
    }

    /// Whether the front matter hides this page from listings.
    pub fn is_hidden(&self) -> (r: bool)
        ensures
            r == self.content.metadata.hidden,
    {
        self.content.metadata.hidden
    }
}

/// Whether `r` is the modification time of some page of the snapshot and no
/// page is newer.
pub open spec fn is_dir_max(entries: Seq<FsEntryV>, r: i64) -> bool {
    let pages = spec_list_all(entries);
    &&& (exists|i: int| 0 <= i < pages.len() && pages[i].mtime == r)
    &&& (forall|i: int| 0 <= i < pages.len() ==> (#[trigger] pages[i]).mtime <= r)
}

impl<T> Page<T> {
    /// The page file's modification time, unix seconds.
    pub fn mtime(&self) -> (r: i64)
        ensures
            r == self.mtime,
    {
        self.mtime
    }

    /// The modification time in a human-readable date-and-time form.
    pub fn mtime_human(&self) -> (r: String)
        requires
            valid_timestamp(self.mtime),
        ensures
            r@ == human_datetime_of(self.mtime),
    {
        format_human_datetime(self.mtime)
    }

    /// The modification time as a human-readable date.
    pub fn mtime_date(&self) -> (r: String)
        requires
            valid_timestamp(self.mtime),
        ensures
            r@ == human_date_of(self.mtime),
    {
        format_human_date(self.mtime)
    }

    /// The modification time in RFC 3339 form.
    pub fn mtime_rfc3339(&self) -> (r: String)
        requires
            valid_timestamp(self.mtime),
        ensures
            r@ == rfc3339_of(self.mtime),
    {
        format_rfc3339(self.mtime)
    }

    /// The freshness time of this page: its own modification time — except
    /// the home page, which lists recently changed pages and so counts as
    /// modified whenever any page is.
    pub fn last_modified(&self, entries: &Vec<FsEntry>) -> (r: i64)
        ensures
            self.name@ != home_name() ==> r == self.mtime,
            self.name@ == home_name() ==> {
                let pages = spec_list_all(entry_views(entries@));
                &&& pages.len() > 0 ==> is_dir_max(entry_views(entries@), r)
                &&& pages.len() == 0 ==> r >= 0
            },
    {
        proof {
            reveal_strlit("home");
            assert("home"@ =~= home_name());
        }
        if str_eq(self.name.as_str(), "home") {
            Page::last_modified_page(entries)
        } else {
            self.mtime
        }
    }
}

impl Page<NotLoaded> {
    /// The newest modification time over every page of the snapshot, hidden
    /// pages included, or the present moment for a directory without pages —
    /// an empty directory is always fresh now.
    pub fn last_modified_page(entries: &Vec<FsEntry>) -> (r: i64)
        ensures
            ({
                let pages = spec_list_all(entry_views(entries@));
                &&& pages.len() > 0 ==> is_dir_max(entry_views(entries@), r)
                &&& pages.len() == 0 ==> r >= 0
            }),
    {
        let pages = Self::all(entries);
        if pages.len() == 0 {
            return now_seconds();
        }
        let ghost pvs = spec_list_all(entry_views(entries@));
        let mut max: i64 = pages[0].mtime;
        let mut i: usize = 1;
        proof {
            assert(pvs[0] == page_views(pages@)[0]);
        }
        while i < pages.len()
            invariant
                1 <= i <= pages.len(),
                pvs == page_views(pages@),
                pvs.len() == pages@.len(),
                exists|k: int| 0 <= k < i && pvs[k].mtime == max,
                forall|k: int| 0 <= k < i ==> (#[trigger] pvs[k]).mtime <= max,
            decreases pages.len() - i,
        {
            if pages[i].mtime > max {
                max = pages[i].mtime;
            }
            proof {
                assert(pvs[i as int] == page_views(pages@)[i as int]);
            }
            i += 1;
        }
        max
    }

    /// The most recently modified pages, newest first: every page of the
    /// snapshot, sorted by modification time, loaded (pages that fail to load
    /// are skipped), hidden pages dropped, cut to `limit` — the visible
    /// prefix of the sorted, loaded list.
    pub fn recently_modified(limit: usize, entries: &Vec<FsEntry>) -> (r: Vec<Page<Loaded>>)
        ensures
            loaded_views(r@) == spec_take_visible(
                spec_load_pages(
                    entry_views(entries@),
                    spec_sort_desc(spec_list_all(entry_views(entries@))),
                ),
                limit as int,
            ),
            r@.len() <= limit,
            sorted_by_mtime(loaded_views(r@)),
            forall|i: int| 0 <= i < r@.len() ==> !(#[trigger] r@[i]).content.metadata.hidden,
    {
        let ghost ev = entry_views(entries@);
        let ghost sv = spec_sort_desc(spec_list_all(ev));
        let handles = Self::all(entries);
        let mut sorted = sorted_by_mtime_desc(handles);
        let mut loaded: Vec<Page<Loaded>> = Vec::new();
        proof {
            assert(spec_load_pages(ev, sv) =~= loaded_views(loaded@) + spec_load_pages(
                ev,
                page_views(sorted@),
            ));
        }
        while sorted.len() > 0
            invariant
                spec_load_pages(ev, sv) =~= loaded_views(loaded@) + spec_load_pages(
                    ev,
                    page_views(sorted@),
                ),
                ev == entry_views(entries@),
                forall|a: int, b: int|
                    0 <= a < b < loaded@.len() ==> (#[trigger] loaded@[a]).mtime >= (
                    #[trigger] loaded@[b]).mtime,
                forall|a: int, b: int|
                    0 <= a < loaded@.len() && 0 <= b < sorted@.len() ==> (
                    #[trigger] loaded@[a]).mtime >= (#[trigger] sorted@[b]).mtime,
                forall|a: int, b: int|
                    0 <= a < b < sorted@.len() ==> (#[trigger] sorted@[a]).mtime >= (
                    #[trigger] sorted@[b]).mtime,
            decreases sorted.len(),
        {
            let ghost olds = sorted@;
            let ghost oldl = loaded@;
            let handle = sorted.remove(0);
            proof {
                assert(forall|b: int|
                    0 <= b < sorted@.len() ==> (#[trigger] sorted@[b]) == olds[b + 1]);
                assert(page_views(olds).first() == handle@);
                assert(page_views(olds).drop_first() =~= page_views(sorted@));
            }
            match handle.load(entries) {
                Ok(p) => {
                    loaded.push(p);
                    proof {
                        assert(spec_load_one(ev, handle@) == Some(p@));
                        assert(loaded_views(loaded@) =~= loaded_views(oldl).push(p@));
                        assert(loaded_views(oldl) + spec_load_pages(ev, page_views(olds))
                            =~= loaded_views(loaded@) + spec_load_pages(ev, page_views(sorted@)));
                    }
                },
                Err(_) => {
                    proof {
                        assert(spec_load_one(ev, handle@) is None);
                        assert(spec_load_pages(ev, page_views(olds)) =~= spec_load_pages(
                            ev,
                            page_views(sorted@),
                        ));
                    }
                },
            }
        }
        proof {
            assert(page_views(sorted@).len() == 0);
            assert(spec_load_pages(ev, page_views(sorted@)) =~= Seq::<LoadedPageV>::empty());
            assert(loaded_views(loaded@) =~= spec_load_pages(ev, sv));
        }
        let r = visible_prefix(&loaded, limit);
        proof {
            let lv = loaded_views(loaded@);
            let rv = loaded_views(r@);
            lemma_take_visible_sorted(lv, limit as int);
            assert(sorted_by_mtime(lv)) by {
                assert forall|a: int, b: int| 0 <= a < b < lv.len() implies (
                #[trigger] lv[a]).mtime >= (#[trigger] lv[b]).mtime by {
                    assert(lv[a] == loaded@[a]@ && lv[b] == loaded@[b]@);
                }
            }
            assert forall|i: int| 0 <= i < r@.len() implies !(
            #[trigger] r@[i]).content.metadata.hidden by {
                lemma_take_visible_members(lv, limit as int, i);
                assert(rv[i] == r@[i]@);
            }
        }
        r
    }
}

/// The first `limit` non-hidden pages of a list, in order: what a recency
/// listing shows of it.
pub open spec fn spec_take_visible(l: Seq<LoadedPageV>, limit: int) -> Seq<LoadedPageV>
    decreases l.len(),
{
    if l.len() == 0 || limit <= 0 {
        Seq::empty()
    } else if l.first().hidden {
        spec_take_visible(l.drop_first(), limit)
    } else {
        seq![l.first()] + spec_take_visible(l.drop_first(), limit - 1)
    }
}

/// The non-hidden pages of a list, in order.
pub open spec fn spec_visible_pages(l: Seq<LoadedPageV>) -> Seq<LoadedPageV>
    decreases l.len(),
{
    if l.len() == 0 {
        Seq::empty()
    } else if l.last().hidden {
        spec_visible_pages(l.drop_last())
    } else {
        spec_visible_pages(l.drop_last()).push(l.last())
    }
}

/// Whether a page list is sorted by modification time, newest first.
pub open spec fn sorted_by_mtime(l: Seq<LoadedPageV>) -> bool {
    forall|a: int, b: int| 0 <= a < b < l.len() ==> (#[trigger] l[a]).mtime >= (#[trigger] l[b]).mtime
}

/// Every page the visible prefix shows comes from the list it was taken of.
pub proof fn lemma_take_visible_members(l: Seq<LoadedPageV>, limit: int, k: int)
    requires
        0 <= k < spec_take_visible(l, limit).len(),
    ensures
        !spec_take_visible(l, limit)[k].hidden,
        exists|j: int| 0 <= j < l.len() && #[trigger] l[j] == spec_take_visible(l, limit)[k],
    decreases l.len(),
{
    let taken = spec_take_visible(l, limit);
    if l.len() == 0 || limit <= 0 {
    } else if l.first().hidden {
        lemma_take_visible_members(l.drop_first(), limit, k);
        let j = choose|j: int|
            0 <= j < l.drop_first().len() && #[trigger] l.drop_first()[j] == taken[k];
        assert(l[j + 1] == taken[k]);
    } else if k == 0 {
        assert(l[0] == taken[0]);
    } else {
        lemma_take_visible_members(l.drop_first(), limit - 1, k - 1);
        let rest = spec_take_visible(l.drop_first(), limit - 1);
        assert(taken[k] == rest[k - 1]);
        let j = choose|j: int|
            0 <= j < l.drop_first().len() && #[trigger] l.drop_first()[j] == rest[k - 1];
        assert(l[j + 1] == taken[k]);
    }
}

/// The visible prefix is no longer than its limit, and of a list sorted by
/// modification time it is sorted the same way.
pub proof fn lemma_take_visible_sorted(l: Seq<LoadedPageV>, limit: int)
    ensures
        spec_take_visible(l, limit).len() <= (if limit <= 0 {
            0
        } else {
            limit
        }),
        sorted_by_mtime(l) ==> sorted_by_mtime(spec_take_visible(l, limit)),
    decreases l.len(),
{
    let taken = spec_take_visible(l, limit);
    if l.len() == 0 || limit <= 0 {
    } else if l.first().hidden {
        lemma_take_visible_sorted(l.drop_first(), limit);
        if sorted_by_mtime(l) {
            assert forall|a: int, b: int| 0 <= a < b < l.drop_first().len() implies (
            #[trigger] l.drop_first()[a]).mtime >= (#[trigger] l.drop_first()[b]).mtime by {
                assert(l[a + 1].mtime >= l[b + 1].mtime);
            }
        }
    } else {
        lemma_take_visible_sorted(l.drop_first(), limit - 1);
        if sorted_by_mtime(l) {
            let rest = spec_take_visible(l.drop_first(), limit - 1);
            assert forall|a: int, b: int| 0 <= a < b < l.drop_first().len() implies (
            #[trigger] l.drop_first()[a]).mtime >= (#[trigger] l.drop_first()[b]).mtime by {
                assert(l[a + 1].mtime >= l[b + 1].mtime);
            }
            assert forall|a: int, b: int| 0 <= a < b < taken.len() implies (
            #[trigger] taken[a]).mtime >= (#[trigger] taken[b]).mtime by {
                if a == 0 {
                    assert(taken[b] == rest[b - 1]);
                    lemma_take_visible_members(l.drop_first(), limit - 1, b - 1);
                    let j = choose|j: int|
                        0 <= j < l.drop_first().len() && #[trigger] l.drop_first()[j] == rest[b
                            - 1];
                    assert(l[0].mtime >= l[j + 1].mtime);
                } else {
                    assert(taken[a] == rest[a - 1] && taken[b] == rest[b - 1]);
                }
            }
        }
    }
}

/// The first `limit` non-hidden pages, copied out in order.
pub fn visible_prefix(pages: &Vec<Page<Loaded>>, limit: usize) -> (r: Vec<Page<Loaded>>)
    ensures
        loaded_views(r@) == spec_take_visible(loaded_views(pages@), limit as int),
{
    let mut r: Vec<Page<Loaded>> = Vec::new();
    let mut i: usize = 0;
    proof {
        assert(loaded_views(pages@).skip(0) =~= loaded_views(pages@));
        assert(loaded_views(r@) =~= Seq::<LoadedPageV>::empty());
    }
    while i < pages.len() && r.len() < limit
        invariant
            i <= pages@.len(),
            r@.len() <= limit,
            loaded_views(pages@).len() == pages@.len(),
            spec_take_visible(loaded_views(pages@), limit as int) =~= loaded_views(r@)
                + spec_take_visible(
                loaded_views(pages@).skip(i as int),
                limit - r@.len(),
            ),
        decreases pages@.len() - i,
    {
        let ghost whole = loaded_views(pages@);
        let ghost oldr = r@;
        if !pages[i].is_hidden() {
            r.push(pages[i].clone());
        }
        proof {
            let rest = whole.skip(i as int);
            assert(rest.first() == pages@[i as int]@);
            assert(rest.drop_first() =~= whole.skip(i + 1));
            if !pages@[i as int]@.hidden {
                assert(loaded_views(r@) =~= loaded_views(oldr) + seq![pages@[i as int]@]);
                assert(spec_take_visible(rest, limit - oldr.len()) =~= seq![rest.first()]
                    + spec_take_visible(rest.drop_first(), limit - oldr.len() - 1));
                assert(loaded_views(oldr) + spec_take_visible(rest, limit - oldr.len())
                    =~= loaded_views(r@) + spec_take_visible(
                    whole.skip(i + 1),
                    limit - r@.len(),
                ));
            }
        }
        i += 1;
    }
    proof {
        let whole = loaded_views(pages@);
        if r@.len() >= limit {
            assert(spec_take_visible(whole.skip(i as int), limit - r@.len())
                =~= Seq::<LoadedPageV>::empty());
        } else {
            assert(i == pages@.len());
            assert(whole.skip(i as int).len() == 0);
            assert(spec_take_visible(whole.skip(i as int), limit - r@.len())
                =~= Seq::<LoadedPageV>::empty());
        }
        assert(loaded_views(r@) + Seq::<LoadedPageV>::empty() =~= loaded_views(r@));
    }
    r
}

/// The position of the newest page of a non-empty list — the first of them,
/// when several share the newest time.
pub open spec fn first_max_index(l: Seq<PageV>) -> int
    decreases l.len(),
{
    if l.len() <= 1 {
        0
    } else {
        let rest = first_max_index(l.drop_first()) + 1;
        if l[0].mtime >= l[rest].mtime {
            0
        } else {
            rest
        }
    }
}

/// The list sorted by modification time, newest first, the earliest of equal
/// pages kept first: repeatedly take out the first newest page.
pub open spec fn spec_sort_desc(l: Seq<PageV>) -> Seq<PageV>
    decreases l.len(),
{
    if l.len() == 0 {
        Seq::empty()
    } else {
        let m = first_max_index(l);
        if 0 <= m < l.len() {
            seq![l[m]] + spec_sort_desc(l.remove(m))
        } else {
            l
        }
    }
}

/// The first-newest position is in range, holds the maximum, and everything
/// before it is strictly older.
pub proof fn lemma_first_max_bounds(l: Seq<PageV>)
    requires
        l.len() > 0,
    ensures
        0 <= first_max_index(l) < l.len(),
        forall|t: int| 0 <= t < l.len() ==> (#[trigger] l[t]).mtime <= l[first_max_index(l)].mtime,
        forall|t: int| 0 <= t < first_max_index(l) ==> (#[trigger] l[t]).mtime < l[first_max_index(l)].mtime,
    decreases l.len(),
{
    if l.len() > 1 {
        lemma_first_max_bounds(l.drop_first());
        let m = first_max_index(l);
        let rest = first_max_index(l.drop_first()) + 1;
        assert forall|t: int| 0 <= t < l.len() implies (#[trigger] l[t]).mtime <= l[m].mtime by {
            if t > 0 {
                assert(l.drop_first()[t - 1] == l[t]);
                assert(l.drop_first()[rest - 1] == l[rest]);
            }
        }
        assert forall|t: int| 0 <= t < m implies (#[trigger] l[t]).mtime < l[m].mtime by {
            if t > 0 {
                assert(l.drop_first()[t - 1] == l[t]);
            } else {
                assert(l[0].mtime < l[rest].mtime);
            }
        }
    }
}

/// Any position that holds the maximum, with everything before it strictly
/// older, is the first-newest position.
pub proof fn lemma_first_max_char(l: Seq<PageV>, m: int)
    requires
        0 <= m < l.len(),
        forall|t: int| 0 <= t < l.len() ==> (#[trigger] l[t]).mtime <= l[m].mtime,
        forall|t: int| 0 <= t < m ==> (#[trigger] l[t]).mtime < l[m].mtime,
    ensures
        m == first_max_index(l),
    decreases l.len(),
{
    lemma_first_max_bounds(l);
    let fm = first_max_index(l);
    if fm < m {
        assert(l[fm].mtime < l[m].mtime);
        assert(l[m].mtime <= l[fm].mtime);
    } else if m < fm {
        assert(l[m].mtime < l[fm].mtime);
        assert(l[fm].mtime <= l[m].mtime);
    }
}

/// The pages sorted by modification time, newest first; pages of equal time
/// keep their relative order.
fn sorted_by_mtime_desc(pages: Vec<Page<NotLoaded>>) -> (r: Vec<Page<NotLoaded>>)
    ensures
        page_views(r@) == spec_sort_desc(page_views(pages@)),
        forall|a: int, b: int|
            0 <= a < b < r@.len() ==> (#[trigger] r@[a]).mtime >= (#[trigger] r@[b]).mtime,
{
    let ghost orig = page_views(pages@);
    let mut v = pages;
    let mut out: Vec<Page<NotLoaded>> = Vec::new();
    proof {
        assert(spec_sort_desc(orig) =~= page_views(out@) + spec_sort_desc(page_views(v@)));
    }
    while v.len() > 0
        invariant
            spec_sort_desc(orig) =~= page_views(out@) + spec_sort_desc(page_views(v@)),
            forall|a: int, b: int|
                0 <= a < b < out@.len() ==> (#[trigger] out@[a]).mtime >= (#[trigger] out@[b]).mtime,
            forall|a: int, b: int|
                0 <= a < out@.len() && 0 <= b < v@.len() ==> (#[trigger] out@[a]).mtime >= (
                #[trigger] v@[b]).mtime,
        decreases v.len(),
    {
        let mut m: usize = 0;
        let mut k: usize = 1;
        while k < v.len()
            invariant
                0 <= m < k <= v.len(),
                forall|t: int| 0 <= t < k ==> (#[trigger] v@[t]).mtime <= v@[m as int].mtime,
                forall|t: int| 0 <= t < m ==> (#[trigger] v@[t]).mtime < v@[m as int].mtime,
            decreases v.len() - k,
        {
            if v[k].mtime > v[m].mtime {
                m = k;
            }
            k += 1;
        }
        let ghost oldv = v@;
        let ghost oldout = out@;
        let x = v.remove(m);
        out.push(x);
        proof {
            let ov = page_views(oldv);
            assert forall|t: int| 0 <= t < ov.len() implies (#[trigger] ov[t]).mtime <= ov[m as int].mtime by {
                assert(ov[t] == oldv[t]@ && ov[m as int] == oldv[m as int]@);
            }
            assert forall|t: int| 0 <= t < m implies (#[trigger] ov[t]).mtime < ov[m as int].mtime by {
                assert(ov[t] == oldv[t]@ && ov[m as int] == oldv[m as int]@);
            }
            lemma_first_max_char(ov, m as int);
            assert(page_views(v@) =~= ov.remove(m as int));
            assert(spec_sort_desc(ov) =~= seq![ov[m as int]] + spec_sort_desc(page_views(v@)));
            assert(page_views(out@) =~= page_views(oldout).push(oldv[m as int]@));
            assert(page_views(out@) + spec_sort_desc(page_views(v@)) =~= page_views(oldout)
                + spec_sort_desc(ov));
            assert(forall|b: int|
                0 <= b < v@.len() ==> #[trigger] v@[b] == if b < m {
                    oldv[b]
                } else {
                    oldv[b + 1]
                });
        }
    }
    proof {
        assert(page_views(v@).len() == 0);
        assert(spec_sort_desc(page_views(v@)) =~= Seq::<PageV>::empty());
        assert(page_views(out@) + spec_sort_desc(page_views(v@)) =~= page_views(out@));
        assert forall|a: int, b: int| 0 <= a < b < out@.len() implies (#[trigger] out@[a]).mtime
            >= (#[trigger] out@[b]).mtime by {}
    }
    out
}

/// The mathematical view of a loaded page.
pub struct LoadedPageV {
    pub name: Seq<char>,
    pub mtime: i64,
    pub size: u64,
    pub title: Option<Seq<char>>,
    pub tags: Seq<Seq<char>>,
    pub hidden: bool,
    pub content: Seq<char>,
}

impl View for Page<Loaded> {
    type V = LoadedPageV;

    open spec fn view(&self) -> LoadedPageV {
        LoadedPageV {
            name: self.name@,
            mtime: self.mtime,
            size: self.size,
            title: match self.content.metadata.title {
                Some(t) => Some(t@),
                None => None,
            },
            tags: self.content.metadata.tags@.map_values(|t: String| t@),
            hidden: self.content.metadata.hidden,
            content: self.content.content@,
        }
    }
}

/// The views of a list of loaded pages.
pub open spec fn loaded_views(s: Seq<Page<Loaded>>) -> Seq<LoadedPageV> {
    s.map_values(|p: Page<Loaded>| p@)
}

/// An exact copy of a vector of strings.
pub(crate) fn clone_string_vec(v: &Vec<String>) -> (r: Vec<String>)
    ensures
        r@.map_values(|t: String| t@) == v@.map_values(|t: String| t@),
        r@.len() == v@.len(),
{
    let mut r: Vec<String> = Vec::new();
    let mut i: usize = 0;
    while i < v.len()
        invariant
            i <= v.len(),
            r@.len() == i,
            forall|k: int| 0 <= k < i ==> (#[trigger] r@[k])@ == v@[k]@,
        decreases v.len() - i,
    {
        r.push(v[i].clone());
        i += 1;
    }
    proof {
        assert(r@.map_values(|t: String| t@) =~= v@.map_values(|t: String| t@));
    }
    r
}

impl Clone for Page<Loaded> {
    /// An exact copy of the page.
    fn clone(&self) -> (r: Self)
        ensures
            r@ == self@,
    {
        let r = Page {
            name: self.name.clone(),
            mtime: self.mtime,
            size: self.size,
            content: Loaded {
                metadata: Metadata {
                    title: match &self.content.metadata.title {
                        Some(t) => Some(t.clone()),
                        None => None,
                    },
                    tags: clone_string_vec(&self.content.metadata.tags),
                    hidden: self.content.metadata.hidden,
                },
                content: self.content.content.clone(),
            },
        };
        proof {
            assert(r@.tags =~= self@.tags);
        }
        r
    }
}

/// What the title-casing of a piece of text is: fixed by the text alone.
pub uninterp spec fn titlecased(s: Seq<char>) -> Seq<char>;

/// The display title of a loaded page: its front matter title, or the
/// title-cased page name.
pub open spec fn spec_title(p: LoadedPageV) -> Seq<char> {
    match p.title {
        Some(t) => t,
        None => titlecased(p.name),
    }
}

/// Relies on titlecase::titlecase: capitalizes the words of the text, fixed
/// by the text alone.
#[verifier::external_body]
fn titlecase_str(s: &str) -> (r: String)
    ensures
        r@ == titlecased(s@),
{
    titlecase::titlecase(s)
}

} // verus!
