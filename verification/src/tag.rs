//! The tag index: a derived view over the page store grouping pages by tag.
//!
//! The index is recomputed from scratch on every build; nothing is persisted.
use vstd::prelude::*;

use crate::dates::now_seconds;
use crate::page::{
    FsEntry, Loaded, LoadedPageV, Page, entry_views, loaded_views, page_views, spec_list_all,
    spec_load_one, spec_load_pages,
};
use crate::{chars_le, lemma_chars_le_total, lemma_chars_le_trans, str_eq, str_le};

verus! {

broadcast use vstd::std_specs::vec::group_vec_axioms;

/// A tag: its name and the non-hidden pages carrying it, in page-store order.
#[derive(Debug)]
pub struct Tag {
    pub name: String,
    pub pages: Vec<Page<Loaded>>,
}

/// The mathematical view of a tag.
pub struct TagV {
    pub name: Seq<char>,
    pub pages: Seq<LoadedPageV>,
}

impl View for Tag {
    type V = TagV;

    open spec fn view(&self) -> TagV {
        TagV { name: self.name@, pages: loaded_views(self.pages@) }
    }
}

/// Whether a page carries the tag.
pub open spec fn page_has_tag(p: LoadedPageV, name: Seq<char>) -> bool {
    exists|i: int| 0 <= i < p.tags.len() && p.tags[i] == name
}

/// The member pages of a tag: the non-hidden pages that carry it, in order.
pub open spec fn spec_tag_pages(pages: Seq<LoadedPageV>, name: Seq<char>) -> Seq<LoadedPageV>
    decreases pages.len(),
{
    if pages.len() == 0 {
        Seq::empty()
    } else if !pages.last().hidden && page_has_tag(pages.last(), name) {
        spec_tag_pages(pages.drop_last(), name).push(pages.last())
    } else {
        spec_tag_pages(pages.drop_last(), name)
    }
}

/// Whether the tag names are strictly ascending: sorted, with no repeats.
pub open spec fn tags_strictly_sorted(tags: Seq<TagV>) -> bool {
    forall|i: int, j: int|
        0 <= i < j < tags.len() ==> chars_le((#[trigger] tags[i]).name, (#[trigger] tags[j]).name)
            && tags[i].name != tags[j].name
}

/// Whether some tag in the index bears this name.
pub open spec fn has_tag_entry(tags: Seq<TagV>, name: Seq<char>) -> bool {
    exists|t: int| 0 <= t < tags.len() && (#[trigger] tags[t]).name == name
}

/// Whether a name occurs in a list of names.
pub open spec fn name_in(names: Seq<String>, s: Seq<char>) -> bool {
    exists|i: int| 0 <= i < names.len() && (#[trigger] names[i])@ == s
}

/// Whether some non-hidden page of the list carries the tag.
pub open spec fn spec_has_tag(pages: Seq<LoadedPageV>, name: Seq<char>) -> bool {
    exists|q: int| 0 <= q < pages.len() && !(#[trigger] pages[q]).hidden && page_has_tag(pages[q], name)
}

/// Whether `m` is the modification time of some page of the list and no page
/// is newer.
pub open spec fn is_members_max(pages: Seq<LoadedPageV>, m: i64) -> bool {
    &&& (exists|i: int| 0 <= i < pages.len() && (#[trigger] pages[i]).mtime == m)
    &&& (forall|i: int| 0 <= i < pages.len() ==> (#[trigger] pages[i]).mtime <= m)
}

/// Whether the page carries the tag.
fn page_carries_tag(p: &Page<Loaded>, name: &str) -> (r: bool)
    ensures
        r == page_has_tag(p@, name@),
{
    let tags = p.tags();
    let mut i: usize = 0;
    while i < tags.len()
        invariant
            i <= tags.len(),
            p@.tags == tags@.map_values(|t: String| t@),
            forall|k: int| 0 <= k < i ==> p@.tags[k] != name@,
        decreases tags.len() - i,
    {
        if str_eq(tags[i].as_str(), name) {
            proof {
                assert(p@.tags[i as int] == name@);
            }
            return true;
        }
        i += 1;
    }
    false
}

/// The member pages of one tag, copied out of the page list in order.
fn collect_tag_pages(pages: &Vec<Page<Loaded>>, name: &str) -> (r: Vec<Page<Loaded>>)
    ensures
        loaded_views(r@) == spec_tag_pages(loaded_views(pages@), name@),
{
    let mut r: Vec<Page<Loaded>> = Vec::new();
    let mut i: usize = 0;
    while i < pages.len()
        invariant
            i <= pages.len(),
            loaded_views(r@) == spec_tag_pages(loaded_views(pages@).subrange(0, i as int), name@),
        decreases pages.len() - i,
    {
        let ghost pre = loaded_views(pages@).subrange(0, i as int);
        if !pages[i].is_hidden() && page_carries_tag(&pages[i], name) {
            r.push(pages[i].clone());
        }
        proof {
            let cur = loaded_views(pages@).subrange(0, i + 1);
            assert(cur.drop_last() =~= pre);
            assert(cur.last() == pages@[i as int]@);
            assert(loaded_views(r@) =~= spec_tag_pages(cur, name@));
        }
        i += 1;
    }
    proof {
        assert(loaded_views(pages@).subrange(0, pages@.len() as int) =~= loaded_views(pages@));
    }
    r
}

/// Inserts a tag name into a strictly sorted list, keeping it strictly
/// sorted; a name already present is left alone.
fn insert_name(names: &mut Vec<String>, name: &str)
    requires
        forall|i: int, j: int|
            0 <= i < j < old(names)@.len() ==> chars_le(
                (#[trigger] old(names)@[i])@,
                (#[trigger] old(names)@[j])@,
            ) && old(names)@[i]@ != old(names)@[j]@,
    ensures
        forall|i: int, j: int|
            0 <= i < j < final(names)@.len() ==> chars_le(
                (#[trigger] final(names)@[i])@,
                (#[trigger] final(names)@[j])@,
            ) && final(names)@[i]@ != final(names)@[j]@,
        name_in(final(names)@, name@),
        forall|s: Seq<char>| #[trigger] name_in(old(names)@, s) ==> name_in(final(names)@, s),
        forall|i: int|
            0 <= i < final(names)@.len() ==> (#[trigger] final(names)@[i])@ == name@ || name_in(
                old(names)@,
                final(names)@[i]@,
            ),
{
    let ghost orig = names@;
    let mut j: usize = 0;
    while j < names.len() && str_le(names[j].as_str(), name)
        invariant
            j <= names@.len(),
            names@ == orig,
            names@ == old(names)@,
            forall|i: int, jj: int|
                0 <= i < jj < names@.len() ==> chars_le(
                    (#[trigger] names@[i])@,
                    (#[trigger] names@[jj])@,
                ) && names@[i]@ != names@[jj]@,
            forall|k: int| 0 <= k < j ==> chars_le((#[trigger] names@[k])@, name@),
            forall|k: int| 0 <= k < j ==> (#[trigger] names@[k])@ != name@,
        decreases names@.len() - j,
    {
        if str_eq(names[j].as_str(), name) {
            proof {
                assert(names@[j as int]@ == name@);
                assert(name_in(names@, name@));
                assert forall|s: Seq<char>| #[trigger] name_in(orig, s) implies name_in(
                    names@,
                    s,
                ) by {}
                assert forall|i: int| 0 <= i < names@.len() implies (#[trigger] names@[i])@
                    == name@ || name_in(old(names)@, names@[i]@) by {
                    assert(old(names)@[i]@ == names@[i]@);
                }
            }
            return ;
        }
        proof {
            lemma_chars_le_total(names@[j as int]@, name@);
        }
        j += 1;
    }
    proof {
        if j < names@.len() {
            lemma_chars_le_total(names@[j as int]@, name@);
            assert(!chars_le(names@[j as int]@, name@));
            assert(chars_le(name@, names@[j as int]@));
            if names@[j as int]@ == name@ {
                crate::lemma_chars_le_refl(name@);
                assert(false);
            }
        }
    }
    names.insert(j, name.to_owned());
    proof {
        let f = names@;
        assert forall|a: int, b: int| 0 <= a < b < f.len() implies chars_le(
            (#[trigger] f[a])@,
            (#[trigger] f[b])@,
        ) && f[a]@ != f[b]@ by {
            if b < j {
                assert(f[a]@ == orig[a]@ && f[b]@ == orig[b]@);
            } else if a < j && b == j {
                assert(f[a]@ == orig[a]@ && f[b]@ == name@);
            } else if a == j {
                assert(f[a]@ == name@ && f[b]@ == orig[b - 1]@);
                assert(chars_le(name@, orig[j as int]@));
                if b - 1 > j {
                    assert(chars_le(orig[j as int]@, orig[b - 1]@));
                    lemma_chars_le_trans(name@, orig[j as int]@, orig[b - 1]@);
                    if orig[b - 1]@ == name@ {
                        assert(chars_le(orig[j as int]@, name@));
                        assert(false);
                    }
                }
            } else if a < j {
                assert(f[a]@ == orig[a]@ && f[b]@ == orig[b - 1]@);
                if a == b - 1 {
                    assert(false);
                }
            } else {
                assert(f[a]@ == orig[a - 1]@ && f[b]@ == orig[b - 1]@);
            }
        }
        assert(f[j as int]@ == name@);
        assert(name_in(f, name@));
        assert forall|i: int| 0 <= i < f.len() implies (#[trigger] f[i])@ == name@ || name_in(
            orig,
            f[i]@,
        ) by {
            if i < j {
                assert(orig[i]@ == f[i]@);
            } else if i > j {
                assert(orig[i - 1]@ == f[i]@);
            }
        }
        assert forall|s: Seq<char>| #[trigger] name_in(orig, s) implies name_in(f, s) by {
            let i = choose|i: int| 0 <= i < orig.len() && (#[trigger] orig[i])@ == s;
            if i < j {
                assert(f[i]@ == s);
            } else {
                assert(f[i + 1]@ == s);
            }
        }
    }
}

impl Tag {
    /// Builds the tag index from the loaded pages: one tag per name that a
    /// non-hidden page carries, names strictly ascending, each tag holding
    /// exactly the non-hidden pages that carry it, in page order.
    pub fn build(pages: &Vec<Page<Loaded>>) -> (r: Vec<Tag>)
        ensures
            tags_strictly_sorted(r@.map_values(|t: Tag| t@)),
            forall|t: int|
                0 <= t < r@.len() ==> (#[trigger] r@[t])@.pages == spec_tag_pages(
                    loaded_views(pages@),
                    r@[t]@.name,
                ),
            forall|t: int| 0 <= t < r@.len() ==> (#[trigger] r@[t])@.pages.len() > 0,
            forall|p: int, j: int|
                0 <= p < pages@.len() && !(#[trigger] pages@[p])@.hidden && 0 <= j
                    < pages@[p]@.tags.len() ==> has_tag_entry(
                    r@.map_values(|t: Tag| t@),
                    #[trigger] pages@[p]@.tags[j],
                ),
    {
        let mut names: Vec<String> = Vec::new();
        let mut p: usize = 0;
        while p < pages.len()
            invariant
                p <= pages@.len(),
                forall|i: int, j: int|
                    0 <= i < j < names@.len() ==> chars_le(
                        (#[trigger] names@[i])@,
                        (#[trigger] names@[j])@,
                    ) && names@[i]@ != names@[j]@,
                forall|q: int, j: int|
                    0 <= q < p && !(#[trigger] pages@[q])@.hidden && 0 <= j
                        < pages@[q]@.tags.len() ==> name_in(
                        names@,
                        #[trigger] pages@[q]@.tags[j],
                    ),
                forall|i: int|
                    0 <= i < names@.len() ==> spec_has_tag(
                        loaded_views(pages@),
                        (#[trigger] names@[i])@,
                    ),
            decreases pages@.len() - p,
        {
            if !pages[p].is_hidden() {
                let tags = pages[p].tags();
                let mut j: usize = 0;
                while j < tags.len()
                    invariant
                        j <= tags@.len(),
                        pages@[p as int]@.tags == tags@.map_values(|t: String| t@),
                        p < pages@.len(),
                        !pages@[p as int]@.hidden,
                        forall|i: int, jj: int|
                            0 <= i < jj < names@.len() ==> chars_le(
                                (#[trigger] names@[i])@,
                                (#[trigger] names@[jj])@,
                            ) && names@[i]@ != names@[jj]@,
                        forall|q: int, jj: int|
                            0 <= q < p && !(#[trigger] pages@[q])@.hidden && 0 <= jj
                                < pages@[q]@.tags.len() ==> name_in(
                                names@,
                                #[trigger] pages@[q]@.tags[jj],
                            ),
                        forall|jj: int|
                            0 <= jj < j ==> name_in(
                                names@,
                                #[trigger] pages@[p as int]@.tags[jj],
                            ),
                        forall|i: int|
                            0 <= i < names@.len() ==> spec_has_tag(
                                loaded_views(pages@),
                                (#[trigger] names@[i])@,
                            ),
                    decreases tags@.len() - j,
                {
                    let ghost oldnames = names@;
                    insert_name(&mut names, tags[j].as_str());
                    proof {
                        let lv = loaded_views(pages@);
                        assert(pages@[p as int]@.tags[j as int] == tags@[j as int]@);
                        assert(spec_has_tag(lv, tags@[j as int]@)) by {
                            assert(lv[p as int] == pages@[p as int]@);
                            assert(lv[p as int].tags[j as int] == tags@[j as int]@);
                            assert(page_has_tag(lv[p as int], tags@[j as int]@));
                            assert(!lv[p as int].hidden);
                        }
                        assert forall|i2: int| 0 <= i2 < names@.len() implies spec_has_tag(
                            lv,
                            (#[trigger] names@[i2])@,
                        ) by {
                            if names@[i2]@ != tags@[j as int]@ {
                                assert(name_in(oldnames, names@[i2]@));
                                let k = choose|k: int|
                                    0 <= k < oldnames.len() && (#[trigger] oldnames[k])@
                                        == names@[i2]@;
                                assert(spec_has_tag(lv, oldnames[k]@));
                            }
                        }
                    }
                    j += 1;
                }
            }
            p += 1;
        }
        let mut r: Vec<Tag> = Vec::new();
        let mut i: usize = 0;
        while i < names.len()
            invariant
                i <= names@.len(),
                r@.len() == i,
                forall|a: int, b: int|
                    0 <= a < b < names@.len() ==> chars_le(
                        (#[trigger] names@[a])@,
                        (#[trigger] names@[b])@,
                    ) && names@[a]@ != names@[b]@,
                forall|t: int| 0 <= t < i ==> (#[trigger] r@[t])@.name == names@[t]@,
                forall|t: int|
                    0 <= t < i ==> (#[trigger] r@[t])@.pages == spec_tag_pages(
                        loaded_views(pages@),
                        r@[t]@.name,
                    ),
                forall|t: int| 0 <= t < i ==> (#[trigger] r@[t])@.pages.len() > 0,
                forall|k: int|
                    0 <= k < names@.len() ==> spec_has_tag(
                        loaded_views(pages@),
                        (#[trigger] names@[k])@,
                    ),
            decreases names@.len() - i,
        {
            let member_pages = collect_tag_pages(pages, names[i].as_str());
            let tag = Tag { name: names[i].clone(), pages: member_pages };
            proof {
                let lv = loaded_views(pages@);
                assert(spec_has_tag(lv, names@[i as int]@));
                let q = choose|q: int|
                    0 <= q < lv.len() && !(#[trigger] lv[q]).hidden && page_has_tag(
                        lv[q],
                        names@[i as int]@,
                    );
                lemma_page_appears_under_tag(lv, names@[i as int]@, q);
            }
            r.push(tag);
            i += 1;
        }
        proof {
            let rv = r@.map_values(|t: Tag| t@);
            assert forall|a: int, b: int| 0 <= a < b < rv.len() implies chars_le(
                (#[trigger] rv[a]).name,
                (#[trigger] rv[b]).name,
            ) && rv[a].name != rv[b].name by {
                assert(rv[a] == r@[a]@ && rv[b] == r@[b]@);
            }
            assert forall|p2: int, j: int|
                0 <= p2 < pages@.len() && !(#[trigger] pages@[p2])@.hidden && 0 <= j
                    < pages@[p2]@.tags.len() implies has_tag_entry(
                rv,
                #[trigger] pages@[p2]@.tags[j],
            ) by {
                let name = pages@[p2]@.tags[j];
                assert(name_in(names@, name));
                let t = choose|t: int| 0 <= t < names@.len() && (#[trigger] names@[t])@ == name;
                assert(rv[t] == r@[t]@);
                assert(rv[t].name == name);
            }
        }
        r
    }

    /// Every tag of the snapshot: the pages are loaded (unreadable or
    /// malformed ones are skipped, hidden ones dropped) and the index built.
    pub fn all(entries: &Vec<FsEntry>) -> (r: Vec<Tag>)
        ensures
            ({
                let lp = spec_load_pages(
                    entry_views(entries@),
                    spec_list_all(entry_views(entries@)),
                );
                &&& tags_strictly_sorted(r@.map_values(|t: Tag| t@))
                &&& (forall|t: int|
                    0 <= t < r@.len() ==> (#[trigger] r@[t])@.pages == spec_tag_pages(
                        lp,
                        r@[t]@.name,
                    ))
                &&& (forall|t: int| 0 <= t < r@.len() ==> (#[trigger] r@[t])@.pages.len() > 0)
                &&& (forall|p: int, j: int|
                    0 <= p < lp.len() && !(#[trigger] lp[p]).hidden && 0 <= j
                        < lp[p].tags.len() ==> has_tag_entry(
                        r@.map_values(|t: Tag| t@),
                        #[trigger] lp[p].tags[j],
                    ))
            }),
    {
        let ghost lp = spec_load_pages(entry_views(entries@), spec_list_all(entry_views(entries@)));
        let pages = Self::loaded_pages(entries);
        let r = Self::build(&pages);
        proof {
            assert(loaded_views(pages@) == lp);
            assert forall|p: int, j: int|
                0 <= p < lp.len() && !(#[trigger] lp[p]).hidden && 0 <= j
                    < lp[p].tags.len() implies has_tag_entry(
                r@.map_values(|t: Tag| t@),
                #[trigger] lp[p].tags[j],
            ) by {
                assert(pages@[p]@ == lp[p]);
                assert(pages@[p]@.tags[j] == lp[p].tags[j]);
            }
        }
        r
    }

    /// Loads every page of the snapshot that loads cleanly, in page order,
    /// hidden pages included.
    pub(crate) fn loaded_pages(entries: &Vec<FsEntry>) -> (r: Vec<Page<Loaded>>)
        ensures
            loaded_views(r@) == spec_load_pages(
                entry_views(entries@),
                spec_list_all(entry_views(entries@)),
            ),
    {
        let ghost ev = entry_views(entries@);
        let mut handles = Page::all(entries);
        let mut r: Vec<Page<Loaded>> = Vec::new();
        proof {
            assert(spec_load_pages(ev, spec_list_all(ev)) =~= loaded_views(r@) + spec_load_pages(
                ev,
                page_views(handles@),
            ));
        }
        while handles.len() > 0
            invariant
                ev == entry_views(entries@),
                spec_load_pages(ev, spec_list_all(ev)) =~= loaded_views(r@) + spec_load_pages(
                    ev,
                    page_views(handles@),
                ),
            decreases handles.len(),
        {
            let ghost olds = handles@;
            let ghost oldr = r@;
            let handle = handles.remove(0);
            proof {
                assert(page_views(olds).first() == handle@);
                assert(page_views(olds).drop_first() =~= page_views(handles@));
            }
            match handle.load(entries) {
                Ok(p) => {
                    r.push(p);
                    proof {
                        assert(spec_load_one(ev, handle@) == Some(p@));
                        assert(loaded_views(r@) =~= loaded_views(oldr).push(p@));
                        assert(loaded_views(oldr) + spec_load_pages(ev, page_views(olds))
                            =~= loaded_views(r@) + spec_load_pages(ev, page_views(handles@)));
                    }
                },
                Err(_) => {
                    proof {
                        assert(spec_load_one(ev, handle@) is None);
                        assert(spec_load_pages(ev, page_views(olds)) =~= spec_load_pages(
                            ev,
                            page_views(handles@),
                        ));
                    }
                },
            }
        }
        proof {
            assert(page_views(handles@).len() == 0);
            assert(spec_load_pages(ev, page_views(handles@)) =~= Seq::<LoadedPageV>::empty());
            assert(loaded_views(r@) =~= spec_load_pages(ev, spec_list_all(ev)));
        }
        r
    }

    /// The tag called `name`, if any non-hidden page carries it.
    pub fn find(name: &str, entries: &Vec<FsEntry>) -> (r: Option<Tag>)
        ensures
            ({
                let lp = spec_load_pages(
                    entry_views(entries@),
                    spec_list_all(entry_views(entries@)),
                );
                &&& ((r is Some) <==> spec_has_tag(lp, name@))
                &&& (r matches Some(t) ==> t@.name == name@ && t@.pages == spec_tag_pages(
                    lp,
                    name@,
                ))
            }),
    {
        let ghost lp = spec_load_pages(entry_views(entries@), spec_list_all(entry_views(entries@)));
        let mut tags = Self::all(entries);
        let ghost tv = tags@.map_values(|t2: Tag| t2@);
        let mut i: usize = 0;
        while i < tags.len()
            invariant
                i <= tags@.len(),
                tv == tags@.map_values(|t2: Tag| t2@),
                lp == spec_load_pages(entry_views(entries@), spec_list_all(entry_views(entries@))),
                forall|t: int|
                    0 <= t < tags@.len() ==> (#[trigger] tags@[t])@.pages == spec_tag_pages(
                        lp,
                        tags@[t]@.name,
                    ),
                forall|t: int| 0 <= t < tags@.len() ==> (#[trigger] tags@[t])@.pages.len() > 0,
                forall|p: int, j: int|
                    0 <= p < lp.len() && !(#[trigger] lp[p]).hidden && 0 <= j
                        < lp[p].tags.len() ==> has_tag_entry(tv, #[trigger] lp[p].tags[j]),
                forall|k: int| 0 <= k < i ==> (#[trigger] tags@[k])@.name != name@,
            decreases tags@.len() - i,
        {
            if str_eq(tags[i].name.as_str(), name) {
                let ghost oldt = tags@;
                let tag = tags.remove(i);
                proof {
                    assert(tag == oldt[i as int]);
                    assert(tag@.pages == spec_tag_pages(lp, name@));
                    assert(tag@.pages.len() > 0);
                    lemma_tag_pages_members(lp, name@, 0);
                    let j = choose|j: int|
                        0 <= j < lp.len() && #[trigger] lp[j] == spec_tag_pages(lp, name@)[0];
                    assert(!lp[j].hidden && page_has_tag(lp[j], name@));
                    assert(spec_has_tag(lp, name@));
                }
                return Some(tag);
            }
            i += 1;
        }
        proof {
            if spec_has_tag(lp, name@) {
                let q = choose|q: int|
                    0 <= q < lp.len() && !(#[trigger] lp[q]).hidden && page_has_tag(lp[q], name@);
                let j = choose|j: int| 0 <= j < lp[q].tags.len() && lp[q].tags[j] == name@;
                assert(has_tag_entry(tv, lp[q].tags[j]));
                let w = choose|w: int| 0 <= w < tv.len() && (#[trigger] tv[w]).name == name@;
                assert(tv[w] == tags@[w]@);
                assert(false);
            }
        }
        None
    }

    /// How many pages carry this tag.
    pub fn page_count(&self) -> (r: usize)
        ensures
            r == self@.pages.len(),
    {
        self.pages.len()
    }

    /// The member pages sorted by name, an independent copy.
    pub fn sorted_pages(&self) -> (r: Vec<Page<Loaded>>)
        ensures
            loaded_views(r@) == spec_sort_by_name(self@.pages),
            loaded_views(r@).to_multiset() == self@.pages.to_multiset(),
            r@.len() == self@.pages.len(),
            forall|a: int, b: int|
                0 <= a < b < r@.len() ==> chars_le((#[trigger] r@[a])@.name, (#[trigger] r@[b])@.name),
    {
        broadcast use vstd::seq_lib::group_to_multiset_ensures;

        let mut v: Vec<Page<Loaded>> = Vec::new();
        let mut i: usize = 0;
        while i < self.pages.len()
            invariant
                i <= self.pages@.len(),
                loaded_views(v@) == loaded_views(self.pages@).subrange(0, i as int),
            decreases self.pages@.len() - i,
        {
            let ghost oldv = v@;
            let copy = self.pages[i].clone();
            proof {
                assert(copy@ == self.pages@[i as int]@);
            }
            let ghost cv = copy@;
            v.push(copy);
            proof {
                assert(v@ == oldv.push(copy));
                assert(loaded_views(oldv).len() == oldv.len());
                assert(v@.len() == i + 1);
                assert forall|k: int| 0 <= k < v@.len() implies loaded_views(v@)[k]
                    == loaded_views(self.pages@).subrange(0, i + 1)[k] by {
                    assert(loaded_views(v@)[k] == v@[k]@);
                    if k < i {
                        assert(v@[k] == oldv[k]);
                        assert(loaded_views(oldv)[k] == loaded_views(self.pages@).subrange(
                            0,
                            i as int,
                        )[k]);
                        assert(loaded_views(oldv)[k] == oldv[k]@);
                    } else {
                        assert(v@[k]@ == cv);
                    }
                }
                assert(loaded_views(v@) =~= loaded_views(self.pages@).subrange(0, i + 1));
            }
            i += 1;
        }
        proof {
            assert(loaded_views(self.pages@).subrange(0, self.pages@.len() as int) =~= loaded_views(
                self.pages@,
            ));
        }
        sorted_by_name(v)
    }

    /// The newest modification time over the member pages, or the present
    /// moment for a tag without pages.
    pub fn last_modified(&self) -> (r: i64)
        ensures
            self@.pages.len() > 0 ==> is_members_max(self@.pages, r),
            self@.pages.len() == 0 ==> r >= 0,
    {
        if self.pages.len() == 0 {
            return now_seconds();
        }
        let mut max: i64 = self.pages[0].mtime;
        let mut i: usize = 1;
        proof {
            assert(self@.pages[0] == self.pages@[0]@);
        }
        while i < self.pages.len()
            invariant
                1 <= i <= self.pages@.len(),
                exists|k: int| 0 <= k < i && (#[trigger] self@.pages[k]).mtime == max,
                forall|k: int| 0 <= k < i ==> (#[trigger] self@.pages[k]).mtime <= max,
            decreases self.pages@.len() - i,
        {
            if self.pages[i].mtime > max {
                max = self.pages[i].mtime;
            }
            proof {
                assert(self@.pages[i as int] == self.pages@[i as int]@);
            }
            i += 1;
        }
        max
    }
}

/// A page that carries a tag appears among that tag's member pages: every
/// non-hidden page is listed under each of the tags it carries.
pub proof fn lemma_page_appears_under_tag(pages: Seq<LoadedPageV>, name: Seq<char>, p: int)
    requires
        0 <= p < pages.len(),
        !pages[p].hidden,
        page_has_tag(pages[p], name),
    ensures
        exists|k: int|
            0 <= k < spec_tag_pages(pages, name).len() && #[trigger] spec_tag_pages(pages, name)[k]
                == pages[p],
    decreases pages.len(),
{
    let members = spec_tag_pages(pages, name);
    if p == pages.len() - 1 {
        assert(members.last() == pages[p]);
        assert(members[members.len() - 1] == pages[p]);
    } else {
        let shorter = pages.drop_last();
        assert(shorter[p] == pages[p]);
        lemma_page_appears_under_tag(shorter, name, p);
        let rest = spec_tag_pages(shorter, name);
        let k = choose|k: int| 0 <= k < rest.len() && #[trigger] rest[k] == shorter[p];
        if !pages.last().hidden && page_has_tag(pages.last(), name) {
            assert(members[k] == rest[k]);
        } else {
            assert(members[k] == rest[k]);
        }
    }
}

/// A member of a tag's filtered page list is non-hidden, carries the tag,
/// and comes from the list it was filtered of.
pub proof fn lemma_tag_pages_members(pages: Seq<LoadedPageV>, name: Seq<char>, k: int)
    requires
        0 <= k < spec_tag_pages(pages, name).len(),
    ensures
        !spec_tag_pages(pages, name)[k].hidden,
        page_has_tag(spec_tag_pages(pages, name)[k], name),
        exists|j: int| 0 <= j < pages.len() && #[trigger] pages[j] == spec_tag_pages(
            pages,
            name,
        )[k],
    decreases pages.len(),
{
    if pages.len() > 0 {
        let rest = spec_tag_pages(pages.drop_last(), name);
        if k < rest.len() {
            lemma_tag_pages_members(pages.drop_last(), name, k);
            let j = choose|j: int|
                0 <= j < pages.drop_last().len() && #[trigger] pages.drop_last()[j] == rest[k];
            assert(pages[j] == rest[k]);
        } else {
            assert(pages[pages.len() - 1] == spec_tag_pages(pages, name)[k]);
        }
    }
}

/// The position of the first name-least page of a non-empty list: the
/// earliest of them, when several share the least name.
pub open spec fn first_min_name_index(l: Seq<LoadedPageV>) -> int
    decreases l.len(),
{
    if l.len() <= 1 {
        0
    } else {
        let rest = first_min_name_index(l.drop_first()) + 1;
        if chars_le(l[0].name, l[rest].name) {
            0
        } else {
            rest
        }
    }
}

/// The list sorted by name, the earliest of equal names kept first:
/// repeatedly take out the first name-least page.
pub open spec fn spec_sort_by_name(l: Seq<LoadedPageV>) -> Seq<LoadedPageV>
    decreases l.len(),
{
    if l.len() == 0 {
        Seq::empty()
    } else {
        let m = first_min_name_index(l);
        if 0 <= m < l.len() {
            seq![l[m]] + spec_sort_by_name(l.remove(m))
        } else {
            l
        }
    }
}

/// The first name-least position is in range, holds a least name, and
/// everything before it has a strictly greater name.
pub proof fn lemma_first_min_name_bounds(l: Seq<LoadedPageV>)
    requires
        l.len() > 0,
    ensures
        0 <= first_min_name_index(l) < l.len(),
        forall|t: int|
            0 <= t < l.len() ==> chars_le(l[first_min_name_index(l)].name, (#[trigger] l[t]).name),
        forall|t: int|
            0 <= t < first_min_name_index(l) ==> !chars_le(
                (#[trigger] l[t]).name,
                l[first_min_name_index(l)].name,
            ),
    decreases l.len(),
{
    if l.len() == 1 {
        crate::lemma_chars_le_refl(l[0].name);
    } else {
        lemma_first_min_name_bounds(l.drop_first());
        let m = first_min_name_index(l);
        let rest = first_min_name_index(l.drop_first()) + 1;
        crate::lemma_chars_le_refl(l[0].name);
        assert forall|t: int| 0 <= t < l.len() implies chars_le(
            l[m].name,
            (#[trigger] l[t]).name,
        ) by {
            if t > 0 {
                assert(l.drop_first()[t - 1] == l[t]);
                assert(l.drop_first()[rest - 1] == l[rest]);
                assert(chars_le(l[rest].name, l[t].name));
                if m == 0 {
                    lemma_chars_le_trans(l[0].name, l[rest].name, l[t].name);
                }
            } else {
                if m != 0 {
                    lemma_chars_le_total(l[0].name, l[rest].name);
                }
            }
        }
        assert forall|t: int| 0 <= t < m implies !chars_le(
            (#[trigger] l[t]).name,
            l[m].name,
        ) by {
            if t > 0 {
                assert(l.drop_first()[t - 1] == l[t]);
                assert(l.drop_first()[rest - 1] == l[rest]);
            }
        }
    }
}

/// Any position that holds a least name, with everything before it strictly
/// greater, is the first name-least position.
pub proof fn lemma_first_min_name_char(l: Seq<LoadedPageV>, m: int)
    requires
        0 <= m < l.len(),
        forall|t: int| 0 <= t < l.len() ==> chars_le(l[m].name, (#[trigger] l[t]).name),
        forall|t: int| 0 <= t < m ==> !chars_le((#[trigger] l[t]).name, l[m].name),
    ensures
        m == first_min_name_index(l),
{
    lemma_first_min_name_bounds(l);
    let fm = first_min_name_index(l);
    if fm < m {
        assert(!chars_le(l[fm].name, l[m].name));
        assert(chars_le(l[fm].name, l[m].name));
    } else if m < fm {
        assert(!chars_le(l[m].name, l[fm].name));
        assert(chars_le(l[m].name, l[fm].name));
    }
}

/// The pages sorted by name; pages of equal name keep their relative order.
pub(crate) fn sorted_by_name(pages: Vec<Page<Loaded>>) -> (r: Vec<Page<Loaded>>)
    ensures
        loaded_views(r@) == spec_sort_by_name(loaded_views(pages@)),
        loaded_views(r@).to_multiset() == loaded_views(pages@).to_multiset(),
        r@.len() == pages@.len(),
        forall|a: int, b: int|
            0 <= a < b < r@.len() ==> chars_le((#[trigger] r@[a])@.name, (#[trigger] r@[b])@.name),
{
    broadcast use vstd::seq_lib::group_to_multiset_ensures;

    let ghost orig = loaded_views(pages@);
    let mut v = pages;
    let mut out: Vec<Page<Loaded>> = Vec::new();
    proof {
        assert(spec_sort_by_name(orig) =~= loaded_views(out@) + spec_sort_by_name(
            loaded_views(v@),
        ));
    }
    while v.len() > 0
        invariant
            spec_sort_by_name(orig) =~= loaded_views(out@) + spec_sort_by_name(loaded_views(v@)),
            loaded_views(out@).to_multiset().add(loaded_views(v@).to_multiset())
                =~= orig.to_multiset(),
            out@.len() + v@.len() == orig.len(),
            forall|a: int, b: int|
                0 <= a < b < out@.len() ==> chars_le(
                    (#[trigger] out@[a])@.name,
                    (#[trigger] out@[b])@.name,
                ),
            forall|a: int, b: int|
                0 <= a < out@.len() && 0 <= b < v@.len() ==> chars_le(
                    (#[trigger] out@[a])@.name,
                    (#[trigger] v@[b])@.name,
                ),
        decreases v.len(),
    {
        let mut m: usize = 0;
        let mut k: usize = 1;
        proof {
            crate::lemma_chars_le_refl(v@[0]@.name);
        }
        while k < v.len()
            invariant
                0 <= m < k <= v@.len(),
                forall|t: int| 0 <= t < k ==> chars_le(v@[m as int]@.name, (#[trigger] v@[t])@.name),
                forall|t: int| 0 <= t < m ==> !chars_le((#[trigger] v@[t])@.name, v@[m as int]@.name),
            decreases v@.len() - k,
        {
            if str_le(v[k].name.as_str(), v[m].name.as_str())
                && !str_le(v[m].name.as_str(), v[k].name.as_str()) {
                proof {
                    assert forall|t: int| 0 <= t < k + 1 implies chars_le(
                        v@[k as int]@.name,
                        (#[trigger] v@[t])@.name,
                    ) by {
                        if t < k {
                            lemma_chars_le_trans(v@[k as int]@.name, v@[m as int]@.name, v@[t]@.name);
                        } else {
                            crate::lemma_chars_le_refl(v@[k as int]@.name);
                        }
                    }
                    assert forall|t: int| 0 <= t < k implies !chars_le(
                        (#[trigger] v@[t])@.name,
                        v@[k as int]@.name,
                    ) by {
                        if chars_le(v@[t]@.name, v@[k as int]@.name) {
                            lemma_chars_le_trans(
                                v@[m as int]@.name,
                                v@[t]@.name,
                                v@[k as int]@.name,
                            );
                        }
                    }
                }
                m = k;
            } else {
                proof {
                    lemma_chars_le_total(v@[k as int]@.name, v@[m as int]@.name);
                }
            }
            k += 1;
        }
        let ghost oldv = v@;
        let ghost oldout = out@;
        let x = v.remove(m);
        out.push(x);
        proof {
            broadcast use vstd::multiset::group_multiset_axioms;

            let ov = loaded_views(oldv);
            assert forall|t: int| 0 <= t < ov.len() implies chars_le(
                ov[m as int].name,
                (#[trigger] ov[t]).name,
            ) by {
                assert(ov[t] == oldv[t]@ && ov[m as int] == oldv[m as int]@);
            }
            assert forall|t: int| 0 <= t < m implies !chars_le(
                (#[trigger] ov[t]).name,
                ov[m as int].name,
            ) by {
                assert(ov[t] == oldv[t]@ && ov[m as int] == oldv[m as int]@);
            }
            lemma_first_min_name_char(ov, m as int);
            assert(loaded_views(v@) =~= ov.remove(m as int));
            assert(spec_sort_by_name(ov) =~= seq![ov[m as int]] + spec_sort_by_name(
                loaded_views(v@),
            ));
            assert(loaded_views(out@) =~= loaded_views(oldout).push(oldv[m as int]@));
            assert(loaded_views(out@) + spec_sort_by_name(loaded_views(v@)) =~= loaded_views(
                oldout,
            ) + spec_sort_by_name(ov));
            ov.to_multiset_ensures();
            loaded_views(oldout).to_multiset_ensures();
            assert(ov[m as int] == oldv[m as int]@);
            assert(ov.contains(oldv[m as int]@));
            assert(ov.to_multiset().count(oldv[m as int]@) > 0);
            assert(loaded_views(out@).to_multiset() =~= loaded_views(oldout).to_multiset().insert(
                oldv[m as int]@,
            ));
            assert(loaded_views(v@).to_multiset() =~= ov.to_multiset().remove(oldv[m as int]@));
            assert(loaded_views(out@).to_multiset().add(loaded_views(v@).to_multiset())
                =~= orig.to_multiset());
            assert(forall|b: int|
                0 <= b < v@.len() ==> #[trigger] v@[b] == if b < m {
                    oldv[b]
                } else {
                    oldv[b + 1]
                });
        }
    }
    proof {
        assert(loaded_views(v@).len() == 0);
        assert(spec_sort_by_name(loaded_views(v@)) =~= Seq::<LoadedPageV>::empty());
        assert(loaded_views(out@) + spec_sort_by_name(loaded_views(v@)) =~= loaded_views(out@));
    }
    out
}

} // verus!
