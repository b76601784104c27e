//! The tag store: making, finding, counting, renaming and removing tags.
//!
//! A tag is made the first time something asks for its name, and asking
//! again finds it. Removing a tag removes its associations with it.

use crate::catalog::{
    has_tag, has_tag_id, lemma_filter_all_but, lemma_filter_rows, lemma_rows_bounded, rising,
    well_formed, Catalog, CatalogView,
};
use crate::error::StoreError;
use crate::history::{logged, Event, History};
use crate::link_tag::{rows_of_link, rows_without_tag, without_tag, LinkTag};
use crate::order::{arranged, arranges, lemma_arranged_is, lemma_arranges_more, strict_order};
use crate::search::{page_of, requested_page, Page};
use crate::tag::{Tag, TagView, TagWithOccurrences, TagWithOccurrencesView};
use crate::text::{
    lemma_lex_irreflexive, lemma_lex_total, lemma_lex_transitive, lex_lt, str_eq, str_lt,
};
use vstd::prelude::*;
use vstd::string::*;

verus! {

/// The tag of `tags` that is named `name`, where there is one.
pub open spec fn tag_named(tags: Seq<TagView>, name: Seq<char>) -> TagView {
    tags[choose|i: int| 0 <= i < tags.len() && tags[i].name == name]
}

/// The catalog `c` with one more tag, named `name`.
pub open spec fn with_tag(c: CatalogView, name: Seq<char>) -> CatalogView {
    CatalogView {
        tags: c.tags.push(TagView { id: c.next_tag_id, name }),
        next_tag_id: (c.next_tag_id + 1) as i64,
        ..c
    }
}

/// What making a tag named `name` comes to: the catalog with the new tag,
/// and the tag. A name that is taken is a conflict, and a catalog that has
/// handed out its last tag identity is full.
pub open spec fn tag_created(c: CatalogView, name: Seq<char>) -> Result<
    (CatalogView, TagView),
    StoreError,
> {
    if has_tag(c.tags, name) {
        Err(StoreError::Conflict)
    } else if c.next_tag_id == i64::MAX {
        Err(StoreError::Full)
    } else {
        Ok((with_tag(c, name), TagView { id: c.next_tag_id, name }))
    }
}

/// What asking for the tag named `name` comes to: the tag that has the name,
/// with the catalog as it was, or else a new tag.
pub open spec fn tag_ensured(c: CatalogView, name: Seq<char>) -> Result<
    (CatalogView, TagView),
    StoreError,
> {
    if has_tag(c.tags, name) {
        Ok((c, tag_named(c.tags, name)))
    } else {
        tag_created(c, name)
    }
}

/// The tag of `tags` with identity `id`, where there is one.
pub open spec fn tag_with_id(tags: Seq<TagView>, id: i64) -> TagView {
    tags[choose|i: int| 0 <= i < tags.len() && tags[i].id == id]
}

/// The names of the tags that the link `link_id` is filed under, one for
/// each of its associations and in their order.
pub open spec fn tag_names_of(c: CatalogView, link_id: i64) -> Seq<Seq<char>> {
    rows_of_link(c.links_tags, link_id).map_values(
        |row: LinkTag| tag_with_id(c.tags, row.tag_id).name,
    )
}

/// The catalog `c` without the tag named `name` and without the associations
/// that name that tag.
pub open spec fn without_tag_named(c: CatalogView, name: Seq<char>) -> CatalogView {
    CatalogView {
        tags: c.tags.filter(|tag: TagView| tag.name != name),
        links_tags: without_tag(c.links_tags, tag_named(c.tags, name).id),
        ..c
    }
}

/// The catalog `c` with the tag named `name` renamed to `new_name`.
pub open spec fn with_tag_renamed(
    c: CatalogView,
    name: Seq<char>,
    new_name: Seq<char>,
) -> CatalogView {
    CatalogView {
        tags: c.tags.map_values(
            |tag: TagView|
                if tag.name == name {
                    TagView { id: tag.id, name: new_name }
                } else {
                    tag
                },
        ),
        ..c
    }
}

/// What renaming the tag named `name` to `new_name` comes to, before the
/// change is written to the trail. The tag has to be there, and no other tag
/// may have the new name; a tag can be renamed to the name it has.
pub open spec fn tag_renamed(c: CatalogView, name: Seq<char>, new_name: Seq<char>) -> Result<
    CatalogView,
    StoreError,
> {
    if !has_tag(c.tags, name) {
        Err(StoreError::NotFound)
    } else if new_name != name && has_tag(c.tags, new_name) {
        Err(StoreError::Conflict)
    } else {
        Ok(with_tag_renamed(c, name, new_name))
    }
}

/// The catalog `c` without any tag, and so without any association.
pub open spec fn without_tags(c: CatalogView) -> CatalogView {
    CatalogView { tags: Seq::empty(), links_tags: Seq::empty(), ..c }
}

/// In a table of tags with different identities, the tag at a position is
/// the tag of its identity.
pub proof fn lemma_tag_with_id(tags: Seq<TagView>, i: int)
    requires
        0 <= i < tags.len(),
        forall|a: int, b: int|
            0 <= a < b < tags.len() ==> (#[trigger] tags[a]).id < (#[trigger] tags[b]).id,
    ensures
        has_tag_id(tags, tags[i].id),
        tag_with_id(tags, tags[i].id) == tags[i],
{
    let id = tags[i].id;
    let k = choose|k: int| 0 <= k < tags.len() && tags[k].id == id;
    if k < i {
        assert(tags[k].id < tags[i].id);
    } else if i < k {
        assert(tags[i].id < tags[k].id);
    }
}

/// In a table of tags with different names, the tag at a position is the
/// tag of its name.
pub proof fn lemma_tag_named(tags: Seq<TagView>, i: int)
    requires
        0 <= i < tags.len(),
        forall|a: int, b: int|
            0 <= a < b < tags.len() ==> (#[trigger] tags[a]).name != (#[trigger] tags[b]).name,
    ensures
        has_tag(tags, tags[i].name),
        tag_named(tags, tags[i].name) == tags[i],
{
    let name = tags[i].name;
    let k = choose|k: int| 0 <= k < tags.len() && tags[k].name == name;
    if k < i {
        assert(tags[k].name != tags[i].name);
    } else if i < k {
        assert(tags[i].name != tags[k].name);
    }
}

/// The position of the tag named `name`.
pub(crate) fn tag_position(tags: &Vec<Tag>, name: &str) -> (found: Option<usize>)
    ensures
        match found {
            Some(i) => i < tags.len() && tags.deep_view()[i as int].name == name@,
            None => !has_tag(tags.deep_view(), name@),
        },
{
    let mut i: usize = 0;
    while i < tags.len()
        invariant
            i <= tags.len(),
            forall|k: int| 0 <= k < i ==> (#[trigger] tags.deep_view()[k]).name != name@,
        decreases tags.len() - i,
    {
        if str_eq(tags[i].name.as_str(), name) {
            return Some(i);
        }
        i += 1;
    }
    None
}

/// The number of tags that a search shows where the request names no
/// limit.
pub const TAGS_PAGE: usize = 20;

/// The number of associations in `rows` that name the tag `tag_id`.
pub open spec fn occurrences(rows: Seq<LinkTag>, tag_id: i64) -> nat {
    rows.filter(|row: LinkTag| row.tag_id == tag_id).len()
}

/// The name of `tag` with the number of its associations in `c`.
pub open spec fn counted(c: CatalogView, tag: TagView) -> TagWithOccurrencesView {
    TagWithOccurrencesView {
        name: tag.name,
        occurrences: occurrences(c.links_tags, tag.id) as i64,
    }
}

/// Every tag of `c` with its count, in the order of the table. A tag that no
/// association names is there with count zero.
pub open spec fn tag_counts(c: CatalogView) -> Seq<TagWithOccurrencesView> {
    c.tags.map_values(|tag: TagView| counted(c, tag))
}

/// Whether `a` comes before `b` in a listing of tags: by name, in the order
/// of the dictionary.
pub open spec fn name_before(a: TagWithOccurrencesView, b: TagWithOccurrencesView) -> bool {
    lex_lt(a.name, b.name) || (a.name == b.name && a.occurrences < b.occurrences)
}

/// The order of a listing of tags.
pub open spec fn by_name() -> spec_fn(TagWithOccurrencesView, TagWithOccurrencesView) -> bool {
    |a: TagWithOccurrencesView, b: TagWithOccurrencesView| name_before(a, b)
}

/// What a search of the tags finds: every tag with its count, in the order
/// of the names, cut to the requested page.
pub open spec fn tags_found(c: CatalogView, offset: Option<i32>, limit: Option<Seq<char>>) -> Result<
    Seq<TagWithOccurrencesView>,
    StoreError,
> {
    match requested_page(offset, limit, TAGS_PAGE) {
        Err(e) => Err(e),
        Ok(page) => Ok(page_of(arranged(tag_counts(c), by_name()), page)),
    }
}

/// What reading the tag named `name` gives: its name and its count.
pub open spec fn tag_read(c: CatalogView, name: Seq<char>) -> Result<
    TagWithOccurrencesView,
    StoreError,
> {
    if has_tag(c.tags, name) {
        Ok(counted(c, tag_named(c.tags, name)))
    } else {
        Err(StoreError::NotFound)
    }
}

/// The order of a listing of tags is a strict total order.
pub proof fn lemma_by_name_is_order()
    ensures
        strict_order(by_name()),
{
    let lt = by_name();
    assert forall|a: TagWithOccurrencesView| !#[trigger] lt(a, a) by {
        lemma_lex_irreflexive(a.name);
    }
    assert forall|a: TagWithOccurrencesView, b: TagWithOccurrencesView, c: TagWithOccurrencesView|
        #[trigger] lt(a, b) && #[trigger] lt(b, c) implies lt(a, c) by {
        if lex_lt(a.name, b.name) && lex_lt(b.name, c.name) {
            lemma_lex_transitive(a.name, b.name, c.name);
        }
    }
    assert forall|a: TagWithOccurrencesView, b: TagWithOccurrencesView| a != b implies #[trigger] lt(
        a,
        b,
    ) || lt(b, a) by {
        if a.name != b.name {
            lemma_lex_total(a.name, b.name);
        }
    }
}

/// Counts the associations that name the tag `tag_id`.
fn count_rows(rows: &Vec<LinkTag>, tag_id: i64) -> (count: i64)
    requires
        rows.len() < i64::MAX,
    ensures
        count == occurrences(rows@, tag_id),
{
    let ghost named = |row: LinkTag| row.tag_id == tag_id;
    let mut count: i64 = 0;
    let mut i: usize = 0;
    proof {
        assert(rows@.take(0).filter(named) =~= Seq::<LinkTag>::empty()) by {
            reveal(Seq::filter);
        }
    }
    while i < rows.len()
        invariant
            i <= rows.len() < i64::MAX,
            named == |row: LinkTag| row.tag_id == tag_id,
            0 <= count <= i,
            count == rows@.take(i as int).filter(named).len(),
        decreases rows.len() - i,
    {
        proof {
            assert(rows@.take(i + 1) == rows@.take(i as int).push(rows@[i as int]));
            rows@.take(i as int).lemma_filter_push(rows@[i as int], named);
        }
        if rows[i].tag_id == tag_id {
            count += 1;
        }
        i += 1;
    }
    proof {
        assert(rows@.take(i as int) == rows@);
    }
    count
}

fn is_name_before(a: &TagWithOccurrences, b: &TagWithOccurrences) -> (r: bool)
    ensures
        r == name_before(a@, b@),
{
    if str_lt(a.name(), b.name()) {
        true
    } else {
        str_eq(a.name(), b.name()) && a.occurrences() < b.occurrences()
    }
}

/// The place of `row` in `out`: behind every row that comes before it.
fn place_by_name(out: &Vec<TagWithOccurrences>, row: &TagWithOccurrences) -> (p: usize)
    ensures
        p <= out.len(),
        forall|k: int| 0 <= k < p ==> name_before(#[trigger] out.deep_view()[k], row@),
        p < out.len() ==> !name_before(out.deep_view()[p as int], row@),
{
    let mut p: usize = 0;
    while p < out.len() && is_name_before(&out[p], row)
        invariant
            p <= out.len(),
            forall|k: int| 0 <= k < p ==> name_before(#[trigger] out.deep_view()[k], row@),
        decreases out.len() - p,
    {
        p += 1;
    }
    p
}

/// The position of the tag with identity `id`.
pub(crate) fn tag_position_by_id(tags: &Vec<Tag>, id: i64) -> (found: Option<usize>)
    ensures
        match found {
            Some(i) => i < tags.len() && tags.deep_view()[i as int].id == id,
            None => !has_tag_id(tags.deep_view(), id),
        },
{
    let mut i: usize = 0;
    while i < tags.len()
        invariant
            i <= tags.len(),
            forall|k: int| 0 <= k < i ==> (#[trigger] tags.deep_view()[k]).id != id,
        decreases tags.len() - i,
    {
        if tags[i].id == id {
            return Some(i);
        }
        i += 1;
    }
    None
}

/// A catalog stays well formed when a tag leaves it together with the
/// associations that name the tag.
pub proof fn lemma_without_tag_wf(c: CatalogView, at: int)
    requires
        well_formed(c),
        0 <= at < c.tags.len(),
    ensures
        without_tag_named(c, c.tags[at].name) == (CatalogView {
            tags: c.tags.remove(at),
            links_tags: without_tag(c.links_tags, c.tags[at].id),
            ..c
        }),
        well_formed(without_tag_named(c, c.tags[at].name)),
{
    let name = c.tags[at].name;
    let id = c.tags[at].id;
    let d = without_tag_named(c, name);
    lemma_tag_named(c.tags, at);
    let keep_tag = |tag: TagView| tag.name != name;
    assert forall|i: int| 0 <= i < c.tags.len() && i != at implies keep_tag(
        #[trigger] c.tags[i],
    ) by {
        if i < at {
            assert(c.tags[i].name != c.tags[at].name);
        } else {
            assert(c.tags[at].name != c.tags[i].name);
        }
    }
    lemma_filter_all_but(c.tags, keep_tag, at);
    assert(d.tags == c.tags.remove(at));
    let keep = |row: LinkTag| row.tag_id != id;
    assert(rising(c.links_tags));
    lemma_filter_rows(c.links_tags, keep);
    assert forall|k: int| 0 <= k < d.links_tags.len() implies {
        &&& 0 < (#[trigger] d.links_tags[k]).id < d.next_link_tag_id
        &&& crate::catalog::has_link(d.links, d.links_tags[k].link_id)
        &&& has_tag_id(d.tags, d.links_tags[k].tag_id)
    } by {
        let row = d.links_tags[k];
        let w = choose|w: int| 0 <= w < c.links_tags.len() && c.links_tags[w] == row;
        assert(c.links_tags[w] == row);
        let t = choose|t: int| 0 <= t < c.tags.len() && c.tags[t].id == row.tag_id;
        assert(t != at);
        if t < at {
            assert(d.tags[t] == c.tags[t]);
        } else {
            assert(d.tags[t - 1] == c.tags[t]);
        }
    }
    assert forall|i: int, j: int| 0 <= i < j < d.tags.len() implies (#[trigger] d.tags[i]).id < (
    #[trigger] d.tags[j]).id && d.tags[i].name != d.tags[j].name by {
        let a = if i < at {
            i
        } else {
            i + 1
        };
        let b = if j < at {
            j
        } else {
            j + 1
        };
        assert(c.tags[a].id < c.tags[b].id);
        assert(c.tags[a].name != c.tags[b].name);
    }
    assert forall|i: int| 0 <= i < d.tags.len() implies 0 < (#[trigger] d.tags[i]).id
        < d.next_tag_id by {
        let a = if i < at {
            i
        } else {
            i + 1
        };
        assert(0 < c.tags[a].id < c.next_tag_id);
    }
}

/// A catalog stays well formed when a tag gets a name that no other tag
/// has.
pub proof fn lemma_renamed_wf(c: CatalogView, at: int, new_name: Seq<char>)
    requires
        well_formed(c),
        0 <= at < c.tags.len(),
        new_name == c.tags[at].name || !has_tag(c.tags, new_name),
    ensures
        with_tag_renamed(c, c.tags[at].name, new_name) == (CatalogView {
            tags: c.tags.update(at, TagView { id: c.tags[at].id, name: new_name }),
            ..c
        }),
        well_formed(with_tag_renamed(c, c.tags[at].name, new_name)),
{
    let name = c.tags[at].name;
    let d = with_tag_renamed(c, name, new_name);
    let e = c.tags.update(at, TagView { id: c.tags[at].id, name: new_name });
    assert forall|i: int| 0 <= i < c.tags.len() implies #[trigger] d.tags[i] == e[i] by {
        if i < at {
            assert(c.tags[i].name != c.tags[at].name);
        } else if at < i {
            assert(c.tags[at].name != c.tags[i].name);
        }
    }
    assert(d.tags =~= e);
    assert forall|i: int, j: int| 0 <= i < j < d.tags.len() implies (#[trigger] d.tags[i]).id < (
    #[trigger] d.tags[j]).id && d.tags[i].name != d.tags[j].name by {
        assert(c.tags[i].id < c.tags[j].id);
        assert(c.tags[i].name != c.tags[j].name);
    }
    assert forall|i: int| 0 <= i < d.tags.len() implies 0 < (#[trigger] d.tags[i]).id
        < d.next_tag_id by {
        assert(0 < c.tags[i].id < c.next_tag_id);
    }
    assert forall|k: int| 0 <= k < d.links_tags.len() implies has_tag_id(
        d.tags,
        (#[trigger] d.links_tags[k]).tag_id,
    ) by {
        let t = choose|t: int| 0 <= t < c.tags.len() && c.tags[t].id == c.links_tags[k].tag_id;
        assert(d.tags[t].id == c.tags[t].id);
    }
}

impl Tag {
    /// Looks the tag named `name` up.
    pub fn read_from_name(catalog: &Catalog, name: &str) -> (found: Result<Tag, StoreError>)
        requires
            catalog.wf(),
        ensures
            match found {
                Ok(tag) => has_tag(catalog@.tags, name@) && tag@ == tag_named(
                    catalog@.tags,
                    name@,
                ),
                Err(e) => e == StoreError::NotFound && !has_tag(catalog@.tags, name@),
            },
    {
        proof {
            catalog.unfold();
        }
        match tag_position(&catalog.tags, name) {
            Some(i) => {
                proof {
                    lemma_tag_named(catalog@.tags, i as int);
                }
                Ok(catalog.tags[i].clone())
            },
            None => Err(StoreError::NotFound),
        }
    }

    /// Makes a tag named `name`; see [`tag_created`]. A refusal leaves the
    /// catalog as it was.
    pub fn create(catalog: &mut Catalog, name: &str) -> (made: Result<Tag, StoreError>)
        requires
            old(catalog).wf(),
        ensures
            final(catalog).wf(),
            match made {
                Ok(tag) => tag_created(old(catalog)@, name@) == Ok::<
                    (CatalogView, TagView),
                    StoreError,
                >((final(catalog)@, tag@)),
                Err(e) => tag_created(old(catalog)@, name@) == Err::<
                    (CatalogView, TagView),
                    StoreError,
                >(e) && final(catalog)@ == old(catalog)@,
            },
    {
        proof {
            catalog.unfold();
        }
        if tag_position(&catalog.tags, name).is_some() {
            return Err(StoreError::Conflict);
        }
        if catalog.next_tag_id == i64::MAX {
            return Err(StoreError::Full);
        }
        let tag = Tag { id: catalog.next_tag_id, name: name.to_owned() };
        let copy = tag.clone();
        let ghost before = catalog.tags.deep_view();
        catalog.tags.push(tag);
        catalog.next_tag_id = catalog.next_tag_id + 1;
        proof {
            catalog.unfold();
            assert(catalog.tags.deep_view() =~= before.push(copy@));
            lemma_with_tag_wf(old(catalog)@, name@);
        }
        Ok(copy)
    }

    /// Hands back the tag named `name`, making it where the catalog has
    /// none; see [`tag_ensured`]. Asking twice gives the same tag.
    pub fn get_or_insert(catalog: &mut Catalog, name: &str) -> (tag: Result<Tag, StoreError>)
        requires
            old(catalog).wf(),
        ensures
            final(catalog).wf(),
            match tag {
                Ok(tag) => tag_ensured(old(catalog)@, name@) == Ok::<
                    (CatalogView, TagView),
                    StoreError,
                >((final(catalog)@, tag@)),
                Err(e) => tag_ensured(old(catalog)@, name@) == Err::<
                    (CatalogView, TagView),
                    StoreError,
                >(e) && final(catalog)@ == old(catalog)@,
            },
    {
        match Tag::read_from_name(catalog, name) {
            Ok(tag) => Ok(tag),
            Err(_) => Tag::create(catalog, name),
        }
    }

    /// Reads the tag named `name` with the number of its associations.
    pub fn read(catalog: &Catalog, name: &str) -> (found: Result<TagWithOccurrences, StoreError>)
        requires
            catalog.wf(),
        ensures
            match found {
                Ok(row) => tag_read(catalog@, name@) == Ok::<TagWithOccurrencesView, StoreError>(
                    row@,
                ),
                Err(e) => tag_read(catalog@, name@) == Err::<TagWithOccurrencesView, StoreError>(
                    e,
                ),
            },
    {
        proof {
            catalog.unfold();
            lemma_rows_bounded(catalog@);
        }
        match tag_position(&catalog.tags, name) {
            Some(i) => {
                proof {
                    lemma_tag_named(catalog@.tags, i as int);
                }
                let count = count_rows(&catalog.links_tags, catalog.tags[i].id);
                Ok(TagWithOccurrences::new(catalog.tags[i].name.clone(), count))
            },
            None => Err(StoreError::NotFound),
        }
    }

    /// Lists the tags with their counts, in the order of their names, cut
    /// to the page that `offset` and `limit` ask for; see [`tags_found`]. A
    /// request without a limit is shown [`TAGS_PAGE`] tags. The third
    /// parameter is accepted and has no effect: tags have no visibility.
    pub fn search(
        catalog: &Catalog,
        offset: Option<i32>,
        limit: Option<&str>,
        _visibility: Option<&str>,
    ) -> (found: Result<Vec<TagWithOccurrences>, StoreError>)
        requires
            catalog.wf(),
        ensures
            match found {
                Ok(rows) => tags_found(catalog@, offset, limit.deep_view()) == Ok::<
                    Seq<TagWithOccurrencesView>,
                    StoreError,
                >(rows.deep_view()),
                Err(e) => tags_found(catalog@, offset, limit.deep_view()) == Err::<
                    Seq<TagWithOccurrencesView>,
                    StoreError,
                >(e),
            },
    {
        let page = match Page::parse(offset, limit, TAGS_PAGE) {
            Ok(page) => page,
            Err(e) => {
                return Err(e);
            },
        };
        proof {
            catalog.unfold();
            lemma_rows_bounded(catalog@);
            lemma_by_name_is_order();
        }
        let ghost all = tag_counts(catalog@);
        let mut out: Vec<TagWithOccurrences> = Vec::new();
        let n = catalog.tags.len();
        let mut i: usize = 0;
        while i < n
            invariant
                i <= n == catalog.tags.len(),
                catalog.wf(),
                catalog@.tags == catalog.tags.deep_view(),
                catalog@.links_tags == catalog.links_tags@,
                catalog.links_tags.len() < i64::MAX,
                all == tag_counts(catalog@),
                strict_order(by_name()),
                arranges(out.deep_view(), all.take(i as int), by_name()),
            decreases n - i,
        {
            let count = count_rows(&catalog.links_tags, catalog.tags[i].id);
            let row = TagWithOccurrences::new(catalog.tags[i].name.clone(), count);
            let p = place_by_name(&out, &row);
            let ghost seen = all.take(i as int);
            let ghost before = out.deep_view();
            proof {
                assert(row@ == all[i as int]);
                if seen.contains(row@) {
                    let k = choose|k: int| 0 <= k < seen.len() && seen[k] == row@;
                    assert(catalog@.tags[k].name != catalog@.tags[i as int].name);
                }
                lemma_arranges_more(before, seen, p as int, row@, by_name());
                assert(all.take(i + 1) == seen.push(row@));
            }
            out.insert(p, row);
            proof {
                assert(out.deep_view() =~= before.insert(p as int, row@));
            }
            i += 1;
        }
        proof {
            assert(all.take(n as int) == all);
            lemma_arranged_is(out.deep_view(), all, by_name());
        }
        let ghost sorted = out.deep_view();
        let shown = page.cut(out);
        proof {
            assert(shown.deep_view() =~= page_of(sorted, page));
        }
        Ok(shown)
    }

    /// The names of the tags that the link `link_id` is filed under; see
    /// [`tag_names_of`]. A link that the catalog does not hold has none.
    pub fn read_tags_for_link(catalog: &Catalog, link_id: i64) -> (names: Result<
        Vec<String>,
        StoreError,
    >)
        requires
            catalog.wf(),
        ensures
            names matches Ok(list) && list.deep_view() == tag_names_of(catalog@, link_id),
    {
        proof {
            catalog.unfold();
        }
        let ghost of_link = |row: LinkTag| row.link_id == link_id;
        let ghost name_of = |row: LinkTag| tag_with_id(catalog@.tags, row.tag_id).name;
        let ghost rows = catalog.links_tags@;
        let mut out: Vec<String> = Vec::new();
        let mut i: usize = 0;
        proof {
            assert(rows.take(0).filter(of_link) =~= Seq::<LinkTag>::empty()) by {
                reveal(Seq::filter);
            }
            assert(out.deep_view() =~= rows.take(0).filter(of_link).map_values(name_of));
        }
        while i < catalog.links_tags.len()
            invariant
                i <= catalog.links_tags.len(),
                catalog.wf(),
                rows == catalog.links_tags@,
                catalog@.links_tags == rows,
                catalog@.tags == catalog.tags.deep_view(),
                of_link == |row: LinkTag| row.link_id == link_id,
                name_of == |row: LinkTag| tag_with_id(catalog@.tags, row.tag_id).name,
                out.deep_view() == rows.take(i as int).filter(of_link).map_values(name_of),
            decreases catalog.links_tags.len() - i,
        {
            let row = catalog.links_tags[i];
            proof {
                assert(rows.take(i + 1) == rows.take(i as int).push(row));
                rows.take(i as int).lemma_filter_push(row, of_link);
            }
            if row.link_id == link_id {
                let ghost before = out.deep_view();
                // A well-formed catalog holds the tag of every association.
                assert(has_tag_id(catalog@.tags, rows[i as int].tag_id));
                if let Some(t) = tag_position_by_id(&catalog.tags, row.tag_id) {
                    proof {
                        lemma_tag_with_id(catalog@.tags, t as int);
                    }
                    out.push(catalog.tags[t].name.clone());
                }
                proof {
                    let seen = rows.take(i as int).filter(of_link);
                    assert(out.deep_view() =~= before.push(name_of(row)));
                    assert(seen.push(row).map_values(name_of) =~= seen.map_values(name_of).push(
                        name_of(row),
                    ));
                }
            }
            i += 1;
        }
        proof {
            assert(rows.take(i as int) == rows);
        }
        Ok(out)
    }

    /// Removes the tag named `name` and every association that names it,
    /// and writes the removal to the trail. Hands back the tag as it was.
    pub fn delete(catalog: &mut Catalog, name: &str) -> (removed: Result<Tag, StoreError>)
        requires
            old(catalog).wf(),
        ensures
            final(catalog).wf(),
            match removed {
                Ok(tag) => {
                    &&& has_tag(old(catalog)@.tags, name@)
                    &&& tag@ == tag_named(old(catalog)@.tags, name@)
                    &&& logged(
                        without_tag_named(old(catalog)@, name@),
                        final(catalog)@,
                        Event::DELETED,
                    )
                },
                Err(e) => {
                    &&& e == StoreError::NotFound
                    &&& !has_tag(old(catalog)@.tags, name@)
                    &&& final(catalog)@ == old(catalog)@
                },
            },
    {
        proof {
            catalog.unfold();
        }
        let at = match tag_position(&catalog.tags, name) {
            Some(at) => at,
            None => {
                return Err(StoreError::NotFound);
            },
        };
        proof {
            lemma_tag_named(catalog@.tags, at as int);
            lemma_without_tag_wf(catalog@, at as int);
        }
        let ghost before = catalog.tags.deep_view();
        let tag = catalog.tags.remove(at);
        let kept = rows_without_tag(&catalog.links_tags, tag.id);
        catalog.links_tags = kept;
        proof {
            catalog.unfold();
            assert(catalog.tags.deep_view() =~= before.remove(at as int));
            assert(catalog@ == without_tag_named(old(catalog)@, name@));
        }
        History::deleted(catalog);
        Ok(tag)
    }

    /// Renames the tag named `name` to `new_name` and writes the change to
    /// the trail; see [`tag_renamed`]. Hands back the tag under its new name
    /// with the number of its associations. A refusal leaves the catalog as
    /// it was.
    pub fn update(catalog: &mut Catalog, name: &str, new_name: &str) -> (renamed: Result<
        TagWithOccurrences,
        StoreError,
    >)
        requires
            old(catalog).wf(),
        ensures
            final(catalog).wf(),
            match renamed {
                Ok(row) => {
                    &&& tag_renamed(old(catalog)@, name@, new_name@) matches Ok(changed)
                    &&& logged(changed, final(catalog)@, Event::UPDATED)
                    &&& row@ == (TagWithOccurrencesView {
                        name: new_name@,
                        occurrences: occurrences(
                            old(catalog)@.links_tags,
                            tag_named(old(catalog)@.tags, name@).id,
                        ) as i64,
                    })
                },
                Err(e) => {
                    &&& tag_renamed(old(catalog)@, name@, new_name@) == Err::<
                        CatalogView,
                        StoreError,
                    >(e)
                    &&& final(catalog)@ == old(catalog)@
                },
            },
    {
        proof {
            catalog.unfold();
            lemma_rows_bounded(catalog@);
        }
        let at = match tag_position(&catalog.tags, name) {
            Some(at) => at,
            None => {
                return Err(StoreError::NotFound);
            },
        };
        if !str_eq(name, new_name) && tag_position(&catalog.tags, new_name).is_some() {
            return Err(StoreError::Conflict);
        }
        proof {
            lemma_tag_named(catalog@.tags, at as int);
            lemma_renamed_wf(catalog@, at as int, new_name@);
        }
        let id = catalog.tags[at].id;
        let count = count_rows(&catalog.links_tags, id);
        let ghost before = catalog.tags.deep_view();
        catalog.tags[at] = Tag { id, name: new_name.to_owned() };
        proof {
            catalog.unfold();
            assert(catalog.tags.deep_view() =~= before.update(
                at as int,
                TagView { id, name: new_name@ },
            ));
            assert(catalog@ == with_tag_renamed(old(catalog)@, name@, new_name@));
        }
        History::updated(catalog);
        Ok(TagWithOccurrences::new(new_name.to_owned(), count))
    }

    /// Removes every tag, and with the tags every association. Hands back
    /// the number of tags removed. Nothing is written to the trail.
    pub fn drop(catalog: &mut Catalog) -> (removed: Result<u64, StoreError>)
        requires
            old(catalog).wf(),
        ensures
            final(catalog).wf(),
            final(catalog)@ == without_tags(old(catalog)@),
            removed == Ok::<u64, StoreError>(old(catalog)@.tags.len() as u64),
    {
        proof {
            catalog.unfold();
        }
        let count = catalog.tags.len() as u64;
        catalog.tags = Vec::new();
        catalog.links_tags = Vec::new();
        proof {
            catalog.unfold();
            assert(catalog.tags.deep_view() =~= Seq::<TagView>::empty());
            assert(catalog.links_tags@ =~= Seq::<LinkTag>::empty());
            assert(well_formed(without_tags(old(catalog)@)));
        }
        Ok(count)
    }

    /// All tags, in the order of their identities.
    pub fn read_all(catalog: &Catalog) -> (all: Result<Vec<Tag>, StoreError>)
        requires
            catalog.wf(),
        ensures
            all matches Ok(tags) && tags.deep_view() == catalog@.tags,
    {
        proof {
            catalog.unfold();
        }
        let mut out: Vec<Tag> = Vec::new();
        let mut i: usize = 0;
        while i < catalog.tags.len()
            invariant
                i <= catalog.tags.len(),
                out.deep_view() == catalog.tags.deep_view().take(i as int),
            decreases catalog.tags.len() - i,
        {
            let ghost before = out.deep_view();
            out.push(catalog.tags[i].clone());
            proof {
                assert(out.deep_view() =~= before.push(catalog.tags.deep_view()[i as int]));
                assert(catalog.tags.deep_view().take(i + 1) =~= catalog.tags.deep_view().take(
                    i as int,
                ).push(catalog.tags.deep_view()[i as int]));
            }
            i += 1;
        }
        proof {
            assert(catalog.tags.deep_view().take(i as int) =~= catalog.tags.deep_view());
        }
        Ok(out)
    }
}

/// A catalog stays well formed when it gets a tag with a name that it does
/// not have yet.
pub proof fn lemma_with_tag_wf(c: CatalogView, name: Seq<char>)
    requires
        well_formed(c),
        !has_tag(c.tags, name),
        c.next_tag_id < i64::MAX,
    ensures
        well_formed(with_tag(c, name)),
{
    let d = with_tag(c, name);
    assert forall|i: int, j: int| 0 <= i < j < d.tags.len() implies (#[trigger] d.tags[i]).name != (
    #[trigger] d.tags[j]).name by {
        if j == c.tags.len() {
            assert(c.tags[i].name != name);
        } else {
            assert(c.tags[i].name != c.tags[j].name);
        }
    }
    assert forall|i: int, j: int| 0 <= i < j < d.tags.len() implies (#[trigger] d.tags[i]).id < (
    #[trigger] d.tags[j]).id by {
        if j == c.tags.len() {
            assert(c.tags[i].id < c.next_tag_id);
        } else {
            assert(c.tags[i].id < c.tags[j].id);
        }
    }
    assert forall|k: int| 0 <= k < d.links_tags.len() implies crate::catalog::has_tag_id(
        d.tags,
        (#[trigger] d.links_tags[k]).tag_id,
    ) by {
        let w = choose|w: int| 0 <= w < c.tags.len() && c.tags[w].id == c.links_tags[k].tag_id;
        assert(d.tags[w].id == c.links_tags[k].tag_id);
    }
}

} // verus!
