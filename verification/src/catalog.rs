//! The catalog: the tables of links, tags, associations and audit entries,
//! with the rules that hold between them.
//!
//! Identities are handed out by counters that never go back, so a row's
//! identity is never used again, and every table is kept in the order of its
//! identities.

use crate::error::StoreError;
use crate::history::History;
use crate::link::{link_position, Link, LinkView};
use crate::link_tag::LinkTag;
use crate::short_url::{encode, numeral};
use crate::tag::{Tag, TagView};
use crate::tag_store::tag_position_by_id;
use crate::text::str_eq;
use vstd::prelude::*;
use vstd::string::*;

verus! {

/// The mathematical content of a [`Catalog`]: its four tables, the seed of
/// its aliases, and the identity that the next row of each table gets.
pub struct CatalogView {
    pub seed: usize,
    pub links: Seq<LinkView>,
    pub tags: Seq<TagView>,
    pub links_tags: Seq<LinkTag>,
    pub history: Seq<History>,
    pub next_link_id: i64,
    pub next_tag_id: i64,
    pub next_link_tag_id: i64,
    pub next_history_id: i64,
}

/// The alias that the link with identity `id` has in a catalog with `seed`.
pub open spec fn link_alias(id: i64, seed: usize) -> Seq<char> {
    numeral((id + seed) as nat)
}

/// Whether `links` holds a link with identity `id`.
pub open spec fn has_link(links: Seq<LinkView>, id: i64) -> bool {
    exists|i: int| 0 <= i < links.len() && links[i].id == id
}

/// Whether `tags` holds a tag with identity `id`.
pub open spec fn has_tag_id(tags: Seq<TagView>, id: i64) -> bool {
    exists|i: int| 0 <= i < tags.len() && tags[i].id == id
}

/// Whether `tags` holds a tag named `name`.
pub open spec fn has_tag(tags: Seq<TagView>, name: Seq<char>) -> bool {
    exists|i: int| 0 <= i < tags.len() && tags[i].name == name
}

/// The rules of the table of links: identities are positive, below the
/// counter and in rising order, and every link carries the alias of its
/// identity.
pub open spec fn links_ok(c: CatalogView) -> bool {
    &&& forall|i: int, j: int|
        0 <= i < j < c.links.len() ==> (#[trigger] c.links[i]).id < (#[trigger] c.links[j]).id
    &&& forall|i: int|
        0 <= i < c.links.len() ==> {
            &&& 0 < (#[trigger] c.links[i]).id < c.next_link_id
            &&& c.links[i].id + c.seed <= usize::MAX
            &&& c.links[i].shorturl == link_alias(c.links[i].id, c.seed)
        }
}

/// The rules of the table of tags: identities are positive, below the
/// counter and in rising order, and no two tags have the same name.
pub open spec fn tags_ok(c: CatalogView) -> bool {
    &&& forall|i: int, j: int|
        0 <= i < j < c.tags.len() ==> (#[trigger] c.tags[i]).id < (#[trigger] c.tags[j]).id
    &&& forall|i: int, j: int|
        0 <= i < j < c.tags.len() ==> (#[trigger] c.tags[i]).name != (#[trigger] c.tags[j]).name
    &&& forall|i: int| 0 <= i < c.tags.len() ==> 0 < (#[trigger] c.tags[i]).id < c.next_tag_id
}

/// The rules of the table of associations: identities are positive, below
/// the counter and in rising order, and every association names a link and a
/// tag that the catalog holds.
pub open spec fn links_tags_ok(c: CatalogView) -> bool {
    &&& forall|i: int, j: int|
        0 <= i < j < c.links_tags.len() ==> (#[trigger] c.links_tags[i]).id < (
        #[trigger] c.links_tags[j]).id
    &&& forall|i: int|
        0 <= i < c.links_tags.len() ==> {
            &&& 0 < (#[trigger] c.links_tags[i]).id < c.next_link_tag_id
            &&& has_link(c.links, c.links_tags[i].link_id)
            &&& has_tag_id(c.tags, c.links_tags[i].tag_id)
        }
}

/// The rules of the audit trail: identities are positive, below the counter
/// and in rising order.
pub open spec fn history_ok(c: CatalogView) -> bool {
    &&& forall|i: int, j: int|
        0 <= i < j < c.history.len() ==> (#[trigger] c.history[i]).id < (
        #[trigger] c.history[j]).id
    &&& forall|i: int|
        0 <= i < c.history.len() ==> 0 < (#[trigger] c.history[i]).id < c.next_history_id
}

/// Whether `c` obeys the rules of every table.
pub open spec fn well_formed(c: CatalogView) -> bool {
    &&& 0 < c.next_link_id
    &&& 0 < c.next_tag_id
    &&& 0 < c.next_link_tag_id
    &&& 0 < c.next_history_id
    &&& links_ok(c)
    &&& tags_ok(c)
    &&& links_tags_ok(c)
    &&& history_ok(c)
}

/// The catalog with no rows, whose first identities are all 1.
pub open spec fn empty_catalog(seed: usize) -> CatalogView {
    CatalogView {
        seed,
        links: Seq::empty(),
        tags: Seq::empty(),
        links_tags: Seq::empty(),
        history: Seq::empty(),
        next_link_id: 1,
        next_tag_id: 1,
        next_link_tag_id: 1,
        next_history_id: 1,
    }
}

/// Positive identities in rising order leave no room below them: the row at
/// position `k` has an identity above `k`.
pub proof fn lemma_rising_ids(rows: Seq<LinkTag>, k: int)
    requires
        forall|i: int, j: int|
            0 <= i < j < rows.len() ==> (#[trigger] rows[i]).id < (#[trigger] rows[j]).id,
        forall|i: int| 0 <= i < rows.len() ==> 0 < (#[trigger] rows[i]).id,
        0 <= k < rows.len(),
    ensures
        rows[k].id > k,
    decreases k,
{
    if k > 0 {
        lemma_rising_ids(rows, k - 1);
        assert(rows[k - 1].id < rows[k].id);
    }
}

/// A well-formed catalog holds fewer associations than there are
/// identities.
pub proof fn lemma_rows_bounded(c: CatalogView)
    requires
        well_formed(c),
    ensures
        c.links_tags.len() < i64::MAX,
{
    if c.links_tags.len() > 0 {
        lemma_rising_ids(c.links_tags, c.links_tags.len() - 1);
    }
}

/// Whether the identities of `rows` rise from each row to the next.
pub open spec fn rising(rows: Seq<LinkTag>) -> bool {
    forall|i: int, j: int|
        0 <= i < j < rows.len() ==> (#[trigger] rows[i]).id < (#[trigger] rows[j]).id
}

/// The rows that a selection keeps are rows of the table, stay in their
/// order, and are the rows that the selection names.
pub proof fn lemma_filter_rows(rows: Seq<LinkTag>, keep: spec_fn(LinkTag) -> bool)
    requires
        rising(rows),
    ensures
        rising(rows.filter(keep)),
        forall|k: int|
            0 <= k < rows.filter(keep).len() ==> rows.contains(#[trigger] rows.filter(keep)[k])
                && keep(rows.filter(keep)[k]),
    decreases rows.len(),
{
    reveal(Seq::filter);
    if rows.len() > 0 {
        let init = rows.drop_last();
        let last = rows.last();
        lemma_filter_rows(init, keep);
        let kept = init.filter(keep);
        let all = rows.filter(keep);
        assert forall|k: int| 0 <= k < kept.len() implies (#[trigger] kept[k]).id < last.id
            && rows.contains(kept[k]) by {
            let w = choose|w: int| 0 <= w < init.len() && init[w] == kept[k];
            assert(rows[w] == kept[k]);
            assert(rows[w].id < rows[rows.len() - 1].id);
        }
        assert forall|k: int| 0 <= k < all.len() implies rows.contains(#[trigger] all[k]) && keep(
            all[k],
        ) by {
            if k < kept.len() {
                assert(all[k] == kept[k]);
            } else {
                assert(all[k] == rows[rows.len() - 1]);
            }
        }
        assert forall|i: int, j: int| 0 <= i < j < all.len() implies (#[trigger] all[i]).id < (
        #[trigger] all[j]).id by {
            if j < kept.len() {
                assert(kept[i].id < kept[j].id);
            } else {
                assert(all[i] == kept[i]);
            }
        }
    }
}

/// A selection that keeps every element keeps the sequence.
pub proof fn lemma_filter_all<T>(s: Seq<T>, keep: spec_fn(T) -> bool)
    requires
        forall|i: int| 0 <= i < s.len() ==> keep(#[trigger] s[i]),
    ensures
        s.filter(keep) == s,
    decreases s.len(),
{
    reveal(Seq::filter);
    if s.len() > 0 {
        assert forall|i: int| 0 <= i < s.drop_last().len() implies keep(
            #[trigger] s.drop_last()[i],
        ) by {
            assert(s.drop_last()[i] == s[i]);
        }
        lemma_filter_all(s.drop_last(), keep);
        assert(keep(s[s.len() - 1]));
        assert(s.drop_last().push(s.last()) =~= s);
    }
}

/// A selection that keeps every element but the one at `at` is the sequence
/// without that element.
pub proof fn lemma_filter_all_but<T>(s: Seq<T>, keep: spec_fn(T) -> bool, at: int)
    requires
        0 <= at < s.len(),
        !keep(s[at]),
        forall|i: int| 0 <= i < s.len() && i != at ==> keep(#[trigger] s[i]),
    ensures
        s.filter(keep) == s.remove(at),
    decreases s.len(),
{
    reveal(Seq::filter);
    let init = s.drop_last();
    if at == s.len() - 1 {
        assert forall|i: int| 0 <= i < init.len() implies keep(#[trigger] init[i]) by {
            assert(init[i] == s[i]);
        }
        lemma_filter_all(init, keep);
        assert(s.remove(at) =~= init);
    } else {
        assert forall|i: int| 0 <= i < init.len() && i != at implies keep(#[trigger] init[i]) by {
            assert(init[i] == s[i]);
        }
        assert(init[at] == s[at]);
        lemma_filter_all_but(init, keep, at);
        assert(keep(s[s.len() - 1]));
        assert(init.remove(at).push(s.last()) =~= s.remove(at));
    }
}

/// The identity that follows `last`, the highest identity in use.
pub open spec fn id_after(last: i64) -> i64 {
    if last < i64::MAX {
        (last + 1) as i64
    } else {
        last
    }
}

/// The catalog that holds the given rows: its counters stand behind the last
/// identity of each table.
pub open spec fn restored(
    seed: usize,
    links: Seq<LinkView>,
    tags: Seq<TagView>,
    links_tags: Seq<LinkTag>,
    history: Seq<History>,
) -> CatalogView {
    CatalogView {
        seed,
        links,
        tags,
        links_tags,
        history,
        next_link_id: if links.len() > 0 {
            id_after(links.last().id)
        } else {
            1
        },
        next_tag_id: if tags.len() > 0 {
            id_after(tags.last().id)
        } else {
            1
        },
        next_link_tag_id: if links_tags.len() > 0 {
            id_after(links_tags.last().id)
        } else {
            1
        },
        next_history_id: if history.len() > 0 {
            id_after(history.last().id)
        } else {
            1
        },
    }
}

/// The catalog.
pub struct Catalog {
    pub(crate) seed: usize,
    pub(crate) links: Vec<Link>,
    pub(crate) tags: Vec<Tag>,
    pub(crate) links_tags: Vec<LinkTag>,
    pub(crate) history: Vec<History>,
    pub(crate) next_link_id: i64,
    pub(crate) next_tag_id: i64,
    pub(crate) next_link_tag_id: i64,
    pub(crate) next_history_id: i64,
}

impl View for Catalog {
    type V = CatalogView;

    closed spec fn view(&self) -> CatalogView {
        CatalogView {
            seed: self.seed,
            links: self.links.deep_view(),
            tags: self.tags.deep_view(),
            links_tags: self.links_tags@,
            history: self.history@,
            next_link_id: self.next_link_id,
            next_tag_id: self.next_tag_id,
            next_link_tag_id: self.next_link_tag_id,
            next_history_id: self.next_history_id,
        }
    }
}

impl Catalog {
    /// Whether the catalog obeys its rules. Every catalog that this library
    /// hands out does, and every operation keeps it so.
    pub open spec fn wf(&self) -> bool {
        well_formed(self@)
    }

    /// What the view consists of, for the modules of this library that work
    /// on the tables.
    pub(crate) proof fn unfold(&self)
        ensures
            self@ == (CatalogView {
                seed: self.seed,
                links: self.links.deep_view(),
                tags: self.tags.deep_view(),
                links_tags: self.links_tags@,
                history: self.history@,
                next_link_id: self.next_link_id,
                next_tag_id: self.next_tag_id,
                next_link_tag_id: self.next_link_tag_id,
                next_history_id: self.next_history_id,
            }),
    {
    }

    /// An empty catalog whose aliases are made with `seed`.
    pub fn new(seed: usize) -> (catalog: Catalog)
        ensures
            catalog@ == empty_catalog(seed),
            catalog.wf(),
    {
        let catalog = Catalog {
            seed,
            links: Vec::new(),
            tags: Vec::new(),
            links_tags: Vec::new(),
            history: Vec::new(),
            next_link_id: 1,
            next_tag_id: 1,
            next_link_tag_id: 1,
            next_history_id: 1,
        };
        assert(catalog.links.deep_view() =~= Seq::empty());
        assert(catalog.tags.deep_view() =~= Seq::empty());
        catalog
    }

    /// Puts a catalog together from rows that were stored elsewhere; see
    /// [`restored`]. The rows have to obey the rules of the catalog: each
    /// table in the rising order of its identities, every alias the alias of
    /// its link under `seed`, no two tags of one name, and every association
    /// between a link and a tag that are there. Rows that do not are
    /// refused.
    pub fn restore(
        seed: usize,
        links: Vec<Link>,
        tags: Vec<Tag>,
        links_tags: Vec<LinkTag>,
        history: Vec<History>,
    ) -> (catalog: Result<Catalog, StoreError>)
        ensures
            match catalog {
                Ok(catalog) => catalog.wf() && catalog@ == restored(
                    seed,
                    links.deep_view(),
                    tags.deep_view(),
                    links_tags@,
                    history@,
                ),
                Err(e) => e == StoreError::Validation && !well_formed(
                    restored(seed, links.deep_view(), tags.deep_view(), links_tags@, history@),
                ),
            },
    {
        let ghost c = restored(seed, links.deep_view(), tags.deep_view(), links_tags@, history@);
        if !links_in_order(&links, seed) || !tags_in_order(&tags) || !history_in_order(&history) {
            return Err(StoreError::Validation);
        }
        let mut k: usize = 0;
        let mut last: i64 = 0;
        while k < links_tags.len()
            invariant
                k <= links_tags.len(),
                0 <= last < i64::MAX,
                k == 0 ==> last == 0,
                k > 0 ==> last == links_tags@[k - 1].id,
                forall|i: int, j: int|
                    0 <= i < j < k ==> (#[trigger] links_tags@[i]).id < (
                    #[trigger] links_tags@[j]).id,
                forall|i: int|
                    0 <= i < k ==> {
                        &&& 0 < (#[trigger] links_tags@[i]).id < i64::MAX
                        &&& has_link(links.deep_view(), links_tags@[i].link_id)
                        &&& has_tag_id(tags.deep_view(), links_tags@[i].tag_id)
                    },
                c == restored(seed, links.deep_view(), tags.deep_view(), links_tags@, history@),
            decreases links_tags.len() - k,
        {
            let row = links_tags[k];
            if row.id <= last || row.id == i64::MAX || link_position(&links, row.link_id).is_none()
                || tag_position_by_id(&tags, row.tag_id).is_none() {
                proof {
                    let n = links_tags.len() as int;
                    if well_formed(c) {
                        assert(0 < c.links_tags[k as int].id < c.next_link_tag_id);
                        if k > 0 {
                            assert(c.links_tags[k - 1].id < c.links_tags[k as int].id);
                        }
                        if k < n - 1 {
                            assert(c.links_tags[k as int].id < c.links_tags[n - 1].id);
                        }
                    }
                }
                return Err(StoreError::Validation);
            }
            last = row.id;
            k += 1;
        }
        let next_link_id = if links.len() > 0 {
            links[links.len() - 1].id + 1
        } else {
            1
        };
        let next_tag_id = if tags.len() > 0 {
            tags[tags.len() - 1].id + 1
        } else {
            1
        };
        let next_link_tag_id = if links_tags.len() > 0 {
            links_tags[links_tags.len() - 1].id + 1
        } else {
            1
        };
        let next_history_id = if history.len() > 0 {
            history[history.len() - 1].id + 1
        } else {
            1
        };
        let catalog = Catalog {
            seed,
            links,
            tags,
            links_tags,
            history,
            next_link_id,
            next_tag_id,
            next_link_tag_id,
            next_history_id,
        };
        proof {
            assert(catalog@ == c);
            let n = c.links.len() as int;
            assert forall|i: int| 0 <= i < n implies (#[trigger] c.links[i]).id
                < c.next_link_id by {
                if i < n - 1 {
                    assert(c.links[i].id < c.links[n - 1].id);
                }
            }
            let m = c.tags.len() as int;
            assert forall|i: int| 0 <= i < m implies (#[trigger] c.tags[i]).id < c.next_tag_id by {
                if i < m - 1 {
                    assert(c.tags[i].id < c.tags[m - 1].id);
                }
            }
            let r = c.links_tags.len() as int;
            assert forall|i: int| 0 <= i < r implies (#[trigger] c.links_tags[i]).id
                < c.next_link_tag_id by {
                if i < r - 1 {
                    assert(c.links_tags[i].id < c.links_tags[r - 1].id);
                }
            }
            let h = c.history.len() as int;
            assert forall|i: int| 0 <= i < h implies (#[trigger] c.history[i]).id
                < c.next_history_id by {
                if i < h - 1 {
                    assert(c.history[i].id < c.history[h - 1].id);
                }
            }
        }
        Ok(catalog)
    }

    /// The seed that this catalog makes its aliases with.
    pub fn seed(&self) -> (seed: usize)
        ensures
            seed == self@.seed,
    {
        self.seed
    }
}

/// Whether the rows of a table of links can stand in a catalog with
/// `seed`: positive identities below the last one there is, in rising order,
/// each with an alias that fits the machine word and is the link's own.
pub open spec fn links_orderly(links: Seq<LinkView>, seed: usize) -> bool {
    &&& forall|i: int, j: int|
        0 <= i < j < links.len() ==> (#[trigger] links[i]).id < (#[trigger] links[j]).id
    &&& forall|i: int|
        0 <= i < links.len() ==> {
            &&& 0 < (#[trigger] links[i]).id < i64::MAX
            &&& links[i].id + seed <= usize::MAX
            &&& links[i].shorturl == link_alias(links[i].id, seed)
        }
}

/// Whether the rows of a table of tags can stand in a catalog: positive
/// identities below the last one there is, in rising order, and no name
/// twice.
pub open spec fn tags_orderly(tags: Seq<TagView>) -> bool {
    &&& forall|i: int, j: int|
        0 <= i < j < tags.len() ==> (#[trigger] tags[i]).id < (#[trigger] tags[j]).id
    &&& forall|i: int, j: int|
        0 <= i < j < tags.len() ==> (#[trigger] tags[i]).name != (#[trigger] tags[j]).name
    &&& forall|i: int| 0 <= i < tags.len() ==> 0 < (#[trigger] tags[i]).id < i64::MAX
}

/// Whether the entries of a trail can stand in a catalog: positive
/// identities below the last one there is, in rising order.
pub open spec fn history_orderly(history: Seq<History>) -> bool {
    &&& forall|i: int, j: int|
        0 <= i < j < history.len() ==> (#[trigger] history[i]).id < (#[trigger] history[j]).id
    &&& forall|i: int| 0 <= i < history.len() ==> 0 < (#[trigger] history[i]).id < i64::MAX
}

/// Checks a table of links; see [`links_orderly`]. A table that fails cannot
/// stand in any well-formed catalog with this seed.
fn links_in_order(links: &Vec<Link>, seed: usize) -> (ok: bool)
    ensures
        ok == links_orderly(links.deep_view(), seed),
        !ok ==> forall|c: CatalogView|
            c.links == links.deep_view() && c.seed == seed ==> !#[trigger] well_formed(c),
{
    let ghost all = links.deep_view();
    let mut i: usize = 0;
    let mut last: i64 = 0;
    while i < links.len()
        invariant
            i <= links.len(),
            all == links.deep_view(),
            0 <= last < i64::MAX,
            i == 0 ==> last == 0,
            i > 0 ==> last == all[i - 1].id,
            links_orderly(all.take(i as int), seed),
        decreases links.len() - i,
    {
        let id = links[i].id;
        let fits = id > last && id < i64::MAX && id as u64 <= (usize::MAX - seed) as u64;
        let aliased = fits && str_eq(links[i].shorturl.as_str(), encode(id as usize, seed).as_str());
        if !aliased {
            proof {
                assert(!links_orderly(all, seed)) by {
                    if links_orderly(all, seed) {
                        assert(0 < all[i as int].id < i64::MAX);
                        if i > 0 {
                            assert(all[i - 1].id < all[i as int].id);
                        }
                    }
                }
                assert forall|c: CatalogView|
                    c.links == all && c.seed == seed implies !#[trigger] well_formed(c) by {
                    if well_formed(c) {
                        assert(0 < c.links[i as int].id < c.next_link_id);
                        if i > 0 {
                            assert(c.links[i - 1].id < c.links[i as int].id);
                        }
                    }
                }
            }
            return false;
        }
        proof {
            let next = all.take(i + 1);
            assert forall|a: int, b: int| 0 <= a < b < next.len() implies (#[trigger] next[a]).id < (
            #[trigger] next[b]).id by {
                if b < i {
                    assert(all.take(i as int)[a].id < all.take(i as int)[b].id);
                } else if a < i {
                    assert(all.take(i as int)[a].id <= all.take(i as int)[i - 1].id) by {
                        if a < i - 1 {
                            assert(all.take(i as int)[a].id < all.take(i as int)[i - 1].id);
                        }
                    }
                }
            }
            assert forall|a: int| 0 <= a < next.len() implies {
                &&& 0 < (#[trigger] next[a]).id < i64::MAX
                &&& next[a].id + seed <= usize::MAX
                &&& next[a].shorturl == link_alias(next[a].id, seed)
            } by {
                if a < i {
                    assert(0 < all.take(i as int)[a].id);
                }
            }
        }
        last = id;
        i += 1;
    }
    proof {
        assert(all.take(i as int) == all);
    }
    true
}

/// Checks a table of tags; see [`tags_orderly`]. A table that fails cannot
/// stand in any well-formed catalog.
fn tags_in_order(tags: &Vec<Tag>) -> (ok: bool)
    ensures
        ok == tags_orderly(tags.deep_view()),
        !ok ==> forall|c: CatalogView| c.tags == tags.deep_view() ==> !#[trigger] well_formed(c),
{
    let ghost all = tags.deep_view();
    let mut i: usize = 0;
    let mut last: i64 = 0;
    while i < tags.len()
        invariant
            i <= tags.len(),
            all == tags.deep_view(),
            0 <= last < i64::MAX,
            i == 0 ==> last == 0,
            i > 0 ==> last == all[i - 1].id,
            tags_orderly(all.take(i as int)),
        decreases tags.len() - i,
    {
        let id = tags[i].id;
        let mut fresh = id > last && id < i64::MAX;
        let mut j: usize = 0;
        while fresh && j < i
            invariant
                j <= i < tags.len(),
                all == tags.deep_view(),
                fresh ==> id > last && id < i64::MAX,
                fresh ==> forall|a: int| 0 <= a < j ==> (#[trigger] all[a]).name != all[i as int].name,
                !fresh ==> !(id > last && id < i64::MAX) || exists|a: int|
                    0 <= a < i && (#[trigger] all[a]).name == all[i as int].name,
            decreases i - j + if fresh {
                1int
            } else {
                0int
            },
        {
            if str_eq(tags[j].name.as_str(), tags[i].name.as_str()) {
                assert(all[j as int].name == all[i as int].name);
                fresh = false;
            } else {
                j += 1;
            }
        }
        if !fresh {
            proof {
                assert(!tags_orderly(all)) by {
                    if tags_orderly(all) {
                        assert(0 < all[i as int].id < i64::MAX);
                        if i > 0 {
                            assert(all[i - 1].id < all[i as int].id);
                        }
                        if id > last && id < i64::MAX {
                            let a = choose|a: int|
                                0 <= a < i && (#[trigger] all[a]).name == all[i as int].name;
                            assert(all[a].name != all[i as int].name);
                        }
                    }
                }
                assert forall|c: CatalogView| c.tags == all implies !#[trigger] well_formed(c) by {
                    if well_formed(c) {
                        assert(0 < c.tags[i as int].id < c.next_tag_id);
                        if i > 0 {
                            assert(c.tags[i - 1].id < c.tags[i as int].id);
                        }
                        if id > last && id < i64::MAX {
                            let a = choose|a: int|
                                0 <= a < i && (#[trigger] all[a]).name == all[i as int].name;
                            assert(c.tags[a].name != c.tags[i as int].name);
                        }
                    }
                }
            }
            return false;
        }
        proof {
            let next = all.take(i + 1);
            let seen = all.take(i as int);
            assert forall|a: int, b: int| 0 <= a < b < next.len() implies (#[trigger] next[a]).id < (
            #[trigger] next[b]).id && next[a].name != next[b].name by {
                if b < i {
                    assert(seen[a].id < seen[b].id);
                    assert(seen[a].name != seen[b].name);
                } else {
                    assert(all[a].name != all[i as int].name);
                    assert(seen[a].id <= seen[i - 1].id) by {
                        if a < i - 1 {
                            assert(seen[a].id < seen[i - 1].id);
                        }
                    }
                }
            }
            assert forall|a: int| 0 <= a < next.len() implies 0 < (#[trigger] next[a]).id
                < i64::MAX by {
                if a < i {
                    assert(0 < seen[a].id);
                }
            }
        }
        last = id;
        i += 1;
    }
    proof {
        assert(all.take(i as int) == all);
    }
    true
}

/// Checks the entries of a trail; see [`history_orderly`]. A trail that
/// fails cannot stand in any well-formed catalog.
fn history_in_order(history: &Vec<History>) -> (ok: bool)
    ensures
        ok == history_orderly(history@),
        !ok ==> forall|c: CatalogView| c.history == history@ ==> !#[trigger] well_formed(c),
{
    let ghost all = history@;
    let mut i: usize = 0;
    let mut last: i64 = 0;
    while i < history.len()
        invariant
            i <= history.len(),
            all == history@,
            0 <= last < i64::MAX,
            i == 0 ==> last == 0,
            i > 0 ==> last == all[i - 1].id,
            history_orderly(all.take(i as int)),
        decreases history.len() - i,
    {
        let id = history[i].id;
        if id <= last || id == i64::MAX {
            proof {
                assert(!history_orderly(all)) by {
                    if history_orderly(all) {
                        assert(0 < all[i as int].id < i64::MAX);
                        if i > 0 {
                            assert(all[i - 1].id < all[i as int].id);
                        }
                    }
                }
                assert forall|c: CatalogView| c.history == all implies !#[trigger] well_formed(
                    c,
                ) by {
                    if well_formed(c) {
                        assert(0 < c.history[i as int].id < c.next_history_id);
                        if i > 0 {
                            assert(c.history[i - 1].id < c.history[i as int].id);
                        }
                    }
                }
            }
            return false;
        }
        proof {
            let next = all.take(i + 1);
            let seen = all.take(i as int);
            assert forall|a: int, b: int| 0 <= a < b < next.len() implies (#[trigger] next[a]).id < (
            #[trigger] next[b]).id by {
                if b < i {
                    assert(seen[a].id < seen[b].id);
                } else {
                    assert(seen[a].id <= seen[i - 1].id) by {
                        if a < i - 1 {
                            assert(seen[a].id < seen[i - 1].id);
                        }
                    }
                }
            }
            assert forall|a: int| 0 <= a < next.len() implies 0 < (#[trigger] next[a]).id
                < i64::MAX by {
                if a < i {
                    assert(0 < seen[a].id);
                }
            }
        }
        last = id;
        i += 1;
    }
    proof {
        assert(all.take(i as int) == all);
    }
    true
}

} // verus!
