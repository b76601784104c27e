//! Associations between links and tags.

use crate::catalog::{has_link, has_tag_id, Catalog, CatalogView};
use crate::error::StoreError;
use crate::link::link_position;
use crate::tag_store::tag_position_by_id;
use vstd::prelude::*;

verus! {

/// One association: the link `link_id` is filed under the tag `tag_id`.
#[derive(Debug, Clone, Copy, PartialEq, Eq, Structural)]
pub struct LinkTag {
    pub id: i64,
    pub link_id: i64,
    pub tag_id: i64,
}

/// The associations of `rows` that do not name the link `link_id`.
pub open spec fn without_link(rows: Seq<LinkTag>, link_id: i64) -> Seq<LinkTag> {
    rows.filter(|row: LinkTag| row.link_id != link_id)
}

/// The associations of `rows` that do not name the tag `tag_id`.
pub open spec fn without_tag(rows: Seq<LinkTag>, tag_id: i64) -> Seq<LinkTag> {
    rows.filter(|row: LinkTag| row.tag_id != tag_id)
}

/// The associations of `rows` that name the link `link_id`.
pub open spec fn rows_of_link(rows: Seq<LinkTag>, link_id: i64) -> Seq<LinkTag> {
    rows.filter(|row: LinkTag| row.link_id == link_id)
}

/// Whether some association of `rows` names the link `link_id` and the tag
/// `tag_id`.
pub open spec fn associated(rows: Seq<LinkTag>, link_id: i64, tag_id: i64) -> bool {
    exists|k: int| 0 <= k < rows.len() && rows[k].link_id == link_id && rows[k].tag_id == tag_id
}

/// Whether `rows` holds an association with identity `id`.
pub open spec fn has_row(rows: Seq<LinkTag>, id: i64) -> bool {
    exists|k: int| 0 <= k < rows.len() && rows[k].id == id
}

/// The association of `rows` with identity `id`, where there is one.
pub open spec fn row_with_id(rows: Seq<LinkTag>, id: i64) -> LinkTag {
    rows[choose|k: int| 0 <= k < rows.len() && rows[k].id == id]
}

/// What filing the link `link_id` under the tag `tag_id` comes to: the
/// catalog with one more association, and the association. The link and the
/// tag have to be there. A pair that is associated already gets a second
/// association.
pub open spec fn association_made(c: CatalogView, link_id: i64, tag_id: i64) -> Result<
    (CatalogView, LinkTag),
    StoreError,
> {
    if !has_link(c.links, link_id) || !has_tag_id(c.tags, tag_id) {
        Err(StoreError::NotFound)
    } else if c.next_link_tag_id == i64::MAX {
        Err(StoreError::Full)
    } else {
        let row = LinkTag { id: c.next_link_tag_id, link_id, tag_id };
        Ok(
            (
                CatalogView {
                    links_tags: c.links_tags.push(row),
                    next_link_tag_id: (c.next_link_tag_id + 1) as i64,
                    ..c
                },
                row,
            ),
        )
    }
}

/// What pointing the association `id` at the link `link_id` and the tag
/// `tag_id` comes to. The association, the link and the tag have to be
/// there.
pub open spec fn association_changed(c: CatalogView, id: i64, link_id: i64, tag_id: i64) -> Result<
    (CatalogView, LinkTag),
    StoreError,
> {
    if !has_row(c.links_tags, id) || !has_link(c.links, link_id) || !has_tag_id(c.tags, tag_id) {
        Err(StoreError::NotFound)
    } else {
        let row = LinkTag { id, link_id, tag_id };
        Ok(
            (
                CatalogView {
                    links_tags: c.links_tags.map_values(
                        |old: LinkTag|
                            if old.id == id {
                                row
                            } else {
                                old
                            },
                    ),
                    ..c
                },
                row,
            ),
        )
    }
}

/// What removing the association `id` comes to.
pub open spec fn association_removed(c: CatalogView, id: i64) -> Result<
    (CatalogView, LinkTag),
    StoreError,
> {
    if !has_row(c.links_tags, id) {
        Err(StoreError::NotFound)
    } else {
        Ok(
            (
                CatalogView { links_tags: c.links_tags.filter(|row: LinkTag| row.id != id), ..c },
                row_with_id(c.links_tags, id),
            ),
        )
    }
}

/// In a table with different identities, the association at a position is
/// the association of its identity, and the only one.
pub proof fn lemma_row_with_id(rows: Seq<LinkTag>, at: int)
    requires
        0 <= at < rows.len(),
        crate::catalog::rising(rows),
    ensures
        has_row(rows, rows[at].id),
        row_with_id(rows, rows[at].id) == rows[at],
        forall|k: int| 0 <= k < rows.len() && k != at ==> (#[trigger] rows[k]).id != rows[at].id,
{
    let id = rows[at].id;
    let k = choose|k: int| 0 <= k < rows.len() && rows[k].id == id;
    if k < at {
        assert(rows[k].id < rows[at].id);
    } else if at < k {
        assert(rows[at].id < rows[k].id);
    }
    assert forall|k: int| 0 <= k < rows.len() && k != at implies (#[trigger] rows[k]).id
        != rows[at].id by {
        if k < at {
            assert(rows[k].id < rows[at].id);
        } else {
            assert(rows[at].id < rows[k].id);
        }
    }
}

/// The position of the association with identity `id`.
fn row_position(rows: &Vec<LinkTag>, id: i64) -> (found: Option<usize>)
    ensures
        match found {
            Some(k) => k < rows.len() && rows@[k as int].id == id,
            None => !has_row(rows@, id),
        },
{
    let mut k: usize = 0;
    while k < rows.len()
        invariant
            k <= rows.len(),
            forall|j: int| 0 <= j < k ==> (#[trigger] rows@[j]).id != id,
        decreases rows.len() - k,
    {
        if rows[k].id == id {
            return Some(k);
        }
        k += 1;
    }
    None
}

impl LinkTag {
    /// Files the link `link_id` under the tag `tag_id`; see
    /// [`association_made`]. A refusal leaves the catalog as it was.
    pub fn create(catalog: &mut Catalog, link_id: i64, tag_id: i64) -> (made: Result<
        LinkTag,
        StoreError,
    >)
        requires
            old(catalog).wf(),
        ensures
            final(catalog).wf(),
            match made {
                Ok(row) => association_made(old(catalog)@, link_id, tag_id) == Ok::<
                    (CatalogView, LinkTag),
                    StoreError,
                >((final(catalog)@, row)),
                Err(e) => association_made(old(catalog)@, link_id, tag_id) == Err::<
                    (CatalogView, LinkTag),
                    StoreError,
                >(e) && final(catalog)@ == old(catalog)@,
            },
    {
        proof {
            catalog.unfold();
        }
        if link_position(&catalog.links, link_id).is_none() || tag_position_by_id(
            &catalog.tags,
            tag_id,
        ).is_none() {
            return Err(StoreError::NotFound);
        }
        if catalog.next_link_tag_id == i64::MAX {
            return Err(StoreError::Full);
        }
        let row = LinkTag { id: catalog.next_link_tag_id, link_id, tag_id };
        catalog.links_tags.push(row);
        catalog.next_link_tag_id = catalog.next_link_tag_id + 1;
        proof {
            catalog.unfold();
            let c = old(catalog)@;
            let d = catalog@;
            assert forall|i: int, j: int| 0 <= i < j < d.links_tags.len() implies (
            #[trigger] d.links_tags[i]).id < (#[trigger] d.links_tags[j]).id by {
                if j == c.links_tags.len() {
                    assert(c.links_tags[i].id < c.next_link_tag_id);
                } else {
                    assert(c.links_tags[i].id < c.links_tags[j].id);
                }
            }
        }
        Ok(row)
    }

    /// Looks the association `id` up.
    pub fn read(catalog: &Catalog, id: i64) -> (found: Result<LinkTag, StoreError>)
        requires
            catalog.wf(),
        ensures
            match found {
                Ok(row) => has_row(catalog@.links_tags, id) && row == row_with_id(
                    catalog@.links_tags,
                    id,
                ),
                Err(e) => e == StoreError::NotFound && !has_row(catalog@.links_tags, id),
            },
    {
        proof {
            catalog.unfold();
        }
        match row_position(&catalog.links_tags, id) {
            Some(k) => {
                proof {
                    lemma_row_with_id(catalog@.links_tags, k as int);
                }
                Ok(catalog.links_tags[k])
            },
            None => Err(StoreError::NotFound),
        }
    }

    /// All associations, in the order of their identities.
    pub fn read_all(catalog: &Catalog) -> (all: Result<Vec<LinkTag>, StoreError>)
        requires
            catalog.wf(),
        ensures
            all matches Ok(rows) && rows@ == catalog@.links_tags,
    {
        proof {
            catalog.unfold();
        }
        let mut out: Vec<LinkTag> = Vec::new();
        let mut k: usize = 0;
        while k < catalog.links_tags.len()
            invariant
                k <= catalog.links_tags.len(),
                out@ == catalog.links_tags@.take(k as int),
            decreases catalog.links_tags.len() - k,
        {
            out.push(catalog.links_tags[k]);
            proof {
                assert(catalog.links_tags@.take(k + 1) == catalog.links_tags@.take(k as int).push(
                    catalog.links_tags@[k as int],
                ));
            }
            k += 1;
        }
        proof {
            assert(catalog.links_tags@.take(k as int) == catalog.links_tags@);
        }
        Ok(out)
    }

    /// Points the association `id` at the link `link_id` and the tag
    /// `tag_id`; see [`association_changed`]. A refusal leaves the catalog
    /// as it was.
    pub fn update(catalog: &mut Catalog, id: i64, link_id: i64, tag_id: i64) -> (changed: Result<
        LinkTag,
        StoreError,
    >)
        requires
            old(catalog).wf(),
        ensures
            final(catalog).wf(),
            match changed {
                Ok(row) => association_changed(old(catalog)@, id, link_id, tag_id) == Ok::<
                    (CatalogView, LinkTag),
                    StoreError,
                >((final(catalog)@, row)),
                Err(e) => association_changed(old(catalog)@, id, link_id, tag_id) == Err::<
                    (CatalogView, LinkTag),
                    StoreError,
                >(e) && final(catalog)@ == old(catalog)@,
            },
    {
        proof {
            catalog.unfold();
        }
        let at = match row_position(&catalog.links_tags, id) {
            Some(at) => at,
            None => {
                return Err(StoreError::NotFound);
            },
        };
        if link_position(&catalog.links, link_id).is_none() || tag_position_by_id(
            &catalog.tags,
            tag_id,
        ).is_none() {
            return Err(StoreError::NotFound);
        }
        let row = LinkTag { id, link_id, tag_id };
        catalog.links_tags[at] = row;
        proof {
            catalog.unfold();
            let c = old(catalog)@;
            let d = catalog@;
            lemma_row_with_id(c.links_tags, at as int);
            assert(d.links_tags =~= c.links_tags.map_values(
                |old: LinkTag|
                    if old.id == id {
                        row
                    } else {
                        old
                    },
            ));
            assert forall|i: int, j: int| 0 <= i < j < d.links_tags.len() implies (
            #[trigger] d.links_tags[i]).id < (#[trigger] d.links_tags[j]).id by {
                assert(c.links_tags[i].id < c.links_tags[j].id);
            }
            assert forall|k: int| 0 <= k < d.links_tags.len() implies {
                &&& 0 < (#[trigger] d.links_tags[k]).id < d.next_link_tag_id
                &&& has_link(d.links, d.links_tags[k].link_id)
                &&& has_tag_id(d.tags, d.links_tags[k].tag_id)
            } by {
                assert(0 < c.links_tags[k].id < c.next_link_tag_id);
            }
        }
        Ok(row)
    }

    /// Removes the association `id` and hands it back.
    pub fn delete(catalog: &mut Catalog, id: i64) -> (removed: Result<LinkTag, StoreError>)
        requires
            old(catalog).wf(),
        ensures
            final(catalog).wf(),
            match removed {
                Ok(row) => association_removed(old(catalog)@, id) == Ok::<
                    (CatalogView, LinkTag),
                    StoreError,
                >((final(catalog)@, row)),
                Err(e) => association_removed(old(catalog)@, id) == Err::<
                    (CatalogView, LinkTag),
                    StoreError,
                >(e) && final(catalog)@ == old(catalog)@,
            },
    {
        proof {
            catalog.unfold();
        }
        let at = match row_position(&catalog.links_tags, id) {
            Some(at) => at,
            None => {
                return Err(StoreError::NotFound);
            },
        };
        let row = catalog.links_tags.remove(at);
        proof {
            catalog.unfold();
            let c = old(catalog)@;
            let d = catalog@;
            let keep = |row: LinkTag| row.id != id;
            lemma_row_with_id(c.links_tags, at as int);
            crate::catalog::lemma_filter_all_but(c.links_tags, keep, at as int);
            crate::catalog::lemma_filter_rows(c.links_tags, keep);
            assert forall|k: int| 0 <= k < d.links_tags.len() implies {
                &&& 0 < (#[trigger] d.links_tags[k]).id < d.next_link_tag_id
                &&& has_link(d.links, d.links_tags[k].link_id)
                &&& has_tag_id(d.tags, d.links_tags[k].tag_id)
            } by {
                let w = choose|w: int|
                    0 <= w < c.links_tags.len() && c.links_tags[w] == d.links_tags[k];
                assert(c.links_tags[w] == d.links_tags[k]);
            }
        }
        Ok(row)
    }

    /// Removes every association and hands back their number.
    pub fn drop(catalog: &mut Catalog) -> (removed: Result<u64, StoreError>)
        requires
            old(catalog).wf(),
        ensures
            final(catalog).wf(),
            final(catalog)@ == (CatalogView { links_tags: Seq::empty(), ..old(catalog)@ }),
            removed == Ok::<u64, StoreError>(old(catalog)@.links_tags.len() as u64),
    {
        proof {
            catalog.unfold();
        }
        let count = catalog.links_tags.len() as u64;
        catalog.links_tags = Vec::new();
        proof {
            catalog.unfold();
            assert(catalog.links_tags@ =~= Seq::<LinkTag>::empty());
        }
        Ok(count)
    }
}

/// Copies the associations that do not name the link `link_id`.
pub(crate) fn rows_without_link(rows: &Vec<LinkTag>, link_id: i64) -> (kept: Vec<LinkTag>)
    ensures
        kept@ == without_link(rows@, link_id),
{
    let ghost keep = |row: LinkTag| row.link_id != link_id;
    let mut kept: Vec<LinkTag> = Vec::new();
    let mut i: usize = 0;
    proof {
        assert(rows@.take(0).filter(keep) =~= Seq::<LinkTag>::empty()) by {
            reveal(Seq::filter);
        }
    }
    while i < rows.len()
        invariant
            i <= rows.len(),
            keep == |row: LinkTag| row.link_id != link_id,
            kept@ == rows@.take(i as int).filter(keep),
        decreases rows.len() - i,
    {
        proof {
            assert(rows@.take(i + 1) == rows@.take(i as int).push(rows@[i as int]));
            rows@.take(i as int).lemma_filter_push(rows@[i as int], keep);
        }
        if rows[i].link_id != link_id {
            kept.push(rows[i]);
        }
        i += 1;
    }
    proof {
        assert(rows@.take(i as int) == rows@);
    }
    kept
}

/// Copies the associations that do not name the tag `tag_id`.
pub(crate) fn rows_without_tag(rows: &Vec<LinkTag>, tag_id: i64) -> (kept: Vec<LinkTag>)
    ensures
        kept@ == without_tag(rows@, tag_id),
{
    let ghost keep = |row: LinkTag| row.tag_id != tag_id;
    let mut kept: Vec<LinkTag> = Vec::new();
    let mut i: usize = 0;
    proof {
        assert(rows@.take(0).filter(keep) =~= Seq::<LinkTag>::empty()) by {
            reveal(Seq::filter);
        }
    }
    while i < rows.len()
        invariant
            i <= rows.len(),
            keep == |row: LinkTag| row.tag_id != tag_id,
            kept@ == rows@.take(i as int).filter(keep),
        decreases rows.len() - i,
    {
        proof {
            assert(rows@.take(i + 1) == rows@.take(i as int).push(rows@[i as int]));
            rows@.take(i as int).lemma_filter_push(rows@[i as int], keep);
        }
        if rows[i].tag_id != tag_id {
            kept.push(rows[i]);
        }
        i += 1;
    }
    proof {
        assert(rows@.take(i as int) == rows@);
    }
    kept
}

} // verus!
