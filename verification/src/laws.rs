//! What holds of the catalog whatever is done with it: laws that relate
//! several operations, stated over the same functions as the operations'
//! own contracts.

use crate::catalog::{has_link, has_tag, well_formed, CatalogView};
use crate::error::StoreError;
use crate::link::LinkView;
use crate::link::Draft;
use crate::link_store::{
    filed, filed_under, lemma_filed, link_of, links_found, links_selected, room_for_link,
    room_for_tags, with_link, without_link_id, LINKS_PAGE,
};
use crate::link_tag::{associated, without_link, LinkTag};
use crate::search::{
    filter_of, page_of, requested_page, selects, tags_match, term_matches, Page, Visibility,
};
use crate::short_url::{
    decoded, lemma_numeral_injective, lemma_numeral_value, InvalidAliasError,
};
use crate::tag::TagView;
use crate::tag_store::{
    lemma_tag_named, lemma_with_tag_wf, occurrences, tag_ensured, tag_named, tag_names_of,
    with_tag,
};
use crate::text::parsed_decimal;
use vstd::prelude::*;

verus! {

/// Asking for a tag twice gives one tag: the second request finds the tag
/// that the first one handed back and leaves the catalog as the first one
/// left it, and the catalog then holds that tag and no other tag of its
/// name.
pub proof fn lemma_get_or_insert_twice(c: CatalogView, name: Seq<char>)
    requires
        well_formed(c),
        tag_ensured(c, name) is Ok,
    ensures
        ({
            let (after, tag) = tag_ensured(c, name)->Ok_0;
            &&& well_formed(after)
            &&& tag_ensured(after, name) == Ok::<(CatalogView, TagView), StoreError>((after, tag))
            &&& tag.name == name
            &&& exists|i: int|
                0 <= i < after.tags.len() && #[trigger] after.tags[i] == tag && forall|j: int|
                    0 <= j < after.tags.len() && j != i ==> (#[trigger] after.tags[j]).name != name
        }),
{
    let (after, tag) = tag_ensured(c, name)->Ok_0;
    if !has_tag(c.tags, name) {
        lemma_with_tag_wf(c, name);
        lemma_tag_named(after.tags, c.tags.len() as int);
    }
    let i = choose|i: int| 0 <= i < after.tags.len() && after.tags[i].name == name;
    lemma_tag_named(after.tags, i);
    assert(after.tags[i] == tag);
    assert forall|j: int| 0 <= j < after.tags.len() && j != i implies (
    #[trigger] after.tags[j]).name != name by {
        if j < i {
            assert(after.tags[j].name != after.tags[i].name);
        } else {
            assert(after.tags[i].name != after.tags[j].name);
        }
    }
}

/// Asking for a tag never meets a conflict: it fails only where the name is
/// new and the catalog has no identity left for a tag.
pub proof fn lemma_get_or_insert_no_conflict(c: CatalogView, name: Seq<char>)
    ensures
        tag_ensured(c, name) is Err <==> !has_tag(c.tags, name) && c.next_tag_id == i64::MAX,
        tag_ensured(c, name) matches Err(e) ==> e == StoreError::Full,
{
}

/// Every link of a catalog has an alias that is not empty, that decodes to
/// the link's identity under the catalog's seed, and that no other link of
/// the catalog has.
pub proof fn lemma_aliases_of_links(c: CatalogView, i: int, j: int)
    requires
        well_formed(c),
        0 <= i < c.links.len(),
        0 <= j < c.links.len(),
        i != j,
    ensures
        c.links[i].shorturl.len() > 0,
        decoded(c.links[i].shorturl, c.seed) == Ok::<usize, InvalidAliasError>(
            c.links[i].id as usize,
        ),
        c.links[i].shorturl != c.links[j].shorturl,
{
    let a = c.links[i].id;
    let b = c.links[j].id;
    assert(0 < a && a + c.seed <= usize::MAX);
    assert(0 < b && b + c.seed <= usize::MAX);
    assert(a != b) by {
        if i < j {
            assert(c.links[i].id < c.links[j].id);
        } else {
            assert(c.links[j].id < c.links[i].id);
        }
    }
    lemma_numeral_value((a + c.seed) as nat);
    lemma_numeral_injective((a + c.seed) as nat, (b + c.seed) as nat);
}

/// The number of associations in `rows` between the link `link_id` and the
/// tag `tag_id`.
pub open spec fn pairs(rows: Seq<LinkTag>, link_id: i64, tag_id: i64) -> nat {
    rows.filter(|row: LinkTag| row.link_id == link_id && row.tag_id == tag_id).len()
}

/// Taking the associations of a link away lowers the count of every tag by
/// the number of associations that the link had with the tag, and no
/// association of the link is left.
pub proof fn lemma_unfiling_counts(rows: Seq<LinkTag>, link_id: i64, tag_id: i64)
    ensures
        occurrences(without_link(rows, link_id), tag_id) + pairs(rows, link_id, tag_id)
            == occurrences(rows, tag_id),
        forall|k: int|
            0 <= k < without_link(rows, link_id).len() ==> (#[trigger] without_link(
                rows,
                link_id,
            )[k]).link_id != link_id,
    decreases rows.len(),
{
    let keep = |row: LinkTag| row.link_id != link_id;
    let named = |row: LinkTag| row.tag_id == tag_id;
    let both = |row: LinkTag| row.link_id == link_id && row.tag_id == tag_id;
    reveal(Seq::filter);
    if rows.len() > 0 {
        let init = rows.drop_last();
        let last = rows.last();
        lemma_unfiling_counts(init, link_id, tag_id);
        assert(init.push(last) =~= rows);
        init.lemma_filter_push(last, keep);
        init.lemma_filter_push(last, named);
        init.lemma_filter_push(last, both);
        init.filter(keep).lemma_filter_push(last, named);
    }
    assert forall|k: int| 0 <= k < rows.filter(keep).len() implies (#[trigger] rows.filter(
        keep,
    )[k]).link_id != link_id by {
        rows.lemma_filter_pred(keep, k);
    }
}

/// Removing a link removes all of its associations: the catalog without
/// the link holds no association that names it, and the count of every tag
/// is lower by the number of associations that the link had with the tag.
pub proof fn lemma_delete_unfiles(c: CatalogView, id: i64, tag: TagView)
    requires
        well_formed(c),
        has_link(c.links, id),
    ensures
        !has_link(without_link_id(c, id).links, id),
        forall|k: int|
            0 <= k < without_link_id(c, id).links_tags.len() ==> (#[trigger] without_link_id(
                c,
                id,
            ).links_tags[k]).link_id != id,
        occurrences(without_link_id(c, id).links_tags, tag.id) + pairs(c.links_tags, id, tag.id)
            == occurrences(c.links_tags, tag.id),
        tag_names_of(without_link_id(c, id), id) == Seq::<Seq<char>>::empty(),
{
    lemma_unfiling_counts(c.links_tags, id, tag.id);
    let d = without_link_id(c, id);
    let keep = |link: LinkView| link.id != id;
    if has_link(d.links, id) {
        let i = choose|i: int| 0 <= i < d.links.len() && d.links[i].id == id;
        c.links.lemma_filter_pred(keep, i);
    }
    let of_link = |row: LinkTag| row.link_id == id;
    assert forall|k: int| 0 <= k < d.links_tags.len() implies !of_link(
        #[trigger] d.links_tags[k],
    ) by {}
    assert(d.links_tags.filter(of_link).len() == 0) by {
        if d.links_tags.filter(of_link).len() > 0 {
            d.links_tags.lemma_filter_pred(of_link, 0);
            d.links_tags.lemma_filter_contains_rev(of_link, d.links_tags.filter(of_link)[0]);
            let w = choose|w: int|
                0 <= w < d.links_tags.len() && d.links_tags[w] == d.links_tags.filter(of_link)[0];
            assert(!of_link(d.links_tags[w]));
        }
    }
    assert(tag_names_of(d, id) =~= Seq::<Seq<char>>::empty());
}

/// A link and a tag have an association exactly where they are associated.
pub proof fn lemma_pairs_associated(rows: Seq<LinkTag>, link_id: i64, tag_id: i64)
    ensures
        pairs(rows, link_id, tag_id) > 0 <==> associated(rows, link_id, tag_id),
{
    let both = |row: LinkTag| row.link_id == link_id && row.tag_id == tag_id;
    if associated(rows, link_id, tag_id) {
        let k = choose|k: int|
            0 <= k < rows.len() && rows[k].link_id == link_id && rows[k].tag_id == tag_id;
        rows.lemma_filter_contains(both, k);
    }
    if rows.filter(both).len() > 0 {
        let row = rows.filter(both)[0];
        rows.lemma_filter_pred(both, 0);
        rows.lemma_filter_contains_rev(both, row);
        let k = choose|k: int| 0 <= k < rows.len() && rows[k] == row;
        assert(rows[k].link_id == link_id && rows[k].tag_id == tag_id);
    }
}

/// Filing a link under a list of names files it once under each of them: a
/// link that had at most one association with any tag has exactly one with
/// the tag of each name, however often the list says the name, and still at
/// most one with any tag.
pub proof fn lemma_filed_once(c: CatalogView, link_id: i64, names: Seq<Seq<char>>, k: int)
    requires
        well_formed(c),
        has_link(c.links, link_id),
        room_for_tags(c, names.len()),
        forall|x: i64| #[trigger] pairs(c.links_tags, link_id, x) <= 1,
        0 <= k < names.len(),
    ensures
        ({
            let d = filed_under(c, link_id, names);
            &&& well_formed(d)
            &&& d.links == c.links
            &&& c.next_tag_id <= d.next_tag_id <= c.next_tag_id + names.len()
            &&& c.next_link_tag_id <= d.next_link_tag_id <= c.next_link_tag_id + names.len()
            &&& has_tag(d.tags, names[k])
            &&& pairs(d.links_tags, link_id, tag_named(d.tags, names[k]).id) == 1
            &&& forall|x: i64| #[trigger] pairs(d.links_tags, link_id, x) <= 1
        }),
    decreases names.len(),
{
    let init = names.drop_last();
    let name = names.last();
    let d0 = filed_under(c, link_id, init);
    if init.len() > 0 {
        lemma_filed_once(
            c,
            link_id,
            init,
            if k < init.len() {
                k
            } else {
                0
            },
        );
    }
    lemma_filed(d0, link_id, name);
    let d = filed(d0, link_id, name);
    assert(d == filed_under(c, link_id, names));
    let named = if has_tag(d0.tags, name) {
        d0
    } else {
        with_tag(d0, name)
    };
    let tag = tag_named(named.tags, name);
    let pushed = !associated(named.links_tags, link_id, tag.id);
    assert(named.links_tags == d0.links_tags);
    lemma_pairs_associated(d0.links_tags, link_id, tag.id);
    assert forall|x: i64| #[trigger]
        pairs(d.links_tags, link_id, x) == pairs(d0.links_tags, link_id, x) + if pushed && x
            == tag.id {
            1nat
        } else {
            0nat
        } by {
        let both = |row: LinkTag| row.link_id == link_id && row.tag_id == x;
        if pushed {
            let row = LinkTag { id: named.next_link_tag_id, link_id, tag_id: tag.id };
            d0.links_tags.lemma_filter_push(row, both);
        }
    }
    assert forall|x: i64| #[trigger] pairs(d.links_tags, link_id, x) <= 1 by {
        assert(pairs(d0.links_tags, link_id, x) <= 1);
    }
    if !has_tag(d0.tags, name) {
        lemma_with_tag_wf(d0, name);
    }
    if k == names.len() - 1 {
        lemma_pairs_associated(d.links_tags, link_id, tag_named(d.tags, name).id);
        assert(pairs(d.links_tags, link_id, tag_named(d.tags, name).id) <= 1);
    } else {
        let wanted = names[k];
        assert(init[k] == wanted);
        let at = choose|i: int| 0 <= i < d0.tags.len() && d0.tags[i].name == wanted;
        lemma_tag_named(d0.tags, at);
        assert(d.tags[at] == d0.tags[at]);
        lemma_tag_named(d.tags, at);
        let found = d0.tags[at];
        assert(pairs(d0.links_tags, link_id, found.id) == 1);
        if pushed && found.id == tag.id {
            let other = choose|i: int| 0 <= i < named.tags.len() && named.tags[i].name == name;
            lemma_tag_named(named.tags, other);
            assert(named.tags[at] == found);
            if at < other {
                assert(named.tags[at].id < named.tags[other].id);
            } else if other < at {
                assert(named.tags[other].id < named.tags[at].id);
            }
            assert(false);
        }
    }
}

/// Making a link and removing it again takes from every tag of the link the
/// one association that making it gave: the count of each of its tags is
/// lower by exactly one, and nothing is left of the link.
pub proof fn lemma_create_then_delete(c: CatalogView, draft: Draft, k: int)
    requires
        well_formed(c),
        room_for_link(c),
        room_for_tags(c, draft.tags.len()),
        0 <= k < draft.tags.len(),
    ensures
        ({
            let made = with_link(c, draft);
            let id = c.next_link_id;
            let tag = tag_named(made.tags, draft.tags[k]);
            let gone = without_link_id(made, id);
            &&& well_formed(made)
            &&& has_link(made.links, id)
            &&& has_tag(made.tags, draft.tags[k])
            &&& occurrences(gone.links_tags, tag.id) + 1 == occurrences(made.links_tags, tag.id)
            &&& !has_link(gone.links, id)
            &&& gone.tags == made.tags
        }),
{
    let id = c.next_link_id;
    let link = link_of(c, draft);
    let entered = CatalogView {
        links: c.links.push(link),
        next_link_id: (c.next_link_id + 1) as i64,
        ..c
    };
    assert(entered.links[c.links.len() as int].id == id);
    assert forall|i: int, j: int| 0 <= i < j < entered.links.len() implies (
    #[trigger] entered.links[i]).id < (#[trigger] entered.links[j]).id by {
        if j == c.links.len() {
            assert(c.links[i].id < c.next_link_id);
        } else {
            assert(c.links[i].id < c.links[j].id);
        }
    }
    assert forall|r: int| 0 <= r < entered.links_tags.len() implies has_link(
        entered.links,
        (#[trigger] entered.links_tags[r]).link_id,
    ) by {
        let w = choose|w: int| 0 <= w < c.links.len() && c.links[w].id == c.links_tags[r].link_id;
        assert(entered.links[w].id == c.links_tags[r].link_id);
    }
    assert(well_formed(entered));
    assert forall|x: i64| #[trigger] pairs(entered.links_tags, id, x) <= 1 by {
        lemma_pairs_associated(entered.links_tags, id, x);
        if associated(entered.links_tags, id, x) {
            let r = choose|r: int|
                0 <= r < c.links_tags.len() && c.links_tags[r].link_id == id
                    && c.links_tags[r].tag_id == x;
            let w = choose|w: int|
                0 <= w < c.links.len() && c.links[w].id == c.links_tags[r].link_id;
            assert(c.links[w].id < c.next_link_id);
        }
    }
    lemma_filed_once(entered, id, draft.tags, k);
    let made = with_link(c, draft);
    assert(made == filed_under(entered, id, draft.tags));
    let tag = tag_named(made.tags, draft.tags[k]);
    lemma_delete_unfiles(made, id, tag);
}

/// A search for the visibility `all`, a search for no visibility and a
/// search for an unknown visibility find the same links, private and public
/// ones alike; a search for `private` finds private links only, and a search
/// for `public` public links only.
pub proof fn lemma_search_by_visibility(
    c: CatalogView,
    offset: Option<i32>,
    limit: Option<Seq<char>>,
    term: Option<Seq<char>>,
    tags: Option<Seq<char>>,
    visibility: Option<Seq<char>>,
)
    ensures
        visibility != Some("private"@) && visibility != Some("public"@) ==> links_found(
            c,
            offset,
            limit,
            term,
            tags,
            visibility,
        ) == links_found(c, offset, limit, term, tags, Some("all"@)),
        forall|link: LinkView, names: Seq<Seq<char>>|
            #[trigger] selects(filter_of(term, tags, Some("all"@)), link, names) <==> term_matches(
                term,
                link,
            ) && tags_match(filter_of(term, tags, Some("all"@)).tags, names),
        links_found(c, offset, limit, term, tags, Some("private"@)) matches Ok(found) ==> forall|
            k: int,
        |
            0 <= k < found.len() ==> (#[trigger] found[k]).private,
        links_found(c, offset, limit, term, tags, Some("public"@)) matches Ok(found) ==> forall|
            k: int,
        |
            0 <= k < found.len() ==> !(#[trigger] found[k]).private,
{
    crate::search::lemma_visibility(visibility, true);
    assert(filter_of(term, tags, Some("all"@)).visibility == Visibility::All);
    if visibility != Some("private"@) && visibility != Some("public"@) {
        assert(filter_of(term, tags, visibility) == filter_of(term, tags, Some("all"@)));
    }
    if let Ok(page) = requested_page(offset, limit, LINKS_PAGE) {
        let private = filter_of(term, tags, Some("private"@));
        let public = filter_of(term, tags, Some("public"@));
        assert(private.visibility == Visibility::Private);
        assert(public.visibility == Visibility::Public);
        lemma_page_rows(links_selected(c, private), page);
        lemma_page_rows(links_selected(c, public), page);
        let wanted = |link: LinkView| selects(private, link, tag_names_of(c, link.id));
        let other = |link: LinkView| selects(public, link, tag_names_of(c, link.id));
        let found = page_of(links_selected(c, private), page);
        assert forall|k: int| 0 <= k < found.len() implies (#[trigger] found[k]).private by {
            let w = choose|w: int|
                0 <= w < links_selected(c, private).len() && links_selected(c, private)[w]
                    == found[k];
            c.links.lemma_filter_pred(wanted, w);
        }
        let shown = page_of(links_selected(c, public), page);
        assert forall|k: int| 0 <= k < shown.len() implies !(#[trigger] shown[k]).private by {
            let w = choose|w: int|
                0 <= w < links_selected(c, public).len() && links_selected(c, public)[w]
                    == shown[k];
            c.links.lemma_filter_pred(other, w);
        }
    }
}

/// Every row of a page is a row of what was cut.
pub proof fn lemma_page_rows<T>(rows: Seq<T>, page: Page)
    ensures
        forall|k: int|
            0 <= k < page_of(rows, page).len() ==> rows.contains(#[trigger] page_of(rows, page)[k]),
{
    assert forall|k: int| 0 <= k < page_of(rows, page).len() implies rows.contains(
        #[trigger] page_of(rows, page)[k],
    ) by {
        match page {
            Page::All => {
                assert(rows[k] == page_of(rows, page)[k]);
            },
            Page::Window { offset, limit } => {
                assert(rows[offset + k] == page_of(rows, page)[k]);
            },
        }
    }
}

/// A search with the limit `all` finds every link that the filter selects,
/// whatever the offset; a search with a number for its limit finds at most
/// that many, and what it finds are the selected links that follow the
/// first `offset` of them, in their order.
pub proof fn lemma_search_pages(
    c: CatalogView,
    offset: Option<i32>,
    limit: Seq<char>,
    term: Option<Seq<char>>,
    tags: Option<Seq<char>>,
    visibility: Option<Seq<char>>,
)
    ensures
        links_found(c, offset, Some("all"@), term, tags, visibility) == Ok::<
            Seq<LinkView>,
            StoreError,
        >(links_selected(c, filter_of(term, tags, visibility))),
        limit != "all"@ ==> match links_found(c, offset, Some(limit), term, tags, visibility) {
            Ok(found) => {
                let selected = links_selected(c, filter_of(term, tags, visibility));
                let skipped = match offset {
                    Some(o) => o as int,
                    None => 0,
                };
                &&& parsed_decimal(limit) matches Some(most)
                &&& skipped >= 0
                &&& found.len() <= most
                &&& found.len() <= selected.len()
                &&& forall|k: int| 0 <= k < found.len() ==> #[trigger] found[k] == selected[skipped + k]
                &&& skipped + most <= selected.len() ==> found.len() == most
                &&& selected.len() <= skipped + most ==> skipped + found.len() >= selected.len()
            },
            Err(e) => e == StoreError::Validation && (parsed_decimal(limit) is None || (
            offset matches Some(o) && o < 0)),
        },
{
}

} // verus!
