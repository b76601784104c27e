//! The link store: making, reading, changing and removing links.
//!
//! A link gets its identity from the catalog and its alias from its
//! identity, in one step. The names of its tags are resolved one after the
//! other: a name that no tag has yet makes a tag, and a tag that the link is
//! filed under already is not filed a second time.

use crate::catalog::{
    has_link, has_tag, has_tag_id, lemma_filter_all_but, lemma_filter_rows, link_alias, rising,
    well_formed, Catalog, CatalogView,
};
use crate::error::StoreError;
use crate::history::{logged, utc_now, with_entry, Event, History};
use crate::link::{
    drafted, link_position, Draft, Link, LinkView, LinkWithTags, LinkWithTagsNew,
    LinkWithTagsNewView, LinkWithTagsView,
};
use crate::link_tag::{associated, rows_without_link, without_link, LinkTag};
use crate::search::{filter_of, page_of, requested_page, selects, LinkFilter, LinkFilterView, Page};
use crate::metatag::{meta_value, metatag_of, title_text, Metatag, MetatagView};
use crate::short_url::encode;
use crate::tag::Tag;
use crate::tag_store::{lemma_tag_named, lemma_with_tag_wf, tag_named, tag_names_of, with_tag};
use vstd::prelude::*;
use vstd::string::*;

verus! {

/// The catalog `c` after the link `link_id` was filed under the tag named
/// `name`: with a new tag where no tag had the name, and with a new
/// association unless the link was filed under the tag already.
pub open spec fn filed(c: CatalogView, link_id: i64, name: Seq<char>) -> CatalogView {
    let named = if has_tag(c.tags, name) {
        c
    } else {
        with_tag(c, name)
    };
    let tag = tag_named(named.tags, name);
    if associated(named.links_tags, link_id, tag.id) {
        named
    } else {
        CatalogView {
            links_tags: named.links_tags.push(
                LinkTag { id: named.next_link_tag_id, link_id, tag_id: tag.id },
            ),
            next_link_tag_id: (named.next_link_tag_id + 1) as i64,
            ..named
        }
    }
}

/// The catalog `c` after the link `link_id` was filed under the tags named
/// `names`, one name after the other.
pub open spec fn filed_under(c: CatalogView, link_id: i64, names: Seq<Seq<char>>) -> CatalogView
    decreases names.len(),
{
    if names.len() == 0 {
        c
    } else {
        filed(filed_under(c, link_id, names.drop_last()), link_id, names.last())
    }
}

/// Whether `c` has the identities left that `tags` names can use up: one
/// tag and one association for each.
pub open spec fn room_for_tags(c: CatalogView, tags: nat) -> bool {
    &&& c.next_tag_id + tags <= i64::MAX
    &&& c.next_link_tag_id + tags <= i64::MAX
}

/// Whether `c` has an identity left for a link, with an alias that fits the
/// machine word.
pub open spec fn room_for_link(c: CatalogView) -> bool {
    &&& c.next_link_id < i64::MAX
    &&& c.next_link_id + c.seed <= usize::MAX
}

/// The link that `draft` becomes in `c`: it gets the next identity and the
/// alias of that identity.
pub open spec fn link_of(c: CatalogView, draft: Draft) -> LinkView {
    LinkView {
        id: c.next_link_id,
        url: draft.url,
        shorturl: link_alias(c.next_link_id, c.seed),
        title: draft.title,
        description: draft.description,
        private: draft.private,
        created: draft.created,
        updated: draft.updated,
    }
}

/// The catalog `c` with the link that `draft` becomes, filed under the tags
/// of the draft.
pub open spec fn with_link(c: CatalogView, draft: Draft) -> CatalogView {
    filed_under(
        CatalogView {
            links: c.links.push(link_of(c, draft)),
            next_link_id: (c.next_link_id + 1) as i64,
            ..c
        },
        c.next_link_id,
        draft.tags,
    )
}

/// What making a link out of the submission `new` at `now` comes to: the
/// catalog with the link, its tags and an entry in the trail, and the link
/// with the names of its tags. A catalog without the identities for it is
/// full.
pub open spec fn link_created(
    c: CatalogView,
    new: LinkWithTagsNewView,
    metatag: MetatagView,
    now: i64,
) -> Result<(CatalogView, LinkWithTagsView), StoreError> {
    let draft = drafted(new, metatag, now);
    if room_for_link(c) && room_for_tags(c, draft.tags.len()) {
        let stored = with_link(c, draft);
        Ok(
            (
                with_entry(stored, Event::CREATED, now),
                LinkWithTagsView {
                    link: link_of(c, draft),
                    tags: tag_names_of(stored, c.next_link_id),
                },
            ),
        )
    } else {
        Err(StoreError::Full)
    }
}

/// The submission that names an address and nothing else.
pub open spec fn bare(url: Seq<char>) -> LinkWithTagsNewView {
    LinkWithTagsNewView {
        url,
        title: None,
        description: None,
        tags: None,
        private: None,
        created: None,
        updated: None,
    }
}

/// The number of links that a search shows where the request names no
/// limit: none. A request has to say how many links it wants, or `all`.
pub const LINKS_PAGE: usize = 0;

/// The link of `links` with identity `id`, where there is one.
pub open spec fn link_with_id(links: Seq<LinkView>, id: i64) -> LinkView {
    links[choose|i: int| 0 <= i < links.len() && links[i].id == id]
}

/// The links of `c` that `filter` selects, in the order of their
/// identities.
pub open spec fn links_selected(c: CatalogView, filter: LinkFilterView) -> Seq<LinkView> {
    c.links.filter(|link: LinkView| selects(filter, link, tag_names_of(c, link.id)))
}

/// What a search finds: the links that the term, the tags and the
/// visibility select, in the order of their identities, cut to the page that
/// `offset` and `limit` ask for. A page that is malformed fails the search,
/// whatever the filter.
pub open spec fn links_found(
    c: CatalogView,
    offset: Option<i32>,
    limit: Option<Seq<char>>,
    term: Option<Seq<char>>,
    tags: Option<Seq<char>>,
    visibility: Option<Seq<char>>,
) -> Result<Seq<LinkView>, StoreError> {
    match requested_page(offset, limit, LINKS_PAGE) {
        Err(e) => Err(e),
        Ok(page) => Ok(page_of(links_selected(c, filter_of(term, tags, visibility)), page)),
    }
}

/// The link `old` after the change `new`: the address is replaced, every
/// other field is replaced where `new` names it, and the identity and the
/// alias stay.
pub open spec fn link_changed(old: LinkView, new: LinkWithTagsNewView) -> LinkView {
    LinkView {
        id: old.id,
        url: new.url,
        shorturl: old.shorturl,
        title: match new.title {
            Some(title) => title,
            None => old.title,
        },
        description: match new.description {
            Some(description) => description,
            None => old.description,
        },
        private: match new.private {
            Some(private) => private,
            None => old.private,
        },
        created: match new.created {
            Some(created) => created,
            None => old.created,
        },
        updated: match new.updated {
            Some(updated) => updated,
            None => old.updated,
        },
    }
}

/// The catalog `c` with `link` in the place of the link of its identity.
pub open spec fn with_link_replaced(c: CatalogView, link: LinkView) -> CatalogView {
    CatalogView {
        links: c.links.map_values(
            |old: LinkView|
                if old.id == link.id {
                    link
                } else {
                    old
                },
        ),
        ..c
    }
}

/// The catalog `c` without the associations of the link `link_id`.
pub open spec fn unfiled(c: CatalogView, link_id: i64) -> CatalogView {
    CatalogView { links_tags: without_link(c.links_tags, link_id), ..c }
}

/// What changing the link `id` by `new` comes to, before the change is
/// written to the trail: the catalog with the changed link, and the link.
/// Where `new` names tags, the link is filed under them and under no others.
pub open spec fn link_updated(c: CatalogView, id: i64, new: LinkWithTagsNewView) -> Result<
    (CatalogView, LinkView),
    StoreError,
> {
    if !has_link(c.links, id) {
        Err(StoreError::NotFound)
    } else if new.tags is Some && !room_for_tags(c, new.tags->0.len()) {
        Err(StoreError::Full)
    } else {
        let link = link_changed(link_with_id(c.links, id), new);
        let replaced = with_link_replaced(c, link);
        let stored = match new.tags {
            Some(names) => filed_under(unfiled(replaced, id), id, names),
            None => replaced,
        };
        Ok((stored, link))
    }
}

/// The catalog `c` without the link `id` and without its associations.
pub open spec fn without_link_id(c: CatalogView, id: i64) -> CatalogView {
    CatalogView {
        links: c.links.filter(|link: LinkView| link.id != id),
        links_tags: without_link(c.links_tags, id),
        ..c
    }
}

/// The catalog `c` without any link, and so without any association.
pub open spec fn without_links(c: CatalogView) -> CatalogView {
    CatalogView { links: Seq::empty(), links_tags: Seq::empty(), ..c }
}

/// In a well-formed catalog, the link at a position is the link of its
/// identity, and the only one.
pub proof fn lemma_link_with_id(c: CatalogView, at: int)
    requires
        well_formed(c),
        0 <= at < c.links.len(),
    ensures
        has_link(c.links, c.links[at].id),
        link_with_id(c.links, c.links[at].id) == c.links[at],
        forall|i: int| 0 <= i < c.links.len() && i != at ==> (#[trigger] c.links[i]).id
            != c.links[at].id,
{
    let id = c.links[at].id;
    let k = choose|k: int| 0 <= k < c.links.len() && c.links[k].id == id;
    if k < at {
        assert(c.links[k].id < c.links[at].id);
    } else if at < k {
        assert(c.links[at].id < c.links[k].id);
    }
    assert forall|i: int| 0 <= i < c.links.len() && i != at implies (#[trigger] c.links[i]).id
        != c.links[at].id by {
        if i < at {
            assert(c.links[i].id < c.links[at].id);
        } else {
            assert(c.links[at].id < c.links[i].id);
        }
    }
}

/// A catalog stays well formed when a link is replaced by one with the same
/// identity and alias.
pub proof fn lemma_replaced_wf(c: CatalogView, at: int, link: LinkView)
    requires
        well_formed(c),
        0 <= at < c.links.len(),
        link.id == c.links[at].id,
        link.shorturl == c.links[at].shorturl,
    ensures
        with_link_replaced(c, link).links == c.links.update(at, link),
        well_formed(with_link_replaced(c, link)),
{
    lemma_link_with_id(c, at);
    let d = with_link_replaced(c, link);
    assert(d.links =~= c.links.update(at, link));
    assert forall|i: int, j: int| 0 <= i < j < d.links.len() implies (#[trigger] d.links[i]).id < (
    #[trigger] d.links[j]).id by {
        assert(c.links[i].id < c.links[j].id);
    }
    assert forall|i: int| 0 <= i < d.links.len() implies {
        &&& 0 < (#[trigger] d.links[i]).id < d.next_link_id
        &&& d.links[i].id + d.seed <= usize::MAX
        &&& d.links[i].shorturl == link_alias(d.links[i].id, d.seed)
    } by {
        assert(0 < c.links[i].id < c.next_link_id);
    }
    assert forall|k: int| 0 <= k < d.links_tags.len() implies has_link(
        d.links,
        (#[trigger] d.links_tags[k]).link_id,
    ) by {
        let w = choose|w: int| 0 <= w < c.links.len() && c.links[w].id == c.links_tags[k].link_id;
        assert(d.links[w].id == c.links[w].id);
    }
}

/// A catalog stays well formed when the associations of a link leave it.
pub proof fn lemma_unfiled_wf(c: CatalogView, link_id: i64)
    requires
        well_formed(c),
    ensures
        well_formed(unfiled(c, link_id)),
{
    let d = unfiled(c, link_id);
    let keep = |row: LinkTag| row.link_id != link_id;
    assert(rising(c.links_tags));
    lemma_filter_rows(c.links_tags, keep);
    assert forall|k: int| 0 <= k < d.links_tags.len() implies {
        &&& 0 < (#[trigger] d.links_tags[k]).id < d.next_link_tag_id
        &&& has_link(d.links, d.links_tags[k].link_id)
        &&& has_tag_id(d.tags, d.links_tags[k].tag_id)
    } by {
        let w = choose|w: int| 0 <= w < c.links_tags.len() && c.links_tags[w] == d.links_tags[k];
        assert(c.links_tags[w] == d.links_tags[k]);
    }
}

/// A catalog stays well formed when a link leaves it together with its
/// associations.
pub proof fn lemma_without_link_wf(c: CatalogView, at: int)
    requires
        well_formed(c),
        0 <= at < c.links.len(),
    ensures
        without_link_id(c, c.links[at].id) == (CatalogView {
            links: c.links.remove(at),
            links_tags: without_link(c.links_tags, c.links[at].id),
            ..c
        }),
        well_formed(without_link_id(c, c.links[at].id)),
{
    let id = c.links[at].id;
    let d = without_link_id(c, id);
    lemma_link_with_id(c, at);
    let keep_link = |link: LinkView| link.id != id;
    lemma_filter_all_but(c.links, keep_link, at);
    let keep = |row: LinkTag| row.link_id != id;
    assert(rising(c.links_tags));
    lemma_filter_rows(c.links_tags, keep);
    assert forall|k: int| 0 <= k < d.links_tags.len() implies {
        &&& 0 < (#[trigger] d.links_tags[k]).id < d.next_link_tag_id
        &&& has_link(d.links, d.links_tags[k].link_id)
        &&& has_tag_id(d.tags, d.links_tags[k].tag_id)
    } by {
        let row = d.links_tags[k];
        let w = choose|w: int| 0 <= w < c.links_tags.len() && c.links_tags[w] == row;
        assert(c.links_tags[w] == row);
        let t = choose|t: int| 0 <= t < c.links.len() && c.links[t].id == row.link_id;
        assert(t != at);
        if t < at {
            assert(d.links[t] == c.links[t]);
        } else {
            assert(d.links[t - 1] == c.links[t]);
        }
    }
    assert forall|i: int, j: int| 0 <= i < j < d.links.len() implies (#[trigger] d.links[i]).id < (
    #[trigger] d.links[j]).id by {
        let a = if i < at {
            i
        } else {
            i + 1
        };
        let b = if j < at {
            j
        } else {
            j + 1
        };
        assert(c.links[a].id < c.links[b].id);
    }
    assert forall|i: int| 0 <= i < d.links.len() implies {
        &&& 0 < (#[trigger] d.links[i]).id < d.next_link_id
        &&& d.links[i].id + d.seed <= usize::MAX
        &&& d.links[i].shorturl == link_alias(d.links[i].id, d.seed)
    } by {
        let a = if i < at {
            i
        } else {
            i + 1
        };
        assert(0 < c.links[a].id < c.next_link_id);
    }
}

/// Whether some association names the link `link_id` and the tag `tag_id`.
fn is_associated(rows: &Vec<LinkTag>, link_id: i64, tag_id: i64) -> (found: bool)
    ensures
        found == associated(rows@, link_id, tag_id),
{
    let mut k: usize = 0;
    while k < rows.len()
        invariant
            k <= rows.len(),
            forall|j: int|
                0 <= j < k ==> !((#[trigger] rows@[j]).link_id == link_id && rows@[j].tag_id
                    == tag_id),
        decreases rows.len() - k,
    {
        if rows[k].link_id == link_id && rows[k].tag_id == tag_id {
            return true;
        }
        k += 1;
    }
    false
}

/// Filing keeps a catalog well formed, keeps its links, and uses up at most
/// one tag identity and one association identity.
pub proof fn lemma_filed(c: CatalogView, link_id: i64, name: Seq<char>)
    requires
        well_formed(c),
        has_link(c.links, link_id),
        c.next_tag_id < i64::MAX,
        c.next_link_tag_id < i64::MAX,
    ensures
        well_formed(filed(c, link_id, name)),
        filed(c, link_id, name).links == c.links,
        filed(c, link_id, name).history == c.history,
        filed(c, link_id, name).seed == c.seed,
        filed(c, link_id, name).next_link_id == c.next_link_id,
        filed(c, link_id, name).next_history_id == c.next_history_id,
        c.next_tag_id <= filed(c, link_id, name).next_tag_id <= c.next_tag_id + 1,
        c.next_link_tag_id <= filed(c, link_id, name).next_link_tag_id <= c.next_link_tag_id + 1,
        has_tag(filed(c, link_id, name).tags, name),
        associated(
            filed(c, link_id, name).links_tags,
            link_id,
            tag_named(filed(c, link_id, name).tags, name).id,
        ),
{
    let named = if has_tag(c.tags, name) {
        c
    } else {
        with_tag(c, name)
    };
    if !has_tag(c.tags, name) {
        lemma_with_tag_wf(c, name);
        lemma_tag_named(named.tags, c.tags.len() as int);
    }
    let at = choose|i: int| 0 <= i < named.tags.len() && named.tags[i].name == name;
    let tag = tag_named(named.tags, name);
    assert(tag == named.tags[at]);
    let d = filed(c, link_id, name);
    if !associated(named.links_tags, link_id, tag.id) {
        let row = LinkTag { id: named.next_link_tag_id, link_id, tag_id: tag.id };
        assert(d.links_tags[named.links_tags.len() as int] == row);
        assert forall|i: int, j: int| 0 <= i < j < d.links_tags.len() implies (
        #[trigger] d.links_tags[i]).id < (#[trigger] d.links_tags[j]).id by {
            if j == named.links_tags.len() {
                assert(named.links_tags[i].id < named.next_link_tag_id);
            } else {
                assert(named.links_tags[i].id < named.links_tags[j].id);
            }
        }
        assert forall|k: int| 0 <= k < d.links_tags.len() implies {
            &&& 0 < (#[trigger] d.links_tags[k]).id < d.next_link_tag_id
            &&& has_link(d.links, d.links_tags[k].link_id)
            &&& has_tag_id(d.tags, d.links_tags[k].tag_id)
        } by {
            if k == named.links_tags.len() {
                assert(named.tags[at].id == tag.id);
            } else {
                assert(0 < named.links_tags[k].id < named.next_link_tag_id);
            }
        }
    }
}

/// Files the link `link_id` under the tags named `names`.
fn file_under(catalog: &mut Catalog, link_id: i64, names: &Vec<String>)
    requires
        old(catalog).wf(),
        has_link(old(catalog)@.links, link_id),
        room_for_tags(old(catalog)@, names.len() as nat),
    ensures
        final(catalog).wf(),
        final(catalog)@ == filed_under(old(catalog)@, link_id, names.deep_view()),
        final(catalog)@.links == old(catalog)@.links,
        final(catalog)@.history == old(catalog)@.history,
        final(catalog)@.seed == old(catalog)@.seed,
        final(catalog)@.next_link_id == old(catalog)@.next_link_id,
        final(catalog)@.next_history_id == old(catalog)@.next_history_id,
{
    let ghost start = catalog@;
    let ghost all = names.deep_view();
    let n = names.len();
    let mut i: usize = 0;
    proof {
        assert(all.take(0) =~= Seq::<Seq<char>>::empty());
    }
    while i < n
        invariant
            i <= n == names.len(),
            all == names.deep_view(),
            catalog.wf(),
            well_formed(start),
            has_link(start.links, link_id),
            room_for_tags(start, n as nat),
            catalog@ == filed_under(start, link_id, all.take(i as int)),
            catalog@.links == start.links,
            catalog@.history == start.history,
            catalog@.seed == start.seed,
            catalog@.next_link_id == start.next_link_id,
            catalog@.next_history_id == start.next_history_id,
            catalog@.next_tag_id <= start.next_tag_id + i,
            catalog@.next_link_tag_id <= start.next_link_tag_id + i,
        decreases n - i,
    {
        let ghost before = catalog@;
        let ghost name = all[i as int];
        proof {
            lemma_filed(before, link_id, name);
            assert(all.take(i + 1).drop_last() =~= all.take(i as int));
            assert(all.take(i + 1).last() == name);
        }
        // With room for every name, neither the tag nor the association can
        // be refused.
        let found = Tag::get_or_insert(catalog, names[i].as_str());
        assert(found is Ok);
        if let Ok(tag) = found {
            proof {
                if !has_tag(before.tags, name) {
                    lemma_with_tag_wf(before, name);
                    lemma_tag_named(catalog@.tags, before.tags.len() as int);
                }
                catalog.unfold();
                let at = choose|t: int|
                    0 <= t < catalog@.tags.len() && catalog@.tags[t].name == name;
                assert(catalog@.tags[at].id == tag.id);
            }
            if !is_associated(&catalog.links_tags, link_id, tag.id) {
                let made = LinkTag::create(catalog, link_id, tag.id);
                assert(made is Ok);
            }
        }
        i += 1;
    }
    proof {
        assert(all.take(n as int) =~= all);
    }
}

impl Link {
    /// Makes a link out of the submission `new`, with `metatag` for the
    /// fields that the submission leaves open and `now` for the time; see
    /// [`link_created`]. A refusal leaves the catalog as it was.
    pub fn create_at(
        catalog: &mut Catalog,
        new: &LinkWithTagsNew,
        metatag: &Metatag,
        now: i64,
    ) -> (made: Result<LinkWithTags, StoreError>)
        requires
            old(catalog).wf(),
        ensures
            final(catalog).wf(),
            match made {
                Ok(link) => link_created(old(catalog)@, new@, metatag@, now) == Ok::<
                    (CatalogView, LinkWithTagsView),
                    StoreError,
                >((final(catalog)@, link@)),
                Err(e) => link_created(old(catalog)@, new@, metatag@, now) == Err::<
                    (CatalogView, LinkWithTagsView),
                    StoreError,
                >(e) && final(catalog)@ == old(catalog)@,
            },
    {
        let (title, description, tags) = new.texts(metatag);
        let (private, created, updated) = new.marks(now);
        let ghost draft = drafted(new@, metatag@, now);
        let ghost start = catalog@;
        proof {
            catalog.unfold();
        }
        let n = tags.len();
        if catalog.next_link_id == i64::MAX || catalog.next_link_id as u64 > (usize::MAX
            - catalog.seed) as u64 || ((i64::MAX - catalog.next_tag_id) as u64) < n as u64 || ((
        i64::MAX - catalog.next_link_tag_id) as u64) < n as u64 {
            return Err(StoreError::Full);
        }
        let id = catalog.next_link_id;
        let shorturl = encode(id as usize, catalog.seed);
        let link = Link {
            id,
            url: new.url().to_owned(),
            shorturl,
            title,
            description,
            private,
            created,
            updated,
        };
        let copy = link.clone();
        let ghost before = catalog.links.deep_view();
        catalog.links.push(link);
        catalog.next_link_id = id + 1;
        proof {
            catalog.unfold();
            assert(catalog.links.deep_view() =~= before.push(copy@));
            assert(copy@ == link_of(start, draft));
            let d = catalog@;
            assert(d.links[start.links.len() as int].id == id);
            assert forall|i: int, j: int| 0 <= i < j < d.links.len() implies (#[trigger] d.links[i]).id
                < (#[trigger] d.links[j]).id by {
                if j == start.links.len() {
                    assert(start.links[i].id < start.next_link_id);
                } else {
                    assert(start.links[i].id < start.links[j].id);
                }
            }
            assert forall|k: int| 0 <= k < d.links_tags.len() implies has_link(
                d.links,
                (#[trigger] d.links_tags[k]).link_id,
            ) by {
                let w = choose|w: int|
                    0 <= w < start.links.len() && start.links[w].id == start.links_tags[k].link_id;
                assert(d.links[w].id == start.links_tags[k].link_id);
            }
        }
        file_under(catalog, id, &tags);
        let names = match Tag::read_tags_for_link(catalog, id) {
            Ok(names) => names,
            Err(_) => Vec::new(),
        };
        History::insert(catalog, Event::CREATED, now);
        Ok(LinkWithTags::new(copy, names))
    }

    /// Makes a link out of the submission `new` at the time the clock shows;
    /// see [`Link::create_at`].
    pub fn create_from_post(catalog: &mut Catalog, new: &LinkWithTagsNew, metatag: &Metatag) -> (made:
        Result<LinkWithTags, StoreError>)
        requires
            old(catalog).wf(),
        ensures
            final(catalog).wf(),
            match made {
                Ok(link) => exists|now: i64| #[trigger]
                    link_created(old(catalog)@, new@, metatag@, now) == Ok::<
                        (CatalogView, LinkWithTagsView),
                        StoreError,
                    >((final(catalog)@, link@)),
                Err(e) => e == StoreError::Full && final(catalog)@ == old(catalog)@ && forall|
                    now: i64,
                | #[trigger]
                    link_created(old(catalog)@, new@, metatag@, now) == Err::<
                        (CatalogView, LinkWithTagsView),
                        StoreError,
                    >(e),
            },
    {
        let now = utc_now();
        Link::create_at(catalog, new, metatag, now)
    }

    /// Looks the link `id` up.
    pub fn read(catalog: &Catalog, id: i64) -> (found: Result<Link, StoreError>)
        requires
            catalog.wf(),
        ensures
            match found {
                Ok(link) => has_link(catalog@.links, id) && link@ == link_with_id(
                    catalog@.links,
                    id,
                ),
                Err(e) => e == StoreError::NotFound && !has_link(catalog@.links, id),
            },
    {
        proof {
            catalog.unfold();
        }
        match link_position(&catalog.links, id) {
            Some(at) => {
                proof {
                    lemma_link_with_id(catalog@, at as int);
                }
                Ok(catalog.links[at].clone())
            },
            None => Err(StoreError::NotFound),
        }
    }

    /// All links, in the order of their identities.
    pub fn read_all(catalog: &Catalog) -> (all: Result<Vec<Link>, StoreError>)
        requires
            catalog.wf(),
        ensures
            all matches Ok(links) && links.deep_view() == catalog@.links,
    {
        proof {
            catalog.unfold();
        }
        let mut out: Vec<Link> = Vec::new();
        let mut i: usize = 0;
        while i < catalog.links.len()
            invariant
                i <= catalog.links.len(),
                out.deep_view() == catalog.links.deep_view().take(i as int),
            decreases catalog.links.len() - i,
        {
            let ghost before = out.deep_view();
            out.push(catalog.links[i].clone());
            proof {
                assert(out.deep_view() =~= before.push(catalog.links.deep_view()[i as int]));
                assert(catalog.links.deep_view().take(i + 1) =~= catalog.links.deep_view().take(
                    i as int,
                ).push(catalog.links.deep_view()[i as int]));
            }
            i += 1;
        }
        proof {
            assert(catalog.links.deep_view().take(i as int) =~= catalog.links.deep_view());
        }
        Ok(out)
    }

    /// Searches the links; see [`links_found`]. The term is looked for in
    /// titles and descriptions, character for character and with no folding
    /// of case; `tags` is a list of names separated by `+`, and a link with
    /// any one of them is selected; `visibility` is `private`, `public` or
    /// anything else for both.
    pub fn search(
        catalog: &Catalog,
        offset: Option<i32>,
        limit: Option<&str>,
        term: Option<&str>,
        tags: Option<&str>,
        visibility: Option<&str>,
    ) -> (found: Result<Vec<Link>, StoreError>)
        requires
            catalog.wf(),
        ensures
            match found {
                Ok(links) => links_found(
                    catalog@,
                    offset,
                    limit.deep_view(),
                    term.deep_view(),
                    tags.deep_view(),
                    visibility.deep_view(),
                ) == Ok::<Seq<LinkView>, StoreError>(links.deep_view()),
                Err(e) => links_found(
                    catalog@,
                    offset,
                    limit.deep_view(),
                    term.deep_view(),
                    tags.deep_view(),
                    visibility.deep_view(),
                ) == Err::<Seq<LinkView>, StoreError>(e),
            },
    {
        let page = match Page::parse(offset, limit, LINKS_PAGE) {
            Ok(page) => page,
            Err(e) => {
                return Err(e);
            },
        };
        let filter = LinkFilter::compile(term, tags, visibility);
        proof {
            catalog.unfold();
        }
        let ghost wanted = |link: LinkView| selects(filter@, link, tag_names_of(catalog@, link.id));
        let ghost all = catalog.links.deep_view();
        let mut out: Vec<Link> = Vec::new();
        let n = catalog.links.len();
        let mut i: usize = 0;
        proof {
            assert(all.take(0).filter(wanted) =~= Seq::<LinkView>::empty()) by {
                reveal(Seq::filter);
            }
            assert(out.deep_view() =~= Seq::<LinkView>::empty());
        }
        while i < n
            invariant
                i <= n == catalog.links.len(),
                catalog.wf(),
                all == catalog.links.deep_view(),
                wanted == |link: LinkView|
                    selects(filter@, link, tag_names_of(catalog@, link.id)),
                out.deep_view() == all.take(i as int).filter(wanted),
            decreases n - i,
        {
            let names = match Tag::read_tags_for_link(catalog, catalog.links[i].id) {
                Ok(names) => names,
                Err(_) => Vec::new(),
            };
            proof {
                assert(all.take(i + 1) == all.take(i as int).push(all[i as int]));
                all.take(i as int).lemma_filter_push(all[i as int], wanted);
            }
            if filter.selects(&catalog.links[i], &names) {
                let ghost before = out.deep_view();
                out.push(catalog.links[i].clone());
                proof {
                    assert(out.deep_view() =~= before.push(all[i as int]));
                }
            }
            i += 1;
        }
        proof {
            assert(all.take(n as int) == all);
        }
        let ghost selected = out.deep_view();
        let shown = page.cut(out);
        proof {
            assert(shown.deep_view() =~= page_of(selected, page));
        }
        Ok(shown)
    }

    /// Changes the link `id` by `new` and writes the change to the trail;
    /// see [`link_updated`]. The alias stays as it is. Hands back the link
    /// as it is now. A refusal leaves the catalog as it was.
    pub fn update(catalog: &mut Catalog, id: i64, new: &LinkWithTagsNew) -> (changed: Result<
        Link,
        StoreError,
    >)
        requires
            old(catalog).wf(),
        ensures
            final(catalog).wf(),
            match changed {
                Ok(link) => {
                    &&& link_updated(old(catalog)@, id, new@) matches Ok(now)
                    &&& now.1 == link@
                    &&& logged(now.0, final(catalog)@, Event::UPDATED)
                },
                Err(e) => {
                    &&& link_updated(old(catalog)@, id, new@) == Err::<
                        (CatalogView, LinkView),
                        StoreError,
                    >(e)
                    &&& final(catalog)@ == old(catalog)@
                },
            },
    {
        proof {
            catalog.unfold();
        }
        let at = match link_position(&catalog.links, id) {
            Some(at) => at,
            None => {
                return Err(StoreError::NotFound);
            },
        };
        let names = new.new_tags();
        match &names {
            Some(list) => {
                let n = list.len();
                if ((i64::MAX - catalog.next_tag_id) as u64) < n as u64 || ((i64::MAX
                    - catalog.next_link_tag_id) as u64) < n as u64 {
                    return Err(StoreError::Full);
                }
            },
            None => {},
        }
        let link = new.applied_to(&catalog.links[at]);
        let copy = link.clone();
        let ghost start = catalog@;
        proof {
            lemma_link_with_id(start, at as int);
            assert(link@ == link_changed(link_with_id(start.links, id), new@));
            lemma_replaced_wf(start, at as int, link@);
        }
        let ghost before = catalog.links.deep_view();
        catalog.links[at] = link;
        proof {
            catalog.unfold();
            assert(catalog.links.deep_view() =~= before.update(at as int, copy@));
            assert(catalog@ == with_link_replaced(start, copy@));
        }
        match names {
            Some(list) => {
                let ghost replaced = catalog@;
                proof {
                    lemma_unfiled_wf(replaced, id);
                }
                let kept = rows_without_link(&catalog.links_tags, id);
                catalog.links_tags = kept;
                proof {
                    catalog.unfold();
                    assert(catalog@ == unfiled(replaced, id));
                    assert(catalog@.links[at as int].id == id);
                }
                file_under(catalog, id, &list);
            },
            None => {},
        }
        History::updated(catalog);
        Ok(copy)
    }

    /// Removes the link `id` and its associations, and writes the removal
    /// to the trail. Hands back the link as it was.
    pub fn delete(catalog: &mut Catalog, id: i64) -> (removed: Result<Link, StoreError>)
        requires
            old(catalog).wf(),
        ensures
            final(catalog).wf(),
            match removed {
                Ok(link) => {
                    &&& has_link(old(catalog)@.links, id)
                    &&& link@ == link_with_id(old(catalog)@.links, id)
                    &&& logged(without_link_id(old(catalog)@, id), final(catalog)@, Event::DELETED)
                },
                Err(e) => {
                    &&& e == StoreError::NotFound
                    &&& !has_link(old(catalog)@.links, id)
                    &&& final(catalog)@ == old(catalog)@
                },
            },
    {
        proof {
            catalog.unfold();
        }
        let at = match link_position(&catalog.links, id) {
            Some(at) => at,
            None => {
                return Err(StoreError::NotFound);
            },
        };
        proof {
            lemma_link_with_id(catalog@, at as int);
            lemma_without_link_wf(catalog@, at as int);
        }
        let ghost before = catalog.links.deep_view();
        let link = catalog.links.remove(at);
        let kept = rows_without_link(&catalog.links_tags, id);
        catalog.links_tags = kept;
        proof {
            catalog.unfold();
            assert(catalog.links.deep_view() =~= before.remove(at as int));
            assert(catalog@ == without_link_id(old(catalog)@, id));
        }
        History::deleted(catalog);
        Ok(link)
    }

    /// Removes every link, and with the links every association. Hands back
    /// the number of links removed. Nothing is written to the trail.
    pub fn drop(catalog: &mut Catalog) -> (removed: Result<u64, StoreError>)
        requires
            old(catalog).wf(),
        ensures
            final(catalog).wf(),
            final(catalog)@ == without_links(old(catalog)@),
            removed == Ok::<u64, StoreError>(old(catalog)@.links.len() as u64),
    {
        proof {
            catalog.unfold();
        }
        let count = catalog.links.len() as u64;
        catalog.links = Vec::new();
        catalog.links_tags = Vec::new();
        proof {
            catalog.unfold();
            assert(catalog.links.deep_view() =~= Seq::<LinkView>::empty());
            assert(catalog.links_tags@ =~= Seq::<LinkTag>::empty());
            assert(well_formed(without_links(old(catalog)@)));
        }
        Ok(count)
    }

    /// Makes a link to `url` out of what the page says of itself in its
    /// markup `content`: the title, the description and the tags are the
    /// page's, the link is private, and it was made now.
    pub fn create(catalog: &mut Catalog, url: &str, content: &str) -> (made: Result<
        LinkWithTags,
        StoreError,
    >)
        requires
            old(catalog).wf(),
        ensures
            final(catalog).wf(),
            match made {
                Ok(link) => exists|now: i64| #[trigger]
                    link_created(
                        old(catalog)@,
                        bare(url@),
                        metatag_of(
                            url@,
                            title_text("<title>"@, "</title>"@, content@),
                            meta_value("description"@, content@),
                            meta_value("keywords"@, content@),
                        ),
                        now,
                    ) == Ok::<(CatalogView, LinkWithTagsView), StoreError>(
                        (final(catalog)@, link@),
                    ),
                Err(e) => e == StoreError::Full && final(catalog)@ == old(catalog)@ && forall|
                    now: i64,
                | #[trigger]
                    link_created(
                        old(catalog)@,
                        bare(url@),
                        metatag_of(
                            url@,
                            title_text("<title>"@, "</title>"@, content@),
                            meta_value("description"@, content@),
                            meta_value("keywords"@, content@),
                        ),
                        now,
                    ) == Err::<(CatalogView, LinkWithTagsView), StoreError>(e),
            },
    {
        let metatag = Metatag::new(url, content);
        let new = LinkWithTagsNew::new(url, None, None, None, None, None, None);
        assert(new@ == bare(url@));
        let now = utc_now();
        Link::create_at(catalog, &new, &metatag, now)
    }
}

} // verus!
