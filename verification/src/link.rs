//! Links: the bookmarks themselves, and what is handed in to make or change
//! one.

use crate::catalog::has_link;
use crate::metatag::{Metatag, MetatagView};
use vstd::prelude::*;
use vstd::std_specs::cmp::PartialEqSpecImpl;
use vstd::string::*;

verus! {

/// A link as the catalog holds it. Timestamps are milliseconds since the
/// Unix epoch.
#[derive(Debug, Eq)]
pub struct Link {
    pub id: i64,
    pub url: String,
    pub shorturl: String,
    pub title: String,
    pub description: String,
    pub private: bool,
    pub created: i64,
    pub updated: i64,
}

/// The mathematical content of a [`Link`].
pub struct LinkView {
    pub id: i64,
    pub url: Seq<char>,
    pub shorturl: Seq<char>,
    pub title: Seq<char>,
    pub description: Seq<char>,
    pub private: bool,
    pub created: i64,
    pub updated: i64,
}

impl View for Link {
    type V = LinkView;

    open spec fn view(&self) -> LinkView {
        LinkView {
            id: self.id,
            url: self.url@,
            shorturl: self.shorturl@,
            title: self.title@,
            description: self.description@,
            private: self.private,
            created: self.created,
            updated: self.updated,
        }
    }
}

impl DeepView for Link {
    type V = LinkView;

    open spec fn deep_view(&self) -> LinkView {
        self@
    }
}

impl Clone for Link {
    fn clone(&self) -> (copy: Link)
        ensures
            copy@ == self@,
    {
        Link {
            id: self.id,
            url: self.url.clone(),
            shorturl: self.shorturl.clone(),
            title: self.title.clone(),
            description: self.description.clone(),
            private: self.private,
            created: self.created,
            updated: self.updated,
        }
    }
}

/// Two links are the same link where they have the same identity.
impl PartialEq for Link {
    fn eq(&self, other: &Link) -> (same: bool) {
        self.id == other.id
    }
}

impl PartialEqSpecImpl for Link {
    open spec fn obeys_eq_spec() -> bool {
        true
    }

    open spec fn eq_spec(&self, other: &Link) -> bool {
        self.id == other.id
    }
}

/// A link together with the names of the tags it is filed under.
#[derive(Debug)]
pub struct LinkWithTags {
    id: i64,
    url: String,
    shorturl: String,
    title: String,
    description: String,
    tags: Vec<String>,
    private: bool,
    created: i64,
    updated: i64,
}

/// The mathematical content of a [`LinkWithTags`].
pub struct LinkWithTagsView {
    pub link: LinkView,
    pub tags: Seq<Seq<char>>,
}

impl View for LinkWithTags {
    type V = LinkWithTagsView;

    closed spec fn view(&self) -> LinkWithTagsView {
        LinkWithTagsView {
            link: LinkView {
                id: self.id,
                url: self.url@,
                shorturl: self.shorturl@,
                title: self.title@,
                description: self.description@,
                private: self.private,
                created: self.created,
                updated: self.updated,
            },
            tags: self.tags.deep_view(),
        }
    }
}

impl LinkWithTags {
    /// `link` with the tag names `tags`.
    pub fn new(link: Link, tags: Vec<String>) -> (both: LinkWithTags)
        ensures
            both@ == (LinkWithTagsView { link: link@, tags: tags.deep_view() }),
    {
        LinkWithTags {
            id: link.id,
            url: link.url,
            shorturl: link.shorturl,
            title: link.title,
            description: link.description,
            tags,
            private: link.private,
            created: link.created,
            updated: link.updated,
        }
    }

    /// The link's identity.
    pub fn id(&self) -> (id: i64)
        ensures
            id == self@.link.id,
    {
        self.id
    }

    /// The address that the link points to.
    pub fn url(&self) -> (url: &str)
        ensures
            url@ == self@.link.url,
    {
        self.url.as_str()
    }

    /// The link's alias.
    pub fn shorturl(&self) -> (alias: &str)
        ensures
            alias@ == self@.link.shorturl,
    {
        self.shorturl.as_str()
    }

    /// The link's title.
    pub fn title(&self) -> (title: &str)
        ensures
            title@ == self@.link.title,
    {
        self.title.as_str()
    }

    /// The link's description.
    pub fn description(&self) -> (description: &str)
        ensures
            description@ == self@.link.description,
    {
        self.description.as_str()
    }

    /// The names of the tags that the link is filed under.
    pub fn tags(&self) -> (tags: &Vec<String>)
        ensures
            tags.deep_view() == self@.tags,
    {
        &self.tags
    }

    /// Whether the link is private.
    pub fn private(&self) -> (private: bool)
        ensures
            private == self@.link.private,
    {
        self.private
    }

    /// When the link was made.
    pub fn created(&self) -> (created: i64)
        ensures
            created == self@.link.created,
    {
        self.created
    }

    /// When the link was last changed.
    pub fn updated(&self) -> (updated: i64)
        ensures
            updated == self@.link.updated,
    {
        self.updated
    }
}

/// What is handed in to make a link or to change one: the address, and
/// whatever else the author chose to say.
#[derive(Debug)]
pub struct LinkWithTagsNew {
    url: String,
    title: Option<String>,
    description: Option<String>,
    tags: Option<Vec<String>>,
    private: Option<bool>,
    created: Option<i64>,
    updated: Option<i64>,
}

/// The mathematical content of a [`LinkWithTagsNew`].
pub struct LinkWithTagsNewView {
    pub url: Seq<char>,
    pub title: Option<Seq<char>>,
    pub description: Option<Seq<char>>,
    pub tags: Option<Seq<Seq<char>>>,
    pub private: Option<bool>,
    pub created: Option<i64>,
    pub updated: Option<i64>,
}

impl View for LinkWithTagsNew {
    type V = LinkWithTagsNewView;

    closed spec fn view(&self) -> LinkWithTagsNewView {
        LinkWithTagsNewView {
            url: self.url@,
            title: self.title.deep_view(),
            description: self.description.deep_view(),
            tags: self.tags.deep_view(),
            private: self.private,
            created: self.created,
            updated: self.updated,
        }
    }
}

impl LinkWithTagsNew {
    /// A submission with the given address and the given optional fields.
    pub fn new(
        url: &str,
        title: Option<String>,
        description: Option<String>,
        tags: Option<Vec<String>>,
        private: Option<bool>,
        created: Option<i64>,
        updated: Option<i64>,
    ) -> (submission: LinkWithTagsNew)
        ensures
            submission@ == (LinkWithTagsNewView {
                url: url@,
                title: title.deep_view(),
                description: description.deep_view(),
                tags: tags.deep_view(),
                private,
                created,
                updated,
            }),
    {
        LinkWithTagsNew { url: url.to_owned(), title, description, tags, private, created, updated }
    }
}

/// A submission with every field decided: what the author said, and for the
/// rest what the page says of itself or what is usual.
pub struct Draft {
    pub url: Seq<char>,
    pub title: Seq<char>,
    pub description: Seq<char>,
    pub tags: Seq<Seq<char>>,
    pub private: bool,
    pub created: i64,
    pub updated: i64,
}

/// Decides the fields that `new` leaves open: title, description and tags
/// come from the page's metadata, a link is private, and it was made and
/// last changed at `now`.
pub open spec fn drafted(new: LinkWithTagsNewView, metatag: MetatagView, now: i64) -> Draft {
    Draft {
        url: new.url,
        title: match new.title {
            Some(title) => title,
            None => metatag.title,
        },
        description: match new.description {
            Some(description) => description,
            None => metatag.description,
        },
        tags: match new.tags {
            Some(tags) => tags,
            None => metatag.tags,
        },
        private: match new.private {
            Some(private) => private,
            None => true,
        },
        created: match new.created {
            Some(created) => created,
            None => now,
        },
        updated: match new.updated {
            Some(updated) => updated,
            None => now,
        },
    }
}

/// Copies a list of names.
pub(crate) fn copy_names(names: &Vec<String>) -> (copy: Vec<String>)
    ensures
        copy.deep_view() == names.deep_view(),
{
    let mut copy: Vec<String> = Vec::new();
    let mut i: usize = 0;
    while i < names.len()
        invariant
            i <= names.len(),
            copy.deep_view() == names.deep_view().take(i as int),
        decreases names.len() - i,
    {
        let ghost before = copy.deep_view();
        copy.push(names[i].clone());
        proof {
            assert(copy.deep_view() =~= before.push(names.deep_view()[i as int]));
            assert(names.deep_view().take(i + 1) =~= names.deep_view().take(i as int).push(
                names.deep_view()[i as int],
            ));
        }
        i += 1;
    }
    proof {
        assert(names.deep_view().take(i as int) =~= names.deep_view());
    }
    copy
}

impl LinkWithTagsNew {
    /// Whether the page has to be asked: whether the submission leaves the
    /// title, the description or the tags open.
    pub fn needs_metadata(&self) -> (needed: bool)
        ensures
            needed == (self@.title is None || self@.description is None || self@.tags is None),
    {
        self.title.is_none() || self.description.is_none() || self.tags.is_none()
    }

    /// The address.
    pub fn url(&self) -> (url: &str)
        ensures
            url@ == self@.url,
    {
        self.url.as_str()
    }

    /// The title, the description and the tags of the draft that this
    /// submission makes with `metatag`.
    pub(crate) fn texts(&self, metatag: &Metatag) -> (texts: (String, String, Vec<String>))
        ensures
            forall|now: i64|
                {
                    let draft = #[trigger] drafted(self@, metatag@, now);
                    &&& texts.0@ == draft.title
                    &&& texts.1@ == draft.description
                    &&& texts.2.deep_view() == draft.tags
                },
    {
        let title = match &self.title {
            Some(title) => title.clone(),
            None => metatag.title().to_owned(),
        };
        let description = match &self.description {
            Some(description) => description.clone(),
            None => metatag.description().to_owned(),
        };
        let tags = match &self.tags {
            Some(tags) => copy_names(tags),
            None => copy_names(metatag.tags()),
        };
        (title, description, tags)
    }

    /// The tags that this submission names, if it names any.
    pub(crate) fn new_tags(&self) -> (tags: Option<Vec<String>>)
        ensures
            tags.deep_view() == self@.tags,
    {
        match &self.tags {
            Some(tags) => Some(copy_names(tags)),
            None => None,
        }
    }

    /// The link `old` with the fields replaced that this submission names.
    /// The identity and the alias stay, the address is always replaced.
    pub(crate) fn applied_to(&self, old: &Link) -> (link: Link)
        ensures
            link@ == (LinkView {
                id: old@.id,
                url: self@.url,
                shorturl: old@.shorturl,
                title: match self@.title {
                    Some(title) => title,
                    None => old@.title,
                },
                description: match self@.description {
                    Some(description) => description,
                    None => old@.description,
                },
                private: match self@.private {
                    Some(private) => private,
                    None => old@.private,
                },
                created: match self@.created {
                    Some(created) => created,
                    None => old@.created,
                },
                updated: match self@.updated {
                    Some(updated) => updated,
                    None => old@.updated,
                },
            }),
    {
        Link {
            id: old.id,
            url: self.url.clone(),
            shorturl: old.shorturl.clone(),
            title: match &self.title {
                Some(title) => title.clone(),
                None => old.title.clone(),
            },
            description: match &self.description {
                Some(description) => description.clone(),
                None => old.description.clone(),
            },
            private: match self.private {
                Some(private) => private,
                None => old.private,
            },
            created: match self.created {
                Some(created) => created,
                None => old.created,
            },
            updated: match self.updated {
                Some(updated) => updated,
                None => old.updated,
            },
        }
    }

    /// The visibility and the two timestamps of the draft that this
    /// submission makes at `now`.
    pub(crate) fn marks(&self, now: i64) -> (marks: (bool, i64, i64))
        ensures
            forall|metatag: MetatagView|
                {
                    let draft = #[trigger] drafted(self@, metatag, now);
                    &&& marks.0 == draft.private
                    &&& marks.1 == draft.created
                    &&& marks.2 == draft.updated
                },
    {
        let private = match self.private {
            Some(private) => private,
            None => true,
        };
        let created = match self.created {
            Some(created) => created,
            None => now,
        };
        let updated = match self.updated {
            Some(updated) => updated,
            None => now,
        };
        (private, created, updated)
    }
}

/// The position of the link with identity `id`.
pub(crate) fn link_position(links: &Vec<Link>, id: i64) -> (found: Option<usize>)
    ensures
        match found {
            Some(i) => i < links.len() && links.deep_view()[i as int].id == id,
            None => !has_link(links.deep_view(), id),
        },
{
    let mut i: usize = 0;
    while i < links.len()
        invariant
            i <= links.len(),
            forall|k: int| 0 <= k < i ==> (#[trigger] links.deep_view()[k]).id != id,
        decreases links.len() - i,
    {
        if links[i].id == id {
            return Some(i);
        }
        i += 1;
    }
    None
}

} // verus!
