//! Retrieval: which part of a result a caller sees, and which links a search
//! selects.
//!
//! Every parameter of a search is optional, and a parameter that is absent
//! selects everything: a search with no parameters but its page is a listing.

use crate::error::StoreError;
use crate::link::{Link, LinkView};
use crate::text::{
    contains, parse_decimal, parsed_decimal, split_and_trim, split_trimmed, str_contains, str_eq,
};
use vstd::prelude::*;
use vstd::string::*;

verus! {

/// The part of a result that a caller asked for.
#[derive(Debug, Clone, Copy, PartialEq, Eq, Structural)]
pub enum Page {
    /// Every row.
    All,
    /// At most `limit` rows, the first of them behind `offset` rows.
    Window { offset: usize, limit: usize },
}

/// The rows of `rows` that `page` shows.
pub open spec fn page_of<T>(rows: Seq<T>, page: Page) -> Seq<T> {
    match page {
        Page::All => rows,
        Page::Window { offset, limit } => {
            let from = if offset <= rows.len() {
                offset as int
            } else {
                rows.len() as int
            };
            let to = if from + limit <= rows.len() {
                from + limit
            } else {
                rows.len() as int
            };
            rows.subrange(from, to)
        },
    }
}

/// The page that the parameters `offset` and `limit` of a request ask for.
///
/// The limit `all` asks for every row, whatever the offset says. Any other
/// limit has to be a decimal numeral, and the offset must not be negative;
/// an absent offset is zero and an absent limit is `default_limit`.
pub open spec fn requested_page(
    offset: Option<i32>,
    limit: Option<Seq<char>>,
    default_limit: usize,
) -> Result<Page, StoreError> {
    if limit == Some("all"@) {
        Ok(Page::All)
    } else {
        let rows = match limit {
            Some(text) => parsed_decimal(text),
            None => Some(default_limit),
        };
        let from = match offset {
            Some(o) => o as int,
            None => 0,
        };
        if rows is Some && from >= 0 {
            Ok(Page::Window { offset: from as usize, limit: rows->0 })
        } else {
            Err(StoreError::Validation)
        }
    }
}

impl Page {
    /// Reads the page out of the parameters of a request; see
    /// [`requested_page`].
    pub fn parse(offset: Option<i32>, limit: Option<&str>, default_limit: usize) -> (page: Result<
        Page,
        StoreError,
    >)
        ensures
            page == requested_page(offset, limit.deep_view(), default_limit),
    {
        let rows = match limit {
            Some(text) => {
                if str_eq(text, "all") {
                    return Ok(Page::All);
                }
                parse_decimal(text)
            },
            None => Some(default_limit),
        };
        let from: i32 = match offset {
            Some(o) => o,
            None => 0,
        };
        match rows {
            Some(n) => {
                if from >= 0 {
                    Ok(Page::Window { offset: from as usize, limit: n })
                } else {
                    Err(StoreError::Validation)
                }
            },
            None => Err(StoreError::Validation),
        }
    }

    /// Cuts `rows` down to this page.
    pub fn cut<T>(&self, rows: Vec<T>) -> (shown: Vec<T>)
        ensures
            shown@ == page_of(rows@, *self),
    {
        match *self {
            Page::All => rows,
            Page::Window { offset, limit } => {
                let ghost given = rows@;
                let mut rows = rows;
                let len = rows.len();
                let from = if offset <= len {
                    offset
                } else {
                    len
                };
                let to = if limit <= len - from {
                    from + limit
                } else {
                    len
                };
                rows.truncate(to);
                let shown = rows.split_off(from);
                assert(shown@ == given.subrange(from as int, to as int));
                shown
            },
        }
    }
}

/// A window never shows more rows than its limit, and what it shows are the
/// rows that follow the first `offset` rows, in their order.
pub proof fn lemma_window<T>(rows: Seq<T>, offset: usize, limit: usize)
    ensures
        page_of(rows, Page::Window { offset, limit }).len() <= limit,
        page_of(rows, Page::Window { offset, limit }).len() <= rows.len(),
        forall|k: int|
            0 <= k < page_of(rows, Page::Window { offset, limit }).len() ==> page_of(
                rows,
                Page::Window { offset, limit },
            )[k] == rows[offset + k],
        offset + limit <= rows.len() ==> page_of(rows, Page::Window { offset, limit }).len()
            == limit,
{
}

/// The limit `all` shows every row, whatever the offset.
pub proof fn lemma_limit_all<T>(rows: Seq<T>, offset: Option<i32>, default_limit: usize)
    ensures
        requested_page(offset, Some("all"@), default_limit) == Ok::<Page, StoreError>(Page::All),
        page_of(rows, Page::All) == rows,
{
}

/// Which links a search looks at, by their visibility.
#[derive(Debug, Clone, Copy, PartialEq, Eq, Structural)]
pub enum Visibility {
    /// Private links and public links.
    All,
    /// Private links only.
    Private,
    /// Public links only.
    Public,
}

/// The visibility that a request names: `private`, `public`, or else all
/// links. An absent parameter, the word `all` and any other word all select
/// every link.
pub open spec fn visibility_named(text: Option<Seq<char>>) -> Visibility {
    if text == Some("private"@) {
        Visibility::Private
    } else if text == Some("public"@) {
        Visibility::Public
    } else {
        Visibility::All
    }
}

/// Whether a search for `visibility` looks at a link whose private flag is
/// `private`.
pub open spec fn covers(visibility: Visibility, private: bool) -> bool {
    match visibility {
        Visibility::All => true,
        Visibility::Private => private,
        Visibility::Public => !private,
    }
}

impl Visibility {
    /// Reads the visibility out of the parameter of a request; see
    /// [`visibility_named`].
    pub fn parse(text: Option<&str>) -> (visibility: Visibility)
        ensures
            visibility == visibility_named(text.deep_view()),
    {
        match text {
            Some(word) => {
                if str_eq(word, "private") {
                    Visibility::Private
                } else if str_eq(word, "public") {
                    Visibility::Public
                } else {
                    Visibility::All
                }
            },
            None => Visibility::All,
        }
    }

    /// Whether a search for this visibility looks at a link whose private
    /// flag is `private`.
    pub fn covers(&self, private: bool) -> (covered: bool)
        ensures
            covered == covers(*self, private),
    {
        match self {
            Visibility::All => true,
            Visibility::Private => private,
            Visibility::Public => !private,
        }
    }
}

/// What a search asks of a link: a term that its title or its description
/// holds, a list of tags of which it has one, and a visibility. A part that
/// is absent asks nothing.
#[derive(Debug)]
pub struct LinkFilter {
    term: Option<String>,
    tags: Option<Vec<String>>,
    visibility: Visibility,
}

/// The mathematical content of a [`LinkFilter`].
pub struct LinkFilterView {
    pub term: Option<Seq<char>>,
    pub tags: Option<Seq<Seq<char>>>,
    pub visibility: Visibility,
}

impl View for LinkFilter {
    type V = LinkFilterView;

    closed spec fn view(&self) -> LinkFilterView {
        LinkFilterView {
            term: self.term.deep_view(),
            tags: self.tags.deep_view(),
            visibility: self.visibility,
        }
    }
}

/// The filter that the parameters of a request make: the term as it is, the
/// tags as the trimmed entries of a list separated by `+`, and the
/// visibility by its name.
pub open spec fn filter_of(
    term: Option<Seq<char>>,
    tags: Option<Seq<char>>,
    visibility: Option<Seq<char>>,
) -> LinkFilterView {
    LinkFilterView {
        term,
        tags: match tags {
            Some(list) => Some(split_trimmed(list, '+')),
            None => None,
        },
        visibility: visibility_named(visibility),
    }
}

/// Whether the title or the description of `link` holds `term`, character
/// for character. An absent term is held by every link.
pub open spec fn term_matches(term: Option<Seq<char>>, link: LinkView) -> bool {
    match term {
        Some(text) => contains(link.title, text) || contains(link.description, text),
        None => true,
    }
}

/// Whether `names` and `tags` have a name in common.
pub open spec fn share_a_name(names: Seq<Seq<char>>, tags: Seq<Seq<char>>) -> bool {
    exists|i: int, j: int|
        0 <= i < names.len() && 0 <= j < tags.len() && #[trigger] names[i] == #[trigger] tags[j]
}

/// Whether one of `wanted` is among `tags`. An absent list is met by every
/// link, an empty list by none.
pub open spec fn tags_match(wanted: Option<Seq<Seq<char>>>, tags: Seq<Seq<char>>) -> bool {
    match wanted {
        Some(names) => share_a_name(names, tags),
        None => true,
    }
}

/// Whether `filter` selects `link`, which is filed under `tags`: the term,
/// the tags and the visibility all have to agree.
pub open spec fn selects(filter: LinkFilterView, link: LinkView, tags: Seq<Seq<char>>) -> bool {
    &&& term_matches(filter.term, link)
    &&& tags_match(filter.tags, tags)
    &&& covers(filter.visibility, link.private)
}

/// Whether `name` is among `tags`.
fn is_among(name: &str, tags: &Vec<String>) -> (found: bool)
    ensures
        found == exists|j: int| 0 <= j < tags.len() && name@ == #[trigger] tags.deep_view()[j],
{
    let mut j: usize = 0;
    while j < tags.len()
        invariant
            j <= tags.len(),
            forall|k: int| 0 <= k < j ==> name@ != #[trigger] tags.deep_view()[k],
        decreases tags.len() - j,
    {
        if str_eq(name, tags[j].as_str()) {
            assert(name@ == tags.deep_view()[j as int]);
            return true;
        }
        j += 1;
    }
    false
}

/// Whether one of `names` is among `tags`.
fn any_among(names: &Vec<String>, tags: &Vec<String>) -> (found: bool)
    ensures
        found == share_a_name(names.deep_view(), tags.deep_view()),
{
    let mut i: usize = 0;
    while i < names.len()
        invariant
            i <= names.len(),
            forall|a: int, b: int|
                0 <= a < i && 0 <= b < tags.len() ==> #[trigger] names.deep_view()[a]
                    != #[trigger] tags.deep_view()[b],
        decreases names.len() - i,
    {
        if is_among(names[i].as_str(), tags) {
            proof {
                let j = choose|j: int|
                    0 <= j < tags.len() && names.deep_view()[i as int]
                        == #[trigger] tags.deep_view()[j];
                let ns = names.deep_view();
                let ts = tags.deep_view();
                assert(0 <= i < ns.len() && 0 <= j < ts.len() && ns[i as int] == ts[j]);
            }
            return true;
        }
        i += 1;
    }
    false
}

impl LinkFilter {
    /// Makes the filter out of the parameters of a request; see
    /// [`filter_of`].
    pub fn compile(term: Option<&str>, tags: Option<&str>, visibility: Option<&str>) -> (filter:
        LinkFilter)
        ensures
            filter@ == filter_of(term.deep_view(), tags.deep_view(), visibility.deep_view()),
    {
        let term = match term {
            Some(text) => Some(text.to_owned()),
            None => None,
        };
        let tags = match tags {
            Some(list) => Some(split_and_trim(list, '+')),
            None => None,
        };
        LinkFilter { term, tags, visibility: Visibility::parse(visibility) }
    }

    /// Whether this filter selects `link`, which is filed under `tags`; see
    /// [`selects`].
    pub fn selects(&self, link: &Link, tags: &Vec<String>) -> (selected: bool)
        ensures
            selected == selects(self@, link@, tags.deep_view()),
    {
        let term_ok = match &self.term {
            Some(text) => str_contains(link.title.as_str(), text.as_str()) || str_contains(
                link.description.as_str(),
                text.as_str(),
            ),
            None => true,
        };
        if !term_ok {
            return false;
        }
        let tags_ok = match &self.tags {
            Some(names) => any_among(names, tags),
            None => true,
        };
        tags_ok && self.visibility.covers(link.private)
    }
}

/// A request for the visibility `all`, a request for no visibility and a
/// request for an unknown visibility select the same links: all of them.
/// A request for `private` selects the private links and no others, a
/// request for `public` the others.
pub proof fn lemma_visibility(text: Option<Seq<char>>, private: bool)
    ensures
        visibility_named(Some("all"@)) == Visibility::All,
        visibility_named(None) == Visibility::All,
        text != Some("private"@) && text != Some("public"@) ==> visibility_named(text)
            == visibility_named(Some("all"@)),
        covers(visibility_named(Some("all"@)), private),
        covers(visibility_named(Some("private"@)), private) <==> private,
        covers(visibility_named(Some("public"@)), private) <==> !private,
{
    reveal_strlit("all");
    reveal_strlit("private");
    reveal_strlit("public");
    assert("all"@.len() != "private"@.len());
    assert("all"@.len() != "public"@.len());
    assert("private"@.len() != "public"@.len());
}

} // verus!
