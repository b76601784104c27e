//! What a fetched page says of itself: its title, its description and its
//! keywords.
//!
//! Fetching is not done here: these functions take the markup as text. Every
//! field that the markup does not hold comes out empty; nothing here fails.

use crate::text::{chars_of, find_first, find_in, split_and_trim, split_trimmed};
use vstd::prelude::*;
use vstd::string::*;

verus! {

/// The metadata of one page.
#[derive(Debug)]
pub struct Metatag {
    url: String,
    pub title: String,
    pub description: String,
    pub tags: Vec<String>,
}

/// The mathematical content of a [`Metatag`].
pub struct MetatagView {
    pub url: Seq<char>,
    pub title: Seq<char>,
    pub description: Seq<char>,
    pub tags: Seq<Seq<char>>,
}

impl View for Metatag {
    type V = MetatagView;

    closed spec fn view(&self) -> MetatagView {
        MetatagView {
            url: self.url@,
            title: self.title@,
            description: self.description@,
            tags: self.tags.deep_view(),
        }
    }
}

/// The text between the first opening tag and the closing tag that follows
/// it, or the empty text where one of them is missing.
///
/// The opening tag is found by its stem, `open` without its last character,
/// so that `<title>` also finds `<title lang="en">`; the text begins behind
/// the next `>`. The search for `>` and for `close` ends where the stem
/// occurs a second time.
pub open spec fn title_text(open: Seq<char>, close: Seq<char>, s: Seq<char>) -> Seq<char> {
    let stem = if open.len() > 0 {
        open.drop_last()
    } else {
        open
    };
    match find_first(s, stem) {
        None => Seq::empty(),
        Some(a) => {
            let after = s.skip(a + stem.len());
            let part = match find_first(after, stem) {
                Some(b) => after.take(b),
                None => after,
            };
            match find_first(part, seq!['>']) {
                None => Seq::empty(),
                Some(g) => {
                    let inner = part.skip(g + 1);
                    match find_first(inner, close) {
                        None => Seq::empty(),
                        Some(e) => inner.take(e),
                    }
                },
            }
        },
    }
}

/// Finds the inner text of the first element that `open` and `close` delimit
/// in `s`; see [`title_text`].
pub fn search_for_title<'a>(open: &str, close: &str, s: &'a str) -> (title: &'a str)
    ensures
        title@ == title_text(open@, close@, s@),
{
    let hay = chars_of(s);
    let mut stem = chars_of(open);
    if stem.len() > 0 {
        stem.pop();
    }
    let closing = chars_of(close);
    let mut gt: Vec<char> = Vec::new();
    gt.push('>');
    let n = hay.len();
    let nothing = s.substring_char(0, 0);
    proof {
        assert(hay@.subrange(0, n as int) == s@);
        assert(gt@ == seq!['>']);
        assert(nothing@ == Seq::<char>::empty());
        assert(stem@ == if open@.len() > 0 {
            open@.drop_last()
        } else {
            open@
        });
    }
    let a = match find_in(&hay, 0, n, &stem) {
        None => {
            return nothing;
        },
        Some(a) => a,
    };
    let from = a + stem.len();
    let ghost after = s@.skip(from as int);
    assert(hay@.subrange(from as int, n as int) == after);
    let until = match find_in(&hay, from, n, &stem) {
        Some(b) => {
            assert(after.take(b - from) == hay@.subrange(from as int, b as int));
            b
        },
        None => n,
    };
    let ghost part = hay@.subrange(from as int, until as int);
    assert(part == match find_first(after, stem@) {
        Some(b) => after.take(b),
        None => after,
    });
    let g = match find_in(&hay, from, until, &gt) {
        None => {
            return nothing;
        },
        Some(g) => g,
    };
    let ghost inner = part.skip(g - from + 1);
    assert(hay@.subrange(g + 1, until as int) == inner);
    match find_in(&hay, g + 1, until, &closing) {
        None => nothing,
        Some(e) => {
            assert(inner.take(e - (g + 1)) == s@.subrange(g + 1, e as int));
            s.substring_char(g + 1, e)
        },
    }
}

#[verifier::external_type_specification]
#[verifier::external_body]
pub struct ExRegexError(regex::Error);

/// The part of the pattern for a `meta` element that stands before the name.
pub const META_PATTERN_HEAD: &'static str = r#"<meta\s+name\s*=\s*""#;

/// The part of the pattern for a `meta` element that stands behind the name:
/// the `content` attribute, whose value is the pattern's first group.
pub const META_PATTERN_TAIL: &'static str = r#""\s+content\s*=\s*"([^"]*)"\s*/*>"#;

/// The regular expression that finds the `meta` element named `meta`.
pub open spec fn meta_pattern(meta: Seq<char>) -> Seq<char> {
    META_PATTERN_HEAD@ + meta + META_PATTERN_TAIL@
}

/// Whether `regex::Regex::new` accepts `pattern` as a regular expression.
pub uninterp spec fn compiles(pattern: Seq<char>) -> bool;

/// What the group `group` of `pattern` holds in the leftmost match of
/// `pattern` in `text`, as `regex::Regex::captures` finds it; `None` where
/// nothing matches, or where the pattern has no such group or the group
/// took no part in the match.
pub uninterp spec fn captured(pattern: Seq<char>, group: usize, text: Seq<char>) -> Option<
    Seq<char>,
>;

/// The group of the pattern for a `meta` element that holds the value.
pub const META_VALUE_GROUP: usize = 1;

/// `regex::Regex::new` on `pattern`, then `regex::Regex::captures` on `text`
/// and `regex::Captures::get` for the group `group`.
///
/// The contract names the two results: the call fails exactly where the
/// pattern does not compile, and otherwise hands back the text of the
/// group. Nothing is claimed of what a pattern matches.
#[verifier::external_body]
fn capture(pattern: &str, group: usize, text: &str) -> (found: Result<
    Option<String>,
    regex::Error,
>)
    ensures
        found is Ok <==> compiles(pattern@),
        found matches Ok(value) ==> value.deep_view() == captured(pattern@, group, text@),
{
    let re = regex::Regex::new(pattern)?;
    Ok(re.captures(text).and_then(|c| c.get(group)).map(|m| m.as_str().to_string()))
}

/// The value of the `content` attribute of the first `meta` element named
/// `meta` in `content`; `None` where there is none, or where `meta` does not
/// make a pattern.
pub open spec fn meta_value(meta: Seq<char>, content: Seq<char>) -> Option<Seq<char>> {
    if compiles(meta_pattern(meta)) {
        captured(meta_pattern(meta), META_VALUE_GROUP, content)
    } else {
        None
    }
}

/// Finds the value of the `meta` element named `meta` in `content`.
pub fn search_for_meta(meta: &str, content: &str) -> (value: Option<String>)
    ensures
        value.deep_view() == meta_value(meta@, content@),
{
    let mut pattern = String::from_str(META_PATTERN_HEAD);
    pattern.append(meta);
    pattern.append(META_PATTERN_TAIL);
    match capture(pattern.as_str(), META_VALUE_GROUP, content) {
        Ok(found) => found,
        Err(_) => None,
    }
}

/// The metadata that the extracted parts of a page make.
pub open spec fn metatag_of(
    url: Seq<char>,
    title: Seq<char>,
    description: Option<Seq<char>>,
    keywords: Option<Seq<char>>,
) -> MetatagView {
    MetatagView {
        url,
        title,
        description: match description {
            Some(text) => text,
            None => Seq::empty(),
        },
        tags: match keywords {
            Some(list) => split_trimmed(list, ','),
            None => Seq::empty(),
        },
    }
}

/// The texts of `names` in a row, with `separator` between each two.
pub open spec fn joined(names: Seq<Seq<char>>, separator: Seq<char>) -> Seq<char>
    decreases names.len(),
{
    if names.len() == 0 {
        Seq::empty()
    } else if names.len() == 1 {
        names[0]
    } else {
        joined(names.drop_last(), separator) + separator + names.last()
    }
}

/// How a [`Metatag`] reads when it is shown: one line for each field, the
/// tags in a row with commas between them.
pub open spec fn shown(metatag: MetatagView) -> Seq<char> {
    "url: "@ + metatag.url + "\ntitle: "@ + metatag.title + "\ndescription: "@
        + metatag.description + "\ntags: "@ + joined(metatag.tags, ", "@)
}

/// Puts `names` in a row, with `separator` between each two.
pub fn join(names: &Vec<String>, separator: &str) -> (row: String)
    ensures
        row@ == joined(names.deep_view(), separator@),
{
    let mut row = String::new();
    let mut i: usize = 0;
    let ghost all = names.deep_view();
    proof {
        assert(all.take(0) =~= Seq::<Seq<char>>::empty());
    }
    while i < names.len()
        invariant
            i <= names.len(),
            all == names.deep_view(),
            row@ == joined(all.take(i as int), separator@),
        decreases names.len() - i,
    {
        proof {
            assert(all.take(i + 1).drop_last() =~= all.take(i as int));
            assert(all.take(i + 1).last() == all[i as int]);
            assert(all.take(1)[0] == all[0]);
        }
        if i > 0 {
            row.append(separator);
        }
        row.append(names[i].as_str());
        proof {
            if i == 0 {
                assert(row@ =~= all[0]);
            }
        }
        i += 1;
    }
    proof {
        assert(all.take(i as int) =~= all);
    }
    row
}

impl Metatag {
    /// How these metadata read when they are shown; see [`shown`].
    pub fn to_string(&self) -> (text: String)
        ensures
            text@ == shown(self@),
    {
        let mut text = String::from_str("url: ");
        text.append(self.url.as_str());
        text.append("\ntitle: ");
        text.append(self.title.as_str());
        text.append("\ndescription: ");
        text.append(self.description.as_str());
        text.append("\ntags: ");
        let row = join(&self.tags, ", ");
        text.append(row.as_str());
        text
    }

    /// The address of the page.
    pub fn url(&self) -> (url: &str)
        ensures
            url@ == self@.url,
    {
        self.url.as_str()
    }

    /// The page's title.
    pub fn title(&self) -> (title: &str)
        ensures
            title@ == self@.title,
    {
        self.title.as_str()
    }

    /// The page's description.
    pub fn description(&self) -> (description: &str)
        ensures
            description@ == self@.description,
    {
        self.description.as_str()
    }

    /// The page's keywords.
    pub fn tags(&self) -> (tags: &Vec<String>)
        ensures
            tags.deep_view() == self@.tags,
    {
        &self.tags
    }

    /// Puts the metadata together from what was found in the markup: a
    /// missing description is empty, and the keywords are the entries of a
    /// comma-separated list, each trimmed, or none where the list is missing.
    pub fn from_parts(
        url: &str,
        title: &str,
        description: Option<String>,
        keywords: Option<String>,
    ) -> (metatag: Metatag)
        ensures
            metatag@ == metatag_of(url@, title@, description.deep_view(), keywords.deep_view()),
    {
        let ghost expected = metatag_of(
            url@,
            title@,
            description.deep_view(),
            keywords.deep_view(),
        );
        let text = match description {
            Some(text) => text,
            None => String::new(),
        };
        let tags = match keywords {
            Some(list) => split_and_trim(list.as_str(), ','),
            None => Vec::new(),
        };
        assert(tags.deep_view() =~= expected.tags);
        Metatag { url: url.to_owned(), title: title.to_owned(), description: text, tags }
    }

    /// Reads the metadata of the page at `url` out of its markup `content`.
    ///
    /// The title is the inner text of the first `title` element, the
    /// description and the keywords are the values of the `meta` elements of
    /// those names.
    pub fn new(url: &str, content: &str) -> (metatag: Metatag)
        ensures
            metatag@ == metatag_of(
                url@,
                title_text("<title>"@, "</title>"@, content@),
                meta_value("description"@, content@),
                meta_value("keywords"@, content@),
            ),
    {
        let title = search_for_title("<title>", "</title>", content);
        let description = search_for_meta("description", content);
        let keywords = search_for_meta("keywords", content);
        Metatag::from_parts(url, title, description, keywords)
    }
}

} // verus!
