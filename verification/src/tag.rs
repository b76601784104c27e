//! Tags: unique names that links are filed under.

use vstd::prelude::*;
use vstd::std_specs::cmp::PartialEqSpecImpl;
use vstd::string::*;

verus! {

/// A tag as the catalog holds it.
#[derive(Debug, Eq)]
pub struct Tag {
    pub id: i64,
    pub name: String,
}

/// The mathematical content of a [`Tag`].
pub struct TagView {
    pub id: i64,
    pub name: Seq<char>,
}

impl View for Tag {
    type V = TagView;

    open spec fn view(&self) -> TagView {
        TagView { id: self.id, name: self.name@ }
    }
}

impl DeepView for Tag {
    type V = TagView;

    open spec fn deep_view(&self) -> TagView {
        self@
    }
}

impl Clone for Tag {
    fn clone(&self) -> (copy: Tag)
        ensures
            copy@ == self@,
    {
        Tag { id: self.id, name: self.name.clone() }
    }
}

impl PartialEq for Tag {
    fn eq(&self, other: &Tag) -> (same: bool) {
        self.id == other.id && self.name == other.name
    }
}

impl PartialEqSpecImpl for Tag {
    open spec fn obeys_eq_spec() -> bool {
        true
    }

    open spec fn eq_spec(&self, other: &Tag) -> bool {
        self.id == other.id && self.name@ == other.name@
    }
}

/// A tag's name with the number of associations that name the tag.
#[derive(Debug)]
pub struct TagWithOccurrences {
    name: String,
    occurrences: i64,
}

/// The mathematical content of a [`TagWithOccurrences`].
pub struct TagWithOccurrencesView {
    pub name: Seq<char>,
    pub occurrences: i64,
}

impl View for TagWithOccurrences {
    type V = TagWithOccurrencesView;

    closed spec fn view(&self) -> TagWithOccurrencesView {
        TagWithOccurrencesView { name: self.name@, occurrences: self.occurrences }
    }
}

impl DeepView for TagWithOccurrences {
    type V = TagWithOccurrencesView;

    open spec fn deep_view(&self) -> TagWithOccurrencesView {
        self@
    }
}

impl TagWithOccurrences {
    /// A name with its count.
    pub fn new(name: String, occurrences: i64) -> (row: TagWithOccurrences)
        ensures
            row@ == (TagWithOccurrencesView { name: name@, occurrences }),
    {
        TagWithOccurrences { name, occurrences }
    }

    /// The tag's name.
    pub fn name(&self) -> (name: &str)
        ensures
            name@ == self@.name,
    {
        self.name.as_str()
    }

    /// The number of associations that name the tag.
    pub fn occurrences(&self) -> (count: i64)
        ensures
            count == self@.occurrences,
    {
        self.occurrences
    }
}

} // verus!
