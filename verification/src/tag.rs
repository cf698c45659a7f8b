//! Tags: user labels that are the same label whatever their letter case.

use vstd::prelude::*;
use vstd::std_specs::cmp::PartialEqSpecImpl;
use vstd::std_specs::cmp::PartialOrdSpecImpl;
use vstd::std_specs::convert::FromSpecImpl;
use std::cmp::Ordering;
use std::convert::Infallible;
use std::hash::Hash;
use std::hash::Hasher;
use std::str::FromStr;
use crate::fold::{case_fold, caseless_match, fold_case};
use crate::order::{Precedence, Ranked};
use crate::text::{compare_text, lemma_lex_same, lex_rank, Rank};

verus! {

/// The mathematical value of a tag.
pub struct TagView {
    pub value: Seq<char>,
    pub color: Option<Seq<char>>,
}

impl TagView {
    /// What identifies the tag: the case folding of its value.
    pub open spec fn key(self) -> Seq<char> {
        case_fold(self.value)
    }

    /// Whether two tags are the same tag.
    pub open spec fn same(self, other: TagView) -> bool {
        self.key() == other.key()
    }

    /// Where this tag stands relative to another: the order of their keys
    /// by code point.
    pub open spec fn rank(self, other: TagView) -> Rank {
        lex_rank(self.key(), other.key())
    }
}

impl Precedence for TagView {
    open spec fn follows(self, other: TagView) -> bool {
        self.rank(other) == Rank::After
    }
}

/// The `Ordering` that says what a `Rank` says.
pub open spec fn ordering_of(rank: Rank) -> Ordering {
    match rank {
        Rank::Before => Ordering::Less,
        Rank::Same => Ordering::Equal,
        Rank::After => Ordering::Greater,
    }
}

/// A user label. Two tags are the same tag when their values are equal under
/// Unicode case folding; they are ordered by their folded values; the colour
/// takes no part in either.
#[derive(Debug)]
pub struct Tag {
    color: Option<String>,
    value: String,
}

impl View for Tag {
    type V = TagView;

    closed spec fn view(&self) -> TagView {
        TagView {
            value: self.value@,
            color: match self.color {
                Some(c) => Some(c@),
                None => None,
            },
        }
    }
}

impl Tag {
    /// A tag with the given value and colour.
    pub fn new(value: String, color: Option<String>) -> (tag: Tag)
        ensures
            tag@.value == value@,
            tag@.color == match color {
                Some(c) => Some(c@),
                None => None,
            },
    {
        Tag { color, value }
    }

    /// The tag as it was written, in its own letter case.
    pub fn display(&self) -> (text: String)
        ensures
            text@ == self@.value,
    {
        self.value.clone()
    }

    /// The tag's value, in its own letter case.
    pub fn value(&self) -> (value: &str)
        ensures
            value@ == self@.value,
    {
        self.value.as_str()
    }

    /// The tag's colour, where it has one.
    pub fn color(&self) -> (color: Option<&str>)
        ensures
            match color {
                Some(c) => self@.color == Some(c@),
                None => self@.color is None,
            },
    {
        match &self.color {
            Some(c) => Some(c.as_str()),
            None => None,
        }
    }

    /// The text that stands for the tag where it is hashed: its key.
    pub fn hash_key(&self) -> (key: String)
        ensures
            key@ == self@.key(),
    {
        fold_case(self.value.as_str())
    }

    /// Where this tag stands relative to `other`.
    pub fn rank(&self, other: &Tag) -> (rank: Rank)
        ensures
            rank == self@.rank(other@),
    {
        let mine = fold_case(self.value.as_str());
        let theirs = fold_case(other.value.as_str());
        compare_text(mine.as_str(), theirs.as_str())
    }

    /// Compares this tag with `other` by their keys.
    pub fn cmp(&self, other: &Tag) -> (order: Ordering)
        ensures
            order == ordering_of(self@.rank(other@)),
    {
        match self.rank(other) {
            Rank::Before => Ordering::Less,
            Rank::Same => Ordering::Equal,
            Rank::After => Ordering::Greater,
        }
    }
}

impl Clone for Tag {
    fn clone(&self) -> (copy: Tag)
        ensures
            copy@ == self@,
    {
        Tag { color: self.color.clone(), value: self.value.clone() }
    }
}

impl PartialEq for Tag {
    fn eq(&self, other: &Tag) -> (same: bool) {
        caseless_match(self.value.as_str(), other.value.as_str())
    }
}

impl PartialEqSpecImpl for Tag {
    open spec fn obeys_eq_spec() -> bool {
        true
    }

    open spec fn eq_spec(&self, other: &Tag) -> bool {
        self@.same(other@)
    }
}

impl Eq for Tag {

}

impl PartialOrd for Tag {
    fn partial_cmp(&self, other: &Tag) -> (order: Option<Ordering>) {
        Some(self.cmp(other))
    }
}

impl PartialOrdSpecImpl for Tag {
    open spec fn obeys_partial_cmp_spec() -> bool {
        true
    }

    open spec fn partial_cmp_spec(&self, other: &Tag) -> Option<Ordering> {
        Some(ordering_of(self@.rank(other@)))
    }
}

impl Hash for Tag {
    /// Feeds the tag's key to the hasher, and nothing else.
    fn hash<H: Hasher>(&self, state: &mut H) {
        self.hash_key().hash(state)
    }
}

impl From<&str> for Tag {
    /// The tag with value `s` and no colour.
    fn from(s: &str) -> (tag: Tag)
        ensures
            tag@ == (TagView { value: s@, color: None }),
    {
        Tag { color: None, value: s.to_owned() }
    }
}

impl FromSpecImpl<&str> for Tag {
    /// A tag is known by its view, which `from_spec` cannot give: the
    /// contract of `from` states it.
    open spec fn obeys_from_spec() -> bool {
        false
    }

    open spec fn from_spec(s: &str) -> Tag {
        arbitrary()
    }
}

impl FromStr for Tag {
    type Err = Infallible;

    /// The tag with value `s` and no colour. Every string is a tag.
    fn from_str(s: &str) -> (parsed: Result<Tag, Infallible>)
        ensures
            parsed matches Ok(tag) && tag@ == (TagView { value: s@, color: None }),
    {
        Ok(Tag { color: None, value: s.to_owned() })
    }
}

impl Ranked for &Tag {
    fn follows(&self, other: &&Tag) -> (after: bool) {
        match (*self).rank(*other) {
            Rank::After => true,
            _ => false,
        }
    }
}

/// Tags whose values are equal under case folding are the same tag in every
/// respect: they are equal, they have the same key to hash, and neither
/// comes before the other. Tags whose values fold differently are none of
/// these.
pub proof fn law_folding_decides(a: TagView, b: TagView)
    ensures
        case_fold(a.value) == case_fold(b.value) <==> a.same(b),
        case_fold(a.value) == case_fold(b.value) <==> a.key() == b.key(),
        case_fold(a.value) == case_fold(b.value) <==> a.rank(b) == Rank::Same,
        case_fold(a.value) == case_fold(b.value) <==> ordering_of(a.rank(b)) == Ordering::Equal,
{
    lemma_lex_same(a.key(), b.key());
}

} // verus!
