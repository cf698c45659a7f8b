//! Annotation records: what a user has noted of one file.

use vstd::prelude::*;
use vstd::std_specs::cmp::PartialEqSpecImpl;
use vstd::std_specs::convert::FromSpecImpl;
use crate::order::views;
use crate::tag::{Tag, TagView};
use crate::text::{compare_text, lemma_lex_same, Rank};

verus! {

/// The mathematical value of a record.
pub struct FileInfoView {
    pub path: Seq<char>,
    pub delete: Option<bool>,
    pub tags: Seq<TagView>,
}

impl FileInfoView {
    /// Whether two records say the same: the same path, the same deletion
    /// mark, and the same tags one by one, letter case apart.
    pub open spec fn same(self, other: FileInfoView) -> bool {
        &&& self.path == other.path
        &&& self.delete == other.delete
        &&& self.tags.len() == other.tags.len()
        &&& forall|i: int| 0 <= i < self.tags.len() ==> (#[trigger] self.tags[i]).same(other.tags[i])
    }

    /// Whether anything has been noted of the file: a deletion mark, set
    /// either way, or a tag.
    pub open spec fn touched(self) -> bool {
        self.delete is Some || self.tags.len() > 0
    }

    /// Whether the record is marked for deletion and tagged at once.
    pub open spec fn questionable(self) -> bool {
        self.delete == Some(true) && self.tags.len() > 0
    }
}

/// The record of one file: its path, whether it is marked for deletion, and
/// its tags in the order given.
#[derive(Debug)]
pub struct FileInfo {
    path: String,
    delete: Option<bool>,
    tags: Vec<Tag>,
}

impl View for FileInfo {
    type V = FileInfoView;

    closed spec fn view(&self) -> FileInfoView {
        FileInfoView { path: self.path@, delete: self.delete, tags: views(self.tags@) }
    }
}

impl FileInfo {
    /// A record with the given parts.
    pub fn new(path: String, delete: Option<bool>, tags: Vec<Tag>) -> (info: FileInfo)
        ensures
            info@ == (FileInfoView { path: path@, delete, tags: views(tags@) }),
    {
        FileInfo { path, delete, tags }
    }

    /// The path of the file that the record is about.
    pub fn path(&self) -> (path: &str)
        ensures
            path@ == self@.path,
    {
        self.path.as_str()
    }

    /// Whether the record is about the file at `path`.
    pub fn is_about(&self, path: &str) -> (yes: bool)
        ensures
            yes == (self@.path == path@),
    {
        proof {
            lemma_lex_same(self.path@, path@);
        }
        match compare_text(self.path.as_str(), path) {
            Rank::Same => true,
            _ => false,
        }
    }

    /// The deletion mark: unset, or set to marked or to not marked.
    pub fn delete(&self) -> (delete: Option<bool>)
        ensures
            delete == self@.delete,
    {
        self.delete
    }

    /// Sets or clears the deletion mark. The tags stay as they are.
    pub fn set_delete(&mut self, delete: Option<bool>)
        ensures
            final(self)@ == (FileInfoView { delete, ..old(self)@ }),
    {
        self.delete = delete;
    }

    /// Whether anything has been noted of the file.
    pub fn touched(&self) -> (touched: bool)
        ensures
            touched == self@.touched(),
    {
        self.delete.is_some() || self.tags.len() > 0
    }

    /// Replaces the record's tags by `tags`. The deletion mark stays as it
    /// is.
    pub fn set_tags(&mut self, tags: Vec<Tag>)
        ensures
            final(self)@ == (FileInfoView { tags: views(tags@), ..old(self)@ }),
    {
        self.tags = tags;
    }

    /// The record's tags, in order.
    pub fn tags(&self) -> (tags: &Vec<Tag>)
        ensures
            views(tags@) == self@.tags,
    {
        &self.tags
    }

    /// Whether the record is marked for deletion and carries tags at once,
    /// which calls for a second look.
    pub fn questionable_state(&self) -> (questionable: bool)
        ensures
            questionable == self@.questionable(),
            questionable <==> self@.delete == Some(true) && self@.tags.len() > 0,
    {
        let marked = match self.delete {
            Some(mark) => mark,
            None => false,
        };
        marked && self.tags.len() > 0
    }
}

impl Clone for FileInfo {
    fn clone(&self) -> (copy: FileInfo)
        ensures
            copy@ == self@,
    {
        let mut tags: Vec<Tag> = Vec::new();
        let mut i: usize = 0;
        while i < self.tags.len()
            invariant
                i <= self.tags.len(),
                tags.len() == i,
                forall|k: int| 0 <= k < i ==> (#[trigger] tags[k])@ == self.tags[k]@,
            decreases self.tags.len() - i,
        {
            tags.push(self.tags[i].clone());
            i += 1;
        }
        assert(views(tags@) =~= views(self.tags@));
        FileInfo { path: self.path.clone(), delete: self.delete, tags }
    }
}

impl PartialEq for FileInfo {
    fn eq(&self, other: &FileInfo) -> (same: bool) {
        if !self.is_about(other.path.as_str()) || self.delete != other.delete || self.tags.len()
            != other.tags.len() {
            return false;
        }
        let mut i: usize = 0;
        while i < self.tags.len()
            invariant
                i <= self.tags.len(),
                self.tags.len() == other.tags.len(),
                forall|k: int| 0 <= k < i ==> (#[trigger] self@.tags[k]).same(other@.tags[k]),
            decreases self.tags.len() - i,
        {
            if self.tags[i] != other.tags[i] {
                assert(!self@.tags[i as int].same(other@.tags[i as int]));
                return false;
            }
            i += 1;
        }
        true
    }
}

impl PartialEqSpecImpl for FileInfo {
    open spec fn obeys_eq_spec() -> bool {
        true
    }

    open spec fn eq_spec(&self, other: &FileInfo) -> bool {
        self@.same(other@)
    }
}

impl Eq for FileInfo {

}

impl From<&str> for FileInfo {
    /// The record of the file at `path` of which nothing has been noted yet.
    fn from(path: &str) -> (info: FileInfo)
        ensures
            info@ == (FileInfoView { path: path@, delete: None, tags: Seq::empty() }),
            !info@.touched(),
    {
        let info = FileInfo { path: path.to_owned(), delete: None, tags: Vec::new() };
        assert(info@.tags =~= Seq::empty());
        info
    }
}

impl FromSpecImpl<&str> for FileInfo {
    /// A record is known by its view, which `from_spec` cannot give: the
    /// contract of `from` states it.
    open spec fn obeys_from_spec() -> bool {
        false
    }

    open spec fn from_spec(path: &str) -> FileInfo {
        arbitrary()
    }
}

} // verus!
