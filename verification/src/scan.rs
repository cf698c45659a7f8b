//! What a reading of the file system found below a directory. The walker
//! takes this as its input: reading is left to the caller.

use vstd::prelude::*;
use crate::names::{natural_rank, compare_names};
use crate::order::{Precedence, Ranked};
use crate::text::Rank;

verus! {

/// What was found at one entry of a directory.
#[derive(Debug)]
pub enum Found {
    /// A regular file.
    File,
    /// A directory, with the reading of its own entries.
    Directory(Scan),
    /// Neither a file nor a directory.
    Other,
    /// The entry could not be read.
    Unreadable,
    /// The entry's path is not valid text.
    NotText,
}

/// One entry of a directory.
#[derive(Debug)]
pub struct Entry {
    /// The entry's name within its directory.
    pub name: String,
    /// The entry's full path.
    pub path: String,
    pub found: Found,
}

/// The reading of one directory: its entries in the order they were read,
/// or the fact that it could not be listed.
#[derive(Debug)]
pub enum Scan {
    Listed(Vec<Entry>),
    Failed,
}

/// The mathematical value of a `Found`.
pub enum FoundView {
    File,
    Directory(ScanView),
    Other,
    Unreadable,
    NotText,
}

/// The mathematical value of an `Entry`.
pub struct EntryView {
    pub name: Seq<char>,
    pub path: Seq<char>,
    pub found: FoundView,
}

/// The mathematical value of a `Scan`.
pub enum ScanView {
    Listed(Seq<EntryView>),
    Failed,
}

impl View for Found {
    type V = FoundView;

    open spec fn view(&self) -> FoundView
        decreases self,
    {
        match self {
            Found::File => FoundView::File,
            Found::Directory(scan) => FoundView::Directory(scan@),
            Found::Other => FoundView::Other,
            Found::Unreadable => FoundView::Unreadable,
            Found::NotText => FoundView::NotText,
        }
    }
}

impl View for Entry {
    type V = EntryView;

    open spec fn view(&self) -> EntryView
        decreases self,
    {
        EntryView { name: self.name@, path: self.path@, found: self.found@ }
    }
}

impl View for Scan {
    type V = ScanView;

    open spec fn view(&self) -> ScanView
        decreases self,
    {
        match self {
            Scan::Listed(entries) => ScanView::Listed(
                Seq::new(
                    entries.len() as nat,
                    |i: int|
                        if 0 <= i < entries.len() {
                            entries[i]@
                        } else {
                            EntryView {
                                name: Seq::empty(),
                                path: Seq::empty(),
                                found: FoundView::Other,
                            }
                        },
                ),
            ),
            Scan::Failed => ScanView::Failed,
        }
    }
}

impl Precedence for EntryView {
    /// Entries that could not be read come first, in the order they were
    /// read; the others follow in the natural order of their names.
    open spec fn follows(self, other: EntryView) -> bool {
        if self.found is Unreadable {
            false
        } else if other.found is Unreadable {
            true
        } else {
            natural_rank(self.name, other.name) == Rank::After
        }
    }
}

impl Ranked for Entry {
    fn follows(&self, other: &Entry) -> (after: bool) {
        match (&self.found, &other.found) {
            (Found::Unreadable, _) => false,
            (_, Found::Unreadable) => true,
            _ => match compare_names(self.name.as_str(), other.name.as_str()) {
                Rank::After => true,
                _ => false,
            },
        }
    }
}

} // verus!
