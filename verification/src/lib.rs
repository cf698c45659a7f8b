//! An in-memory index of a directory subtree, and the tags and deletion marks
//! that a user lays over the files in it.
//!
//! The index is built from a reading of the subtree that the caller has made
//! (`scan`), under an allow-list of file extensions (`filter`), by the walker
//! (`walk`). It is a tree of directories and admitted files together with the
//! flat list of those files (`tree`); what holds between the two and the
//! reading is proved in `walk_laws`, and what the walk passed over is told by
//! `report`. The entries of a directory stand in the natural order of their
//! names (`names`, `order`).
//!
//! The annotation store (`state`) keeps the index and at most one record
//! (`record`) for each path. Records carry tags (`tag`), which are the same
//! tag whatever their letter case (`fold`, `text`); the tags of a store are
//! given in order, each tag once (`tagset`).
//!
//! Nothing here touches the file system.

pub mod filter;
pub mod fold;
pub mod names;
pub mod order;
pub mod record;
pub mod report;
pub mod scan;
pub mod state;
pub mod tag;
pub mod tagset;
pub mod text;
pub mod tree;
pub mod walk;
pub mod walk_laws;

pub use filter::ExtensionFilter;
pub use record::FileInfo;
pub use report::{report, report_rec, Cause, Event};
pub use scan::{Entry, Found, Scan};
pub use state::State;
pub use tag::Tag;
pub use text::Rank;
pub use tree::{Directory, FsNode};
pub use walk::{load, load_rec, LoadError};
