//! The walker: from the reading of a directory subtree and an extension
//! filter to the indexed tree and the flat list of admitted files.

use vstd::prelude::*;
use crate::filter::{admitted, lowered, ExtensionFilter};
use crate::order::{arrange, lemma_order_in_range, order_of, places, views};
use crate::scan::{Entry, EntryView, Found, FoundView, Scan, ScanView};
use crate::tree::{branches_of, leaves_of, Directory, DirectoryView, FsNode, NodeView};
use crate::walk_laws::{folders, law_directories_kept, law_flat_is_leaves};

verus! {

/// Why a walk could not be made at all.
#[derive(Clone, Copy, Debug, PartialEq, Eq, Structural)]
pub enum LoadError {
    /// The root itself could not be listed.
    RootAccessFailure,
}

/// What one entry adds to the directory that holds it: a file that the
/// allow-list admits, a directory with all that was kept below it, and
/// nothing for anything else.
pub open spec fn node_of(entry: EntryView, allowed: Set<Seq<char>>) -> Option<NodeView>
    decreases entry, 0int,
{
    match entry.found {
        FoundView::File => if admitted(allowed, entry.name) {
            Some(NodeView::File(entry.path))
        } else {
            None
        },
        FoundView::Directory(below) => Some(
            NodeView::Directory(DirectoryView { this: entry.path, entries: kept(below, allowed) }),
        ),
        _ => None,
    }
}

/// What the first `k` entries, taken in order, add to their directory.
///
/// Here and in the definitions like it, the place that `order_of` gives is
/// tested to lie among the entries. It always does (`lemma_order_in_range`);
/// the test is there so that the definition can be seen to end.
pub open spec fn kept_upto(entries: Seq<EntryView>, allowed: Set<Seq<char>>, k: int) -> Seq<
    NodeView,
>
    decreases entries, k,
{
    if 0 < k <= entries.len() {
        let at = order_of(entries)[k - 1];
        let before = kept_upto(entries, allowed, k - 1);
        if 0 <= at < entries.len() {
            match node_of(entries[at], allowed) {
                Some(node) => before.push(node),
                None => before,
            }
        } else {
            before
        }
    } else {
        Seq::empty()
    }
}

/// The entries of the indexed directory that a reading gives: its entries in
/// order, the files among them filtered, the directories among them indexed
/// in the same way. Where the natural order is an order on the names read,
/// "in order" is that order, and it is stable (`law_arranged_in_order`).
pub open spec fn kept(scan: ScanView, allowed: Set<Seq<char>>) -> Seq<NodeView>
    decreases scan, 0int,
{
    match scan {
        ScanView::Listed(entries) => kept_upto(entries, allowed, entries.len() as int),
        ScanView::Failed => Seq::empty(),
    }
}

/// The admitted files that one entry adds to the flat list: itself, or those
/// below it.
pub open spec fn files_of(entry: EntryView, allowed: Set<Seq<char>>) -> Seq<NodeView>
    decreases entry, 0int,
{
    match entry.found {
        FoundView::File => if admitted(allowed, entry.name) {
            seq![NodeView::File(entry.path)]
        } else {
            Seq::empty()
        },
        FoundView::Directory(below) => flattened(below, allowed),
        _ => Seq::empty(),
    }
}

/// The admitted files at and below the first `k` entries, taken in order.
pub open spec fn flattened_upto(entries: Seq<EntryView>, allowed: Set<Seq<char>>, k: int) -> Seq<
    NodeView,
>
    decreases entries, k,
{
    if 0 < k <= entries.len() {
        let at = order_of(entries)[k - 1];
        let before = flattened_upto(entries, allowed, k - 1);
        if 0 <= at < entries.len() {
            before + files_of(entries[at], allowed)
        } else {
            before
        }
    } else {
        Seq::empty()
    }
}

/// The admitted files of a reading, in the order in which the walk meets
/// them: each directory's entries in order, a subdirectory's files at the
/// place of the subdirectory.
pub open spec fn flattened(scan: ScanView, allowed: Set<Seq<char>>) -> Seq<NodeView>
    decreases scan, 0int,
{
    match scan {
        ScanView::Listed(entries) => flattened_upto(entries, allowed, entries.len() as int),
        ScanView::Failed => Seq::empty(),
    }
}

/// How many entries the walk visits at one entry: the entry, and all that
/// was read below it.
pub open spec fn visits_of(entry: EntryView) -> nat
    decreases entry, 0int,
{
    match entry.found {
        FoundView::Directory(below) => 1 + visited(below),
        _ => 1,
    }
}

/// How many entries the walk visits at and below the first `k` entries.
pub open spec fn visited_upto(entries: Seq<EntryView>, k: int) -> nat
    decreases entries, k,
{
    if 0 < k <= entries.len() {
        let at = order_of(entries)[k - 1];
        let before = visited_upto(entries, k - 1);
        if 0 <= at < entries.len() {
            before + visits_of(entries[at])
        } else {
            before
        }
    } else {
        0
    }
}

/// How many entries the walk visits in a reading. A directory that could not
/// be listed counts as one.
pub open spec fn visited(scan: ScanView) -> nat
    decreases scan, 0int,
{
    match scan {
        ScanView::Listed(entries) => visited_upto(entries, entries.len() as int),
        ScanView::Failed => 1,
    }
}

/// The counter after `n` more visits, wrapping as a `u32` does.
pub open spec fn counted(start: u32, n: nat) -> u32 {
    ((start + n) % 0x1_0000_0000) as u32
}

/// Counting `n` visits and then `m` more is counting `n + m`.
pub proof fn lemma_counted_step(start: u32, n: nat, m: nat)
    ensures
        counted(counted(start, n), m) == counted(start, n + m),
{
    let a = start + n;
    vstd::arithmetic::div_mod::lemma_add_mod_noop(a as int, m as int, 0x1_0000_0000);
    vstd::arithmetic::div_mod::lemma_small_mod(
        (m as int % 0x1_0000_0000) as nat,
        0x1_0000_0000,
    );
    vstd::arithmetic::div_mod::lemma_add_mod_noop(
        a as int % 0x1_0000_0000,
        m as int,
        0x1_0000_0000,
    );
    vstd::arithmetic::div_mod::lemma_mod_twice(a as int, 0x1_0000_0000);
}

/// Walks one directory level of a reading and, through itself, all levels
/// below. Entries are taken in order. An admitted file is appended to
/// `parent` and to `flat`; a directory is walked into a node of its own,
/// which is appended to `parent`, while its admitted files go to `flat`;
/// anything else is passed over. `count` goes up by one for every entry
/// visited.
#[verifier::loop_isolation(false)]
pub fn load_rec(
    parent: &mut Directory,
    flat: &mut Directory,
    scan: &Scan,
    filter: &ExtensionFilter,
    count: &mut u32,
)
    ensures
        final(parent)@.this == old(parent)@.this,
        final(parent)@.entries == old(parent)@.entries + kept(scan@, filter@),
        final(flat)@.this == old(flat)@.this,
        final(flat)@.entries == old(flat)@.entries + flattened(scan@, filter@),
        *final(count) == counted(*old(count), visited(scan@)),
    decreases scan,
{
    match scan {
        Scan::Failed => {
            *count = if *count == u32::MAX {
                0
            } else {
                *count + 1
            };
            assert(flat@.entries =~= old(flat)@.entries + flattened(scan@, filter@));
        },
        Scan::Listed(entries) => {
            let ghost all = scan@->Listed_0;
            let ghost allowed = filter@;
            let order = arrange(entries);
            proof {
                assert(views(entries@) =~= all);
                lemma_order_in_range(all);
                lemma_counted_step(*old(count), 0, 0);
            }
            let mut k: usize = 0;
            while k < order.len()
                invariant
                    k <= order.len(),
                    order.len() == entries.len(),
                    places(order@) == order_of(all),
                    parent@.this == old(parent)@.this,
                    parent@.entries == old(parent)@.entries + kept_upto(all, allowed, k as int),
                    flat@.this == old(flat)@.this,
                    flat@.entries == old(flat)@.entries + flattened_upto(all, allowed, k as int),
                    *count == counted(*old(count), visited_upto(all, k as int)),
                decreases order.len() - k,
            {
                assert(places(order@)[k as int] == order[k as int]);
                let at = order[k];
                let entry = &entries[at];
                let ghost seen = visited_upto(all, k as int);
                *count = if *count == u32::MAX {
                    0
                } else {
                    *count + 1
                };
                proof {
                    lemma_counted_step(*old(count), seen, 1);
                }
                match &entry.found {
                    Found::File => {
                        assert(all[at as int].found == FoundView::File);
                        if filter.admits(entry.name.as_str()) {
                            parent.push(FsNode::File(entry.path.clone()));
                            flat.push(FsNode::File(entry.path.clone()));
                            assert(files_of(all[at as int], allowed) =~= seq![
                                NodeView::File(entry.path@),
                            ]);
                        } else {
                            assert(files_of(all[at as int], allowed) =~= Seq::empty());
                        }
                    },
                    Found::Directory(below) => {
                        let mut dir = Directory::new(entry.path.clone());
                        load_rec(&mut dir, flat, below, filter, count);
                        proof {
                            lemma_counted_step(*old(count), seen + 1, visited(below@));
                        }
                        parent.push(FsNode::Directory(dir));
                        assert(files_of(all[at as int], allowed) == flattened(below@, allowed));
                    },
                    _ => {
                        assert(node_of(all[at as int], allowed) is None);
                        assert(files_of(all[at as int], allowed) =~= Seq::empty());
                    },
                }
                proof {
                    assert(visited_upto(all, k + 1) == seen + visits_of(all[at as int]));
                }
                k += 1;
            }
        },
    }
}

/// Indexes the reading `scan` of the directory `root`, admitting the files
/// whose extension is among `extensions`, whatever its letter case. Returns
/// the tree and the flat list, both rooted at `root`; fails where the root
/// itself could not be listed, and only there. The flat list holds the
/// files of the tree in the order in which they stand there, and the tree
/// holds every directory of the reading, whatever the filter admits.
pub fn load(root: &str, scan: &Scan, extensions: Vec<String>) -> (loaded: Result<
    (Directory, Directory),
    LoadError,
>)
    ensures
        match loaded {
            Ok((tree, flat)) => {
                &&& scan@ is Listed
                &&& tree@ == (DirectoryView {
                    this: root@,
                    entries: kept(scan@, lowered(extensions@)),
                })
                &&& flat@ == (DirectoryView {
                    this: root@,
                    entries: flattened(scan@, lowered(extensions@)),
                })
                &&& flat@.entries == leaves_of(tree@.entries)
                &&& branches_of(tree@.entries) == folders(scan@)
            },
            Err(e) => scan@ is Failed && e == LoadError::RootAccessFailure,
        },
{
    match scan {
        Scan::Failed => Err(LoadError::RootAccessFailure),
        Scan::Listed(_) => {
            let filter = ExtensionFilter::new(extensions);
            let mut tree = Directory::new(root.to_owned());
            let mut flat = Directory::new(root.to_owned());
            let mut count: u32 = 0;
            load_rec(&mut tree, &mut flat, scan, &filter, &mut count);
            proof {
                law_flat_is_leaves(scan@, lowered(extensions@));
                law_directories_kept(scan@, lowered(extensions@));
            }
            Ok((tree, flat))
        },
    }
}

} // verus!
