//! What holds of every walk: how the flat list and the tree belong
//! together, and which entries of a reading are found in them.

use vstd::prelude::*;
use crate::filter::admitted;
use crate::order::{lemma_order_in_range, law_order_is_rearrangement, lists, order_of};
use crate::scan::{EntryView, FoundView, ScanView};
use crate::tree::{
    branches, branches_of, leaves, leaves_of, lemma_branches_of_push, lemma_leaves_of_push,
    NodeView,
};
use crate::walk::{files_of, flattened, flattened_upto, kept, kept_upto, node_of};

verus! {

proof fn lemma_flat_is_leaves_upto(entries: Seq<EntryView>, allowed: Set<Seq<char>>, k: int)
    requires
        0 <= k <= entries.len(),
    ensures
        leaves_of(kept_upto(entries, allowed, k)) == flattened_upto(entries, allowed, k),
    decreases entries, k,
{
    if k > 0 {
        lemma_flat_is_leaves_upto(entries, allowed, k - 1);
        lemma_order_in_range(entries);
        let at = order_of(entries)[k - 1];
        let before = kept_upto(entries, allowed, k - 1);
        let entry = entries[at];
        match node_of(entry, allowed) {
            Some(node) => {
                if let FoundView::Directory(below) = entry.found {
                    law_flat_is_leaves(below, allowed);
                }
                assert(leaves(node) =~= files_of(entry, allowed));
                lemma_leaves_of_push(before, node);
            },
            None => {
                assert(files_of(entry, allowed) =~= Seq::empty());
            },
        }
    }
}

/// The flat list holds the files of the tree, all of them and no others, in
/// the order in which they stand in the tree; and these are the files of
/// the reading that the filter admits.
pub proof fn law_flat_is_leaves(scan: ScanView, allowed: Set<Seq<char>>)
    ensures
        flattened(scan, allowed) == leaves_of(kept(scan, allowed)),
    decreases scan, 0int,
{
    match scan {
        ScanView::Listed(entries) => {
            lemma_flat_is_leaves_upto(entries, allowed, entries.len() as int);
        },
        ScanView::Failed => {},
    }
}

/// Whether `entry` is `at` itself or was read somewhere below it.
pub open spec fn reads_at(at: EntryView, entry: EntryView) -> bool
    decreases at, 0int,
{
    at == entry || match at.found {
        FoundView::Directory(below) => reads(below, entry),
        _ => false,
    }
}

/// Whether `entry` was read at some level of `scan`.
pub open spec fn reads(scan: ScanView, entry: EntryView) -> bool
    decreases scan, 0int,
{
    match scan {
        ScanView::Listed(entries) => exists|i: int|
            0 <= i < entries.len() && reads_at(#[trigger] entries[i], entry),
        ScanView::Failed => false,
    }
}

/// Whether `node` is a file that was read at some level of `scan` and that
/// the allow-list admits.
pub open spec fn admitted_file(scan: ScanView, allowed: Set<Seq<char>>, node: NodeView) -> bool {
    exists|entry: EntryView|
        #[trigger] reads(scan, entry) && entry.found is File && admitted(allowed, entry.name)
            && node == NodeView::File(entry.path)
}

proof fn lemma_flat_sound_upto(
    entries: Seq<EntryView>,
    allowed: Set<Seq<char>>,
    k: int,
    i: int,
) -> (entry: EntryView)
    requires
        0 <= k <= entries.len(),
        0 <= i < flattened_upto(entries, allowed, k).len(),
    ensures
        reads(ScanView::Listed(entries), entry),
        entry.found is File,
        admitted(allowed, entry.name),
        flattened_upto(entries, allowed, k)[i] == NodeView::File(entry.path),
    decreases entries, k,
{
    lemma_order_in_range(entries);
    let at = order_of(entries)[k - 1];
    let before = flattened_upto(entries, allowed, k - 1);
    // The first `k` entries give `before`, and behind it the files of the
    // entry at `at`: the file sought is among the one or the other.
    assert(flattened_upto(entries, allowed, k) == before + files_of(entries[at], allowed));
    if i < before.len() {
        lemma_flat_sound_upto(entries, allowed, k - 1, i)
    } else {
        let entry = match entries[at].found {
            FoundView::Directory(below) => lemma_flat_sound(below, allowed, i - before.len()),
            _ => entries[at],
        };
        assert(reads_at(entries[at], entry));
        assert(ScanView::Listed(entries)->Listed_0 == entries);
        entry
    }
}

proof fn lemma_flat_sound(scan: ScanView, allowed: Set<Seq<char>>, i: int) -> (entry: EntryView)
    requires
        0 <= i < flattened(scan, allowed).len(),
    ensures
        reads(scan, entry),
        entry.found is File,
        admitted(allowed, entry.name),
        flattened(scan, allowed)[i] == NodeView::File(entry.path),
    decreases scan, 0int,
{
    match scan {
        ScanView::Listed(entries) => lemma_flat_sound_upto(
            entries,
            allowed,
            entries.len() as int,
            i,
        ),
        ScanView::Failed => arbitrary(),
    }
}

proof fn lemma_flat_grows(entries: Seq<EntryView>, allowed: Set<Seq<char>>, k: int, n: int)
    requires
        0 <= k <= n <= entries.len(),
    ensures
        flattened_upto(entries, allowed, k).is_prefix_of(flattened_upto(entries, allowed, n)),
    decreases n - k,
{
    if k < n {
        lemma_flat_grows(entries, allowed, k, n - 1);
    }
}

proof fn lemma_flat_complete(scan: ScanView, allowed: Set<Seq<char>>, entry: EntryView)
    requires
        reads(scan, entry),
        entry.found is File,
        admitted(allowed, entry.name),
    ensures
        flattened(scan, allowed).contains(NodeView::File(entry.path)),
    decreases scan, 0int,
{
    let entries = scan->Listed_0;
    let node = NodeView::File(entry.path);
    let i = choose|i: int| 0 <= i < entries.len() && reads_at(#[trigger] entries[i], entry);
    law_order_is_rearrangement(entries);
    assert(lists(order_of(entries), i));
    let k = choose|k: int| 0 <= k < order_of(entries).len() && #[trigger] order_of(entries)[k] == i;
    let given = files_of(entries[i], allowed);
    assert(given.contains(node)) by {
        if entries[i] == entry {
            assert(given[0] == node);
        } else {
            let below = entries[i].found->Directory_0;
            lemma_flat_complete(below, allowed, entry);
        }
    }
    let at = choose|at: int| 0 <= at < given.len() && given[at] == node;
    let before = flattened_upto(entries, allowed, k);
    let upto = flattened_upto(entries, allowed, k + 1);
    assert(upto[before.len() + at] == node);
    lemma_flat_grows(entries, allowed, k + 1, entries.len() as int);
}

/// The flat list holds exactly the files that were read at some level and
/// that the filter admits.
pub proof fn law_flat_is_admitted_files(scan: ScanView, allowed: Set<Seq<char>>)
    ensures
        forall|node: NodeView|
            flattened(scan, allowed).contains(node) <==> admitted_file(scan, allowed, node),
{
    assert forall|node: NodeView|
        flattened(scan, allowed).contains(node) <==> admitted_file(scan, allowed, node) by {
        if flattened(scan, allowed).contains(node) {
            let i = choose|i: int|
                0 <= i < flattened(scan, allowed).len() && flattened(scan, allowed)[i] == node;
            let entry = lemma_flat_sound(scan, allowed, i);
        }
        if admitted_file(scan, allowed, node) {
            let entry = choose|entry: EntryView|
                #[trigger] reads(scan, entry) && entry.found is File && admitted(
                    allowed,
                    entry.name,
                ) && node == NodeView::File(entry.path);
            lemma_flat_complete(scan, allowed, entry);
        }
    }
}

/// The directories that one entry stands for: itself, where it is one, and
/// those read below it.
pub open spec fn folders_of(entry: EntryView) -> Seq<Seq<char>>
    decreases entry, 0int,
{
    match entry.found {
        FoundView::Directory(below) => seq![entry.path] + folders(below),
        _ => Seq::empty(),
    }
}

/// The directories at and below the first `k` entries, taken in order.
pub open spec fn folders_upto(entries: Seq<EntryView>, k: int) -> Seq<Seq<char>>
    decreases entries, k,
{
    if 0 < k <= entries.len() {
        let at = order_of(entries)[k - 1];
        let before = folders_upto(entries, k - 1);
        if 0 <= at < entries.len() {
            before + folders_of(entries[at])
        } else {
            before
        }
    } else {
        Seq::empty()
    }
}

/// The paths of all directories of a reading, in the order in which the walk
/// meets them, whatever they hold.
pub open spec fn folders(scan: ScanView) -> Seq<Seq<char>>
    decreases scan, 0int,
{
    match scan {
        ScanView::Listed(entries) => folders_upto(entries, entries.len() as int),
        ScanView::Failed => Seq::empty(),
    }
}

proof fn lemma_directories_kept_upto(entries: Seq<EntryView>, allowed: Set<Seq<char>>, k: int)
    requires
        0 <= k <= entries.len(),
    ensures
        branches_of(kept_upto(entries, allowed, k)) == folders_upto(entries, k),
    decreases entries, k,
{
    if k > 0 {
        lemma_directories_kept_upto(entries, allowed, k - 1);
        lemma_order_in_range(entries);
        let at = order_of(entries)[k - 1];
        let before = kept_upto(entries, allowed, k - 1);
        let entry = entries[at];
        match node_of(entry, allowed) {
            Some(node) => {
                if let FoundView::Directory(below) = entry.found {
                    law_directories_kept(below, allowed);
                }
                assert(branches(node) =~= folders_of(entry));
                lemma_branches_of_push(before, node);
            },
            None => {
                assert(folders_of(entry) =~= Seq::empty());
            },
        }
    }
}

/// Every directory of the reading stands in the tree, at its place in the
/// walk, whether or not the filter admits anything in it: the directories
/// of the tree are those of the reading, whatever the filter.
pub proof fn law_directories_kept(scan: ScanView, allowed: Set<Seq<char>>)
    ensures
        branches_of(kept(scan, allowed)) == folders(scan),
    decreases scan, 0int,
{
    match scan {
        ScanView::Listed(entries) => {
            lemma_directories_kept_upto(entries, allowed, entries.len() as int);
        },
        ScanView::Failed => {},
    }
}

} // verus!
