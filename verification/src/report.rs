//! What a walk has to report besides the index: how far it has come, and
//! which entries it passed over, and why.

use vstd::prelude::*;
use crate::order::{arrange, lemma_order_in_range, order_of, places, views};
use crate::scan::{Entry, EntryView, Found, FoundView, Scan, ScanView};
use crate::walk::{counted, lemma_counted_step, visited, visited_upto, visits_of};

verus! {

/// Progress is reported at every visit whose count is a multiple of this.
pub const CADENCE: u32 = 100;

/// Why the walk passed over an entry.
#[derive(Clone, Copy, Debug, PartialEq, Eq, Structural)]
pub enum Cause {
    /// The entry, or the directory to be listed, could not be read.
    EntryAccessFailure,
    /// The entry's path is not valid text.
    PathEncodingFailure,
    /// The entry is neither a file nor a directory.
    NotFileOrDirectory,
}

/// One thing that a walk reports.
#[derive(Debug)]
pub enum Event {
    /// The number of entries visited before this one.
    Progress(u32),
    /// The entry at `path` was passed over.
    Skipped { path: String, cause: Cause },
}

/// The mathematical value of an `Event`.
pub enum EventView {
    Progress(u32),
    Skipped { path: Seq<char>, cause: Cause },
}

impl View for Event {
    type V = EventView;

    open spec fn view(&self) -> EventView {
        match self {
            Event::Progress(count) => EventView::Progress(*count),
            Event::Skipped { path, cause } => EventView::Skipped { path: path@, cause: *cause },
        }
    }
}

/// The report of progress that is due at a visit before which `count`
/// entries were visited: one at every multiple of the cadence.
pub open spec fn progress_at(count: u32) -> Seq<EventView> {
    if count % CADENCE == 0 {
        seq![EventView::Progress(count)]
    } else {
        Seq::empty()
    }
}

/// What the walk reports at one entry, visited after `count` others:
/// progress where it is due, then why the entry was passed over, or, for a
/// directory, all that is reported below it. A file is never reported,
/// admitted or not.
pub open spec fn events_of(entry: EntryView, count: u32) -> Seq<EventView>
    decreases entry, 0int,
{
    progress_at(count) + match entry.found {
        FoundView::File => Seq::empty(),
        FoundView::Directory(below) => events(below, entry.path, counted(count, 1)),
        FoundView::Other => seq![
            EventView::Skipped { path: entry.path, cause: Cause::NotFileOrDirectory },
        ],
        FoundView::Unreadable => seq![
            EventView::Skipped { path: entry.path, cause: Cause::EntryAccessFailure },
        ],
        FoundView::NotText => seq![
            EventView::Skipped { path: entry.path, cause: Cause::PathEncodingFailure },
        ],
    }
}

/// What the walk reports at and below the first `k` entries, taken in
/// order, where `start` entries were visited before them.
pub open spec fn events_upto(entries: Seq<EntryView>, start: u32, k: int) -> Seq<EventView>
    decreases entries, k,
{
    if 0 < k <= entries.len() {
        let at = order_of(entries)[k - 1];
        let before = events_upto(entries, start, k - 1);
        if 0 <= at < entries.len() {
            before + events_of(entries[at], counted(start, visited_upto(entries, k - 1)))
        } else {
            before
        }
    } else {
        Seq::empty()
    }
}

/// What the walk reports of the reading `scan` of the directory `dir`,
/// where `start` entries were visited before. A directory that could not be
/// listed is reported as one entry passed over.
pub open spec fn events(scan: ScanView, dir: Seq<char>, start: u32) -> Seq<EventView>
    decreases scan, 0int,
{
    match scan {
        ScanView::Listed(entries) => events_upto(entries, start, entries.len() as int),
        ScanView::Failed => progress_at(start) + seq![
            EventView::Skipped { path: dir, cause: Cause::EntryAccessFailure },
        ],
    }
}

/// The counter after one more visit, and the progress to report at it.
fn visit(count: &mut u32, log: &mut Vec<Event>)
    ensures
        *final(count) == counted(*old(count), 1),
        views(final(log)@) == views(old(log)@) + progress_at(*old(count)),
{
    if *count % CADENCE == 0 {
        log.push(Event::Progress(*count));
    }
    *count = if *count == u32::MAX {
        0
    } else {
        *count + 1
    };
}

/// Appends to `log` what the walk reports of the reading `scan` of the
/// directory `dir`, in the order of the walk, and counts the visits in
/// `count`.
#[verifier::loop_isolation(false)]
pub fn report_rec(dir: &str, scan: &Scan, count: &mut u32, log: &mut Vec<Event>)
    ensures
        views(final(log)@) == views(old(log)@) + events(scan@, dir@, *old(count)),
        *final(count) == counted(*old(count), visited(scan@)),
    decreases scan,
{
    let ghost start = *count;
    let ghost told = views(log@);
    match scan {
        Scan::Failed => {
            visit(count, log);
            let ghost row = views(log@);
            log.push(Event::Skipped { path: dir.to_owned(), cause: Cause::EntryAccessFailure });
            assert(views(log@) =~= row.push(
                EventView::Skipped { path: dir@, cause: Cause::EntryAccessFailure },
            ));
        },
        Scan::Listed(entries) => {
            let ghost all = scan@->Listed_0;
            let order = arrange(entries);
            proof {
                assert(views(entries@) =~= all);
                lemma_order_in_range(all);
                lemma_counted_step(start, 0, 0);
            }
            let mut k: usize = 0;
            while k < order.len()
                invariant
                    k <= order.len(),
                    order.len() == entries.len(),
                    places(order@) == order_of(all),
                    views(log@) == told + events_upto(all, start, k as int),
                    *count == counted(start, visited_upto(all, k as int)),
                decreases order.len() - k,
            {
                assert(places(order@)[k as int] == order[k as int]);
                let at = order[k];
                let entry = &entries[at];
                let ghost seen = visited_upto(all, k as int);
                let ghost count_before = *count;
                visit(count, log);
                proof {
                    lemma_counted_step(start, seen, 1);
                }
                let cause = match &entry.found {
                    Found::File => None,
                    Found::Directory(below) => {
                        report_rec(entry.path.as_str(), below, count, log);
                        proof {
                            lemma_counted_step(start, seen + 1, visited(below@));
                        }
                        None
                    },
                    Found::Other => Some(Cause::NotFileOrDirectory),
                    Found::Unreadable => Some(Cause::EntryAccessFailure),
                    Found::NotText => Some(Cause::PathEncodingFailure),
                };
                if let Some(cause) = cause {
                    let ghost shown = views(log@);
                    log.push(Event::Skipped { path: entry.path.clone(), cause });
                    assert(views(log@) =~= shown.push(
                        EventView::Skipped { path: entry.path@, cause },
                    ));
                }
                proof {
                    assert(visited_upto(all, k + 1) == seen + visits_of(all[at as int]));
                    assert(events_upto(all, start, k + 1) == events_upto(all, start, k as int)
                        + events_of(all[at as int], count_before));
                }
                k += 1;
            }
        },
    }
}

/// What a walk of the reading `scan` of the directory `root` reports, from
/// its first visit on.
pub fn report(root: &str, scan: &Scan) -> (log: Vec<Event>)
    ensures
        views(log@) == events(scan@, root@, 0),
{
    let mut log: Vec<Event> = Vec::new();
    let mut count: u32 = 0;
    report_rec(root, scan, &mut count, &mut log);
    log
}

} // verus!
