//! The annotation store: the index of a directory subtree together with the
//! records that the user has added, at most one for each path.

use vstd::prelude::*;
use crate::order::views;
use crate::record::{FileInfo, FileInfoView};
use crate::scan::Scan;
use crate::tag::{Tag, TagView};
use crate::tagset::{lemma_union_of_none, tag_union, unite};
use crate::tree::{Directory, DirectoryView};
use crate::walk::{flattened, kept, load, LoadError};
use crate::filter::lowered;

verus! {

/// The mathematical value of a store: the tree, the flat list, and the
/// records in the order in which their paths were first added.
pub struct StateView {
    pub root: DirectoryView,
    pub flat: DirectoryView,
    pub infos: Seq<FileInfoView>,
}

/// Whether no two of the records are about the same path.
pub open spec fn paths_differ(infos: Seq<FileInfoView>) -> bool {
    forall|i: int, j: int| 0 <= i < j < infos.len() ==> infos[i].path != infos[j].path
}

/// The place of the first record about `path` at or behind place `from`;
/// the number of records where there is none.
pub open spec fn place_from(infos: Seq<FileInfoView>, path: Seq<char>, from: int) -> int
    decreases infos.len() - from,
{
    if from < 0 || from >= infos.len() {
        infos.len() as int
    } else if infos[from].path == path {
        from
    } else {
        place_from(infos, path, from + 1)
    }
}

/// The place of the record about `path`; the number of records where there
/// is none.
pub open spec fn place_of(infos: Seq<FileInfoView>, path: Seq<char>) -> int {
    place_from(infos, path, 0)
}

/// The records after `record` was added: it takes the place of the record
/// about the same path, or the place behind the last one where there was
/// none.
pub open spec fn stored(infos: Seq<FileInfoView>, record: FileInfoView) -> Seq<FileInfoView> {
    let at = place_of(infos, record.path);
    if at < infos.len() {
        infos.update(at, record)
    } else {
        infos.push(record)
    }
}

/// The records after the first `k` of `records` were added one by one.
pub open spec fn stored_upto(infos: Seq<FileInfoView>, records: Seq<FileInfoView>, k: int) -> Seq<
    FileInfoView,
>
    decreases k,
{
    if 0 < k <= records.len() {
        stored(stored_upto(infos, records, k - 1), records[k - 1])
    } else {
        infos
    }
}

/// The records without the one about `path`.
pub open spec fn dropped(infos: Seq<FileInfoView>, path: Seq<char>) -> Seq<FileInfoView> {
    let at = place_of(infos, path);
    if at < infos.len() {
        infos.remove(at)
    } else {
        infos
    }
}

/// Whether the selection `keep` holds the record at place `i`. A selection
/// shorter than the records holds none of the records behind its end.
pub open spec fn chosen(keep: Seq<bool>, i: int) -> bool {
    0 <= i < keep.len() && keep[i]
}

/// The tags of the chosen among the first `k` records, one record after the
/// other, each record's tags in their order.
pub open spec fn tags_upto(infos: Seq<FileInfoView>, keep: Seq<bool>, k: int) -> Seq<TagView>
    decreases k,
{
    if 0 < k <= infos.len() {
        if chosen(keep, k - 1) {
            tags_upto(infos, keep, k - 1) + infos[k - 1].tags
        } else {
            tags_upto(infos, keep, k - 1)
        }
    } else {
        Seq::empty()
    }
}

/// The selection that holds each of `n` records.
pub open spec fn every(n: nat) -> Seq<bool> {
    Seq::new(n, |i: int| true)
}

/// The tags of the records that `keep` holds: each tag once, in the order
/// of tags, shown as it was first written.
pub open spec fn tags_chosen(infos: Seq<FileInfoView>, keep: Seq<bool>) -> Seq<TagView> {
    tag_union(tags_upto(infos, keep, infos.len() as int))
}

/// The tags of all records: each tag once, in the order of tags, shown as
/// it was first written.
pub open spec fn tags_of(infos: Seq<FileInfoView>) -> Seq<TagView> {
    tags_chosen(infos, every(infos.len()))
}

proof fn lemma_place_found(infos: Seq<FileInfoView>, path: Seq<char>, from: int, at: int)
    requires
        0 <= from <= at <= infos.len(),
        forall|j: int| from <= j < at ==> infos[j].path != path,
        at < infos.len() ==> infos[at].path == path,
    ensures
        place_from(infos, path, from) == at,
    decreases at - from,
{
    if from < at {
        lemma_place_found(infos, path, from + 1, at);
    }
}

/// The index of a directory subtree with the records added to it.
#[derive(Debug)]
pub struct State {
    root: Directory,
    flat: Directory,
    infos: Vec<FileInfo>,
}

impl View for State {
    type V = StateView;

    closed spec fn view(&self) -> StateView {
        StateView { root: self.root@, flat: self.flat@, infos: views(self.infos@) }
    }
}

impl State {
    #[verifier::type_invariant]
    spec fn one_record_for_each_path(self) -> bool {
        paths_differ(views(self.infos@))
    }

    /// The records themselves, in the order of the view.
    pub closed spec fn records(&self) -> Seq<FileInfo> {
        self.infos@
    }

    /// Indexes the reading `scan` of the directory `root` under the given
    /// extensions, and starts with no records. Fails where the root itself
    /// could not be listed, and only there.
    pub fn new(root: &str, scan: &Scan, extensions: Vec<String>) -> (made: Result<State, LoadError>)
        ensures
            match made {
                Ok(state) => {
                    &&& scan@ is Listed
                    &&& state@.root == (DirectoryView {
                        this: root@,
                        entries: kept(scan@, lowered(extensions@)),
                    })
                    &&& state@.flat == (DirectoryView {
                        this: root@,
                        entries: flattened(scan@, lowered(extensions@)),
                    })
                    &&& state@.infos == Seq::<FileInfoView>::empty()
                },
                Err(e) => scan@ is Failed && e == LoadError::RootAccessFailure,
            },
    {
        match load(root, scan, extensions) {
            Ok((root, flat)) => {
                let state = State { root, flat, infos: Vec::new() };
                Ok(state)
            },
            Err(e) => Err(e),
        }
    }

    /// The store with the given index and the given records, added one by
    /// one in their order: where two of them are about the same path, the
    /// later one stays.
    pub fn from_parts(root: Directory, flat: Directory, infos: Vec<FileInfo>) -> (state: State)
        ensures
            state@.root == root@,
            state@.flat == flat@,
            state@.infos == stored_upto(
                Seq::<FileInfoView>::empty(),
                views(infos@),
                infos@.len() as int,
            ),
            paths_differ(state@.infos),
    {
        let mut state = State { root, flat, infos: Vec::new() };
        assert(state@.infos =~= Seq::<FileInfoView>::empty());
        state.extend(infos);
        state
    }

    /// The indexed tree.
    pub fn root(&self) -> (root: &Directory)
        ensures
            root@ == self@.root,
    {
        &self.root
    }

    /// The flat list of the admitted files.
    pub fn flat(&self) -> (flat: &Directory)
        ensures
            flat@ == self@.flat,
    {
        &self.flat
    }

    /// The records, in the order in which their paths were first added. No
    /// two of them are about the same path.
    pub fn infos(&self) -> (infos: &Vec<FileInfo>)
        ensures
            infos@ == self.records(),
            views(infos@) == self@.infos,
            paths_differ(self@.infos),
    {
        proof {
            use_type_invariant(self);
        }
        &self.infos
    }

    /// The place of the record about `path` among the records; their number
    /// where there is none.
    fn find(infos: &Vec<FileInfo>, path: &str) -> (at: usize)
        ensures
            at == place_of(views(infos@), path@),
            at <= infos.len(),
    {
        let mut at: usize = 0;
        while at < infos.len()
            invariant
                at <= infos.len(),
                forall|j: int| 0 <= j < at ==> views(infos@)[j].path != path@,
            decreases infos.len() - at,
        {
            if infos[at].is_about(path) {
                proof {
                    lemma_place_found(views(infos@), path@, 0, at as int);
                }
                return at;
            }
            at += 1;
        }
        proof {
            lemma_place_found(views(infos@), path@, 0, at as int);
        }
        at
    }

    /// The record about `path`, where there is one.
    pub fn get(&self, path: &str) -> (found: Option<&FileInfo>)
        ensures
            match found {
                Some(info) => {
                    &&& place_of(self@.infos, path@) < self@.infos.len()
                    &&& info@ == self@.infos[place_of(self@.infos, path@)]
                    &&& info@.path == path@
                },
                None => forall|i: int| 0 <= i < self@.infos.len() ==> self@.infos[i].path != path@,
            },
    {
        let at = State::find(&self.infos, path);
        proof {
            lemma_place_is_first(self@.infos, path@, 0);
        }
        if at < self.infos.len() {
            Some(&self.infos[at])
        } else {
            None
        }
    }

    /// Adds `f`. Where a record about the same path is there already, `f`
    /// takes its place; otherwise `f` goes behind the last record. Either
    /// way the store then holds exactly one record about that path, and it
    /// is `f`.
    pub fn add(&mut self, f: FileInfo)
        ensures
            final(self)@.root == old(self)@.root,
            final(self)@.flat == old(self)@.flat,
            final(self)@.infos == stored(old(self)@.infos, f@),
            paths_differ(final(self)@.infos),
            holds_once(final(self)@.infos, f@),
    {
        proof {
            use_type_invariant(&*self);
            lemma_stored_keeps_apart(self@.infos, f@);
        }
        let mut infos: Vec<FileInfo> = Vec::new();
        std::mem::swap(&mut infos, &mut self.infos);
        let at = State::find(&infos, f.path());
        let ghost before = views(infos@);
        if at < infos.len() {
            infos[at] = f;
            assert(views(infos@) =~= before.update(at as int, f@));
        } else {
            infos.push(f);
            assert(views(infos@) =~= before.push(f@));
        }
        self.infos = infos;
    }

    /// Takes out the record about `path` and returns it; the other records
    /// keep their order. Where there is no such record, nothing changes.
    pub fn remove(&mut self, path: &str) -> (taken: Option<FileInfo>)
        ensures
            final(self)@.root == old(self)@.root,
            final(self)@.flat == old(self)@.flat,
            final(self)@.infos == dropped(old(self)@.infos, path@),
            forall|i: int| 0 <= i < final(self)@.infos.len() ==> final(self)@.infos[i].path != path@,
            match taken {
                Some(info) => {
                    &&& place_of(old(self)@.infos, path@) < old(self)@.infos.len()
                    &&& info@ == old(self)@.infos[place_of(old(self)@.infos, path@)]
                },
                None => place_of(old(self)@.infos, path@) == old(self)@.infos.len(),
            },
    {
        proof {
            use_type_invariant(&*self);
            lemma_place_is_first(self@.infos, path@, 0);
        }
        let mut infos: Vec<FileInfo> = Vec::new();
        std::mem::swap(&mut infos, &mut self.infos);
        let at = State::find(&infos, path);
        let ghost before = views(infos@);
        let taken = if at < infos.len() {
            let info = infos.remove(at);
            assert(views(infos@) =~= before.remove(at as int));
            Some(info)
        } else {
            None
        };
        self.infos = infos;
        taken
    }

    /// The records that are marked for deletion and tagged at once, in the
    /// order of the records. They call for a second look; nothing else
    /// follows from it.
    pub fn questionable(&self) -> (flagged: Vec<&FileInfo>)
        ensures
            views(flagged@) == self@.infos.filter(|info: FileInfoView| info.questionable()),
    {
        let mut flagged: Vec<&FileInfo> = Vec::new();
        let mut i: usize = 0;
        let ghost doubtful = |info: FileInfoView| info.questionable();
        while i < self.infos.len()
            invariant
                i <= self.infos.len(),
                doubtful == |info: FileInfoView| info.questionable(),
                views(flagged@) == self@.infos.take(i as int).filter(doubtful),
            decreases self.infos.len() - i,
        {
            proof {
                assert(self@.infos.take(i + 1) =~= self@.infos.take(i as int).push(
                    self@.infos[i as int],
                ));
                self@.infos.take(i as int).lemma_filter_push(self@.infos[i as int], doubtful);
            }
            if self.infos[i].questionable_state() {
                flagged.push(&self.infos[i]);
            }
            i += 1;
        }
        proof {
            assert(self@.infos.take(i as int) =~= self@.infos);
        }
        flagged
    }

    /// The tags of the chosen records, one record after the other.
    fn gather<'a>(infos: &'a Vec<FileInfo>, keep: &Vec<bool>) -> (all: Vec<&'a Tag>)
        ensures
            views(all@) == tags_upto(views(infos@), keep@, infos.len() as int),
    {
        let mut all: Vec<&'a Tag> = Vec::new();
        let mut i: usize = 0;
        while i < infos.len()
            invariant
                i <= infos.len(),
                views(all@) == tags_upto(views(infos@), keep@, i as int),
            decreases infos.len() - i,
        {
            if i < keep.len() && keep[i] {
                let tags = infos[i].tags();
                let ghost before = views(all@);
                let mut j: usize = 0;
                while j < tags.len()
                    invariant
                        j <= tags.len(),
                        views(all@) == before + views(tags@).take(j as int),
                    decreases tags.len() - j,
                {
                    let ghost row = views(all@);
                    all.push(&tags[j]);
                    proof {
                        assert(views(all@) =~= row.push(tags[j as int]@));
                    }
                    j += 1;
                }
            }
            i += 1;
        }
        all
    }

    /// The tags of the records that `keep` holds, each tag once, in the
    /// order of tags. Of tags that are the same tag but for their letter
    /// case, the one met first stays: the first in the first of the records
    /// that carries one.
    pub fn tags_where(&self, keep: &Vec<bool>) -> (tags: Vec<&Tag>)
        ensures
            views(tags@) == tags_chosen(self@.infos, keep@),
    {
        unite(State::gather(&self.infos, keep))
    }

    /// The tags of all records, each tag once, in the order of tags. Of
    /// tags that are the same tag but for their letter case, the one met
    /// first stays. The answer goes by the records alone: asked again of
    /// the same records, it is the same. A store without records has no
    /// tags.
    pub fn tags(&self) -> (tags: Vec<&Tag>)
        ensures
            views(tags@) == tags_of(self@.infos),
            self@.infos.len() == 0 ==> tags@.len() == 0,
    {
        let mut keep: Vec<bool> = Vec::new();
        let mut i: usize = 0;
        while i < self.infos.len()
            invariant
                i <= self.infos.len(),
                keep@ == every(i as nat),
            decreases self.infos.len() - i,
        {
            keep.push(true);
            i += 1;
        }
        let tags = self.tags_where(&keep);
        proof {
            if self@.infos.len() == 0 {
                law_no_records_no_tags();
            }
        }
        tags
    }

    /// The tags of the records for which `predicate` returns true, each tag
    /// once, in the order of tags. The predicate is asked once for each
    /// record, in the order of the records.
    pub fn tags_filter<P: Fn(&FileInfo) -> bool>(&self, predicate: P) -> (tags: Vec<&Tag>)
        requires
            forall|info: &FileInfo| call_requires(predicate, (info,)),
        ensures
            exists|keep: Seq<bool>|
                {
                    &&& keep.len() == self.records().len()
                    &&& forall|i: int|
                        0 <= i < keep.len() ==> call_ensures(
                            predicate,
                            (&self.records()[i],),
                            #[trigger] keep[i],
                        )
                    &&& views(tags@) == tags_chosen(self@.infos, keep)
                },
    {
        let mut keep: Vec<bool> = Vec::new();
        let mut i: usize = 0;
        while i < self.infos.len()
            invariant
                i <= self.infos.len(),
                keep.len() == i,
                forall|info: &FileInfo| call_requires(predicate, (info,)),
                forall|j: int|
                    0 <= j < i ==> call_ensures(
                        predicate,
                        (&self.infos@[j],),
                        #[trigger] keep@[j],
                    ),
            decreases self.infos.len() - i,
        {
            let held = predicate(&self.infos[i]);
            keep.push(held);
            i += 1;
        }
        let tags = self.tags_where(&keep);
        tags
    }

    /// Adds the given records one by one, in their order.
    pub fn extend(&mut self, records: Vec<FileInfo>)
        ensures
            final(self)@.root == old(self)@.root,
            final(self)@.flat == old(self)@.flat,
            final(self)@.infos == stored_upto(
                old(self)@.infos,
                views(records@),
                records@.len() as int,
            ),
            paths_differ(final(self)@.infos),
    {
        let ghost start = self@.infos;
        let ghost all = views(records@);
        proof {
            use_type_invariant(&*self);
        }
        for record in it: records
            invariant
                self@.root == old(self)@.root,
                self@.flat == old(self)@.flat,
                views(it.seq()) == all,
                self@.infos == stored_upto(start, all, it.index() as int),
                paths_differ(self@.infos),
        {
            self.add(record);
        }
    }
}

/// Where there are no records there are no tags.
pub proof fn law_no_records_no_tags()
    ensures
        tags_of(Seq::<FileInfoView>::empty()) == Seq::<TagView>::empty(),
{
    lemma_union_of_none();
}

/// Whether the records hold exactly one record about the path of `record`,
/// and that one is `record`.
pub open spec fn holds_once(infos: Seq<FileInfoView>, record: FileInfoView) -> bool {
    exists|at: int|
        {
            &&& 0 <= at < infos.len()
            &&& #[trigger] infos[at] == record
            &&& forall|j: int| 0 <= j < infos.len() && j != at ==> infos[j].path != record.path
        }
}

/// The place of a path is the place of the first record about it.
pub proof fn lemma_place_is_first(infos: Seq<FileInfoView>, path: Seq<char>, from: int)
    requires
        0 <= from <= infos.len(),
    ensures
        from <= place_from(infos, path, from) <= infos.len(),
        forall|j: int| from <= j < place_from(infos, path, from) ==> infos[j].path != path,
        place_from(infos, path, from) < infos.len() ==> infos[place_from(infos, path, from)].path
            == path,
    decreases infos.len() - from,
{
    if from < infos.len() && infos[from].path != path {
        lemma_place_is_first(infos, path, from + 1);
    }
}

/// Adding a record keeps the paths apart, and leaves exactly one record
/// about the added path: the added one.
pub proof fn lemma_stored_keeps_apart(infos: Seq<FileInfoView>, record: FileInfoView)
    requires
        paths_differ(infos),
    ensures
        paths_differ(stored(infos, record)),
        holds_once(stored(infos, record), record),
{
    lemma_place_is_first(infos, record.path, 0);
    let at = place_of(infos, record.path);
    let after = stored(infos, record);
    assert(after[at] == record);
}

/// The last record added for a path is the one that stays: adding a record
/// and then another about the same path leaves what adding the second alone
/// would leave.
pub proof fn law_last_added_stays(
    infos: Seq<FileInfoView>,
    first: FileInfoView,
    second: FileInfoView,
)
    requires
        first.path == second.path,
    ensures
        stored(stored(infos, first), second) == stored(infos, second),
        stored(stored(infos, first), second).len() == stored(infos, first).len(),
{
    let at = place_of(infos, first.path);
    let once = stored(infos, first);
    lemma_place_is_first(infos, first.path, 0);
    lemma_place_found(once, second.path, 0, at);
    assert(stored(once, second) =~= stored(infos, second));
}

/// Taking out a record that was added for a path without a record gives
/// back the records as they were.
pub proof fn law_remove_undoes_add(infos: Seq<FileInfoView>, record: FileInfoView)
    requires
        place_of(infos, record.path) == infos.len(),
    ensures
        dropped(stored(infos, record), record.path) == infos,
{
    let added = stored(infos, record);
    lemma_place_is_first(infos, record.path, 0);
    lemma_place_found(added, record.path, 0, infos.len() as int);
    assert(dropped(added, record.path) =~= infos);
}

} // verus!
