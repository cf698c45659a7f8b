//! Sets of tags: a row of tags put in order, each tag once.

use vstd::prelude::*;
use crate::order::{
    arrange, arranged, law_arranged_in_order, lemma_order_in_range,
    law_order_is_rearrangement, lists, order_of, orderly, picked, places, views, Precedence,
};
use crate::tag::{Tag, TagView};
use crate::text::{lemma_lex_chain, lemma_lex_mirror, lemma_lex_same, Rank};

verus! {

/// Whether the tag at place `at` of `row` is the first of a run: no tag
/// stands before it, or the one before it is another tag.
pub open spec fn starts_run(row: Seq<TagView>, at: int) -> bool {
    at == 0 || !row[at - 1].same(row[at])
}

/// The first `k` tags of `row` without those that are the same tag as the
/// one just before them.
pub open spec fn distinct_upto(row: Seq<TagView>, k: int) -> Seq<TagView>
    decreases k,
{
    if 0 < k <= row.len() {
        if starts_run(row, k - 1) {
            distinct_upto(row, k - 1).push(row[k - 1])
        } else {
            distinct_upto(row, k - 1)
        }
    } else {
        Seq::empty()
    }
}

/// The tags of `all`, each tag once, in the order of tags. Put in order,
/// tags that are the same tag stand together, in the order in which they
/// stood in `all`; the first of them is the one that stays.
pub open spec fn tag_union(all: Seq<TagView>) -> Seq<TagView> {
    distinct_upto(arranged(all), all.len() as int)
}

/// Puts the tags in order and keeps the first of each run of tags that are
/// the same tag.
pub fn unite<'a>(all: Vec<&'a Tag>) -> (tags: Vec<&'a Tag>)
    ensures
        views(tags@) == tag_union(views(all@)),
{
    let order = arrange(&all);
    let ghost row = arranged(views(all@));
    proof {
        lemma_order_in_range(views(all@));
    }
    let mut tags: Vec<&'a Tag> = Vec::new();
    let mut k: usize = 0;
    while k < order.len()
        invariant
            k <= order.len(),
            order.len() == all.len(),
            row == arranged(views(all@)),
            places(order@) == order_of(views(all@)),
            forall|i: int| 0 <= i < order.len() ==> 0 <= #[trigger] places(order@)[i] < all.len(),
            views(tags@) == distinct_upto(row, k as int),
        decreases order.len() - k,
    {
        assert(places(order@)[k as int] == order[k as int]);
        let tag = all[order[k]];
        let mut again = false;
        if k > 0 {
            let last = all[order[k - 1]];
            again = *last == *tag;
        }
        if !again {
            tags.push(tag);
        }
        k += 1;
    }
    tags
}

/// No tags give no tags.
pub proof fn lemma_union_of_none()
    ensures
        tag_union(Seq::<TagView>::empty()) == Seq::<TagView>::empty(),
{
}

/// The order of tags is an order on every row of tags.
pub proof fn lemma_tags_orderly(all: Seq<TagView>)
    ensures
        orderly(all),
{
    assert forall|i: int, j: int|
        0 <= i < all.len() && 0 <= j < all.len() && #[trigger] all[i].follows(
            all[j],
        ) implies !all[j].follows(all[i]) by {
        lemma_lex_mirror(all[i].key(), all[j].key());
    }
    assert forall|i: int, j: int, k: int|
        #![trigger all[i].follows(all[j]), all[j].follows(all[k])]
        0 <= i < all.len() && 0 <= j < all.len() && 0 <= k < all.len() && !all[i].follows(all[j])
            && !all[j].follows(all[k]) implies !all[i].follows(all[k]) by {
        lemma_lex_chain(all[i].key(), all[j].key(), all[k].key());
    }
}

/// In a row that is in order, a tag and a later tag that are the same tag
/// have only that same tag between them.
proof fn lemma_same_between(row: Seq<TagView>, a: int, m: int, b: int)
    requires
        0 <= a <= m <= b < row.len(),
        in_order(row),
        row[a].same(row[b]),
    ensures
        row[m].same(row[b]),
{
    lemma_lex_same(row[a].key(), row[b].key());
    lemma_lex_same(row[m].key(), row[b].key());
    lemma_lex_same(row[a].key(), row[m].key());
    if a < m && m < b {
        lemma_lex_chain(row[a].key(), row[m].key(), row[b].key());
    }
}

/// The places among the first `k` of `row` at which a run starts.
pub open spec fn starts_upto(row: Seq<TagView>, k: int) -> Seq<int>
    decreases k,
{
    if 0 < k <= row.len() {
        if starts_run(row, k - 1) {
            starts_upto(row, k - 1).push(k - 1)
        } else {
            starts_upto(row, k - 1)
        }
    } else {
        Seq::empty()
    }
}

/// `distinct_upto` keeps the tags that start a run, and these alone, each at
/// its turn.
proof fn lemma_distinct_parts(row: Seq<TagView>, k: int)
    requires
        0 <= k <= row.len(),
    ensures
        distinct_upto(row, k) == picked(row, starts_upto(row, k)),
        forall|i: int|
            0 <= i < starts_upto(row, k).len() ==> 0 <= #[trigger] starts_upto(row, k)[i] < k
                && starts_run(row, starts_upto(row, k)[i]),
        forall|i: int, j: int|
            0 <= i < j < starts_upto(row, k).len() ==> #[trigger] starts_upto(row, k)[i]
                < #[trigger] starts_upto(row, k)[j],
        forall|m: int| 0 <= m < k && starts_run(row, m) ==> #[trigger] lists(starts_upto(row, k), m),
    decreases k,
{
    if k > 0 {
        lemma_distinct_parts(row, k - 1);
        let before = starts_upto(row, k - 1);
        let now = starts_upto(row, k);
        assert forall|m: int| 0 <= m < k && starts_run(row, m) implies #[trigger] lists(now, m) by {
            if m < k - 1 {
                assert(lists(before, m));
                let i = choose|i: int| 0 <= i < before.len() && #[trigger] before[i] == m;
                assert(now[i] == m);
            } else {
                assert(now[now.len() - 1] == m);
            }
        }
    }
}

/// In a row that is in order, every tag has the start of its run before it
/// or is that start.
proof fn lemma_run_has_start(row: Seq<TagView>, at: int) -> (start: int)
    requires
        0 <= at < row.len(),
    ensures
        0 <= start <= at,
        starts_run(row, start),
        row[start].same(row[at]),
    decreases at,
{
    if starts_run(row, at) {
        at
    } else {
        lemma_run_has_start(row, at - 1)
    }
}

/// Whether no tag of `row` has to stand after one behind it.
pub open spec fn in_order(row: Seq<TagView>) -> bool {
    forall|i: int, j: int|
        0 <= i < j < row.len() ==> !(#[trigger] row[i]).follows(#[trigger] row[j])
}

/// A row of tags put in order is in order.
proof fn lemma_arranged_tags_in_order(all: Seq<TagView>)
    ensures
        in_order(arranged(all)),
        arranged(all).len() == all.len(),
{
    lemma_tags_orderly(all);
    law_arranged_in_order(all);
    lemma_order_in_range(all);
}

/// In a row in order, a tag that starts a run comes strictly after every
/// tag before it.
proof fn lemma_start_is_after(row: Seq<TagView>, m: int, n: int)
    requires
        in_order(row),
        0 <= m < n < row.len(),
        starts_run(row, n),
    ensures
        row[m].rank(row[n]) == Rank::Before,
{
    if row[m].rank(row[n]) == Rank::Same {
        lemma_lex_same(row[m].key(), row[n].key());
        lemma_same_between(row, m, n - 1, n);
    }
}

/// The tags of a union stand in strictly ascending order: each comes before
/// every tag behind it, so that no tag is there twice.
pub proof fn law_union_ascends(all: Seq<TagView>)
    ensures
        forall|i: int, j: int|
            0 <= i < j < tag_union(all).len() ==> (#[trigger] tag_union(all)[i]).rank(
                #[trigger] tag_union(all)[j],
            ) == Rank::Before,
{
    let row = arranged(all);
    let out = tag_union(all);
    let starts = starts_upto(row, row.len() as int);
    lemma_arranged_tags_in_order(all);
    lemma_distinct_parts(row, row.len() as int);
    assert forall|i: int, j: int| 0 <= i < j < out.len() implies (#[trigger] out[i]).rank(
        #[trigger] out[j],
    ) == Rank::Before by {
        lemma_start_is_after(row, starts[i], starts[j]);
    }
}

/// A union holds every tag of the row it was made from, and no other: each
/// tag of the row is the same tag as one of the union, and each tag of the
/// union is a tag of the row.
pub proof fn law_union_holds_all(all: Seq<TagView>)
    ensures
        forall|at: int|
            0 <= at < all.len() ==> exists|i: int|
                0 <= i < tag_union(all).len() && tag_union(all)[i].same(#[trigger] all[at]),
        forall|i: int|
            0 <= i < tag_union(all).len() ==> exists|at: int|
                0 <= at < all.len() && all[at] == #[trigger] tag_union(all)[i],
{
    let row = arranged(all);
    let out = tag_union(all);
    let starts = starts_upto(row, row.len() as int);
    law_order_is_rearrangement(all);
    lemma_distinct_parts(row, row.len() as int);
    assert forall|at: int| 0 <= at < all.len() implies exists|i: int|
        0 <= i < out.len() && out[i].same(#[trigger] all[at]) by {
        assert(lists(order_of(all), at));
        let k = choose|k: int| 0 <= k < order_of(all).len() && #[trigger] order_of(all)[k] == at;
        let start = lemma_run_has_start(row, k);
        assert(lists(starts, start));
        let i = choose|i: int| 0 <= i < starts.len() && #[trigger] starts[i] == start;
        assert(0 <= i < out.len() && out[i].same(all[at]));
    }
    assert forall|i: int| 0 <= i < out.len() implies exists|at: int|
        0 <= at < all.len() && all[at] == #[trigger] out[i] by {
        assert(out[i] == all[order_of(all)[starts[i]]]);
    }
}

/// Whether the tag at place `at` of `all` is the first of its kind there.
pub open spec fn first_of_its_kind(all: Seq<TagView>, at: int) -> bool {
    forall|q: int| 0 <= q < at ==> !(#[trigger] all[q]).same(all[at])
}

/// Of tags that are the same tag, the union holds the one that stands first
/// in the row it was made from: it shows in the letter case in which the tag
/// was first written.
pub proof fn law_union_keeps_first(all: Seq<TagView>)
    ensures
        forall|i: int|
            0 <= i < tag_union(all).len() ==> exists|at: int|
                0 <= at < all.len() && all[at] == #[trigger] tag_union(all)[i]
                    && first_of_its_kind(all, at),
{
    let row = arranged(all);
    let out = tag_union(all);
    let order = order_of(all);
    let starts = starts_upto(row, row.len() as int);
    lemma_arranged_tags_in_order(all);
    lemma_tags_orderly(all);
    law_arranged_in_order(all);
    law_order_is_rearrangement(all);
    lemma_distinct_parts(row, row.len() as int);
    assert forall|i: int| 0 <= i < out.len() implies exists|at: int|
        0 <= at < all.len() && all[at] == #[trigger] out[i] && first_of_its_kind(all, at) by {
        let m = starts[i];
        let at = order[m];
        assert forall|q: int| 0 <= q < at implies !(#[trigger] all[q]).same(all[at]) by {
            if all[q].same(all[at]) {
                // The same tag at an earlier place `q` comes out at some
                // `k`. Before `m` it would make `m` no start of a run;
                // behind `m` it would have come out against its place.
                assert(lists(order, q));
                let k = choose|k: int| 0 <= k < order.len() && #[trigger] order[k] == q;
                lemma_lex_same(row[k].key(), row[m].key());
                lemma_lex_same(row[m].key(), row[k].key());
                if k < m {
                    lemma_same_between(row, k, m - 1, m);
                }
            }
        }
    }
}

} // verus!
