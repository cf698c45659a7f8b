//! Putting items in order by insertion, for any rule that says when one item
//! has to stand after another.

use vstd::prelude::*;

verus! {

/// A rule of precedence among mathematical values.
pub trait Precedence: Sized {
    /// Whether `self` has to stand after `other`.
    spec fn follows(self, other: Self) -> bool;
}

/// Executable values whose views obey a rule of precedence.
pub trait Ranked: View + Sized where Self::V: Precedence {
    /// Whether `self` has to stand after `other`.
    fn follows(&self, other: &Self) -> (after: bool)
        ensures
            after == self@.follows(other@),
    ;
}

/// The items of `items` at the places that `order` lists.
pub open spec fn picked<V>(items: Seq<V>, order: Seq<int>) -> Seq<V> {
    Seq::new(order.len(), |k: int| items[order[k]])
}

/// Where `x` goes into `row`: behind the last item that does not have to
/// stand after it.
pub open spec fn slot<V: Precedence>(row: Seq<V>, x: V) -> int
    decreases row.len(),
{
    if row.len() == 0 || !row.last().follows(x) {
        row.len() as int
    } else {
        slot(row.drop_last(), x)
    }
}

/// The order in which `items` come out: each item in turn is put into the
/// row of those before it, at its slot. The result lists places in `items`.
pub open spec fn order_of<V: Precedence>(items: Seq<V>) -> Seq<int>
    decreases items.len(),
{
    if items.len() == 0 {
        Seq::empty()
    } else {
        let before = order_of(items.drop_last());
        before.insert(slot(picked(items, before), items.last()), items.len() - 1)
    }
}

/// The views of a sequence of executable values.
pub open spec fn views<T: View>(items: Seq<T>) -> Seq<T::V> {
    Seq::new(items.len(), |i: int| items[i]@)
}

/// The places of `order` as mathematical integers.
pub open spec fn places(order: Seq<usize>) -> Seq<int> {
    Seq::new(order.len(), |k: int| order[k] as int)
}

/// Every place that `order_of` lists is a place of `items`, and there are as
/// many as items.
pub proof fn lemma_order_in_range<V: Precedence>(items: Seq<V>)
    ensures
        order_of(items).len() == items.len(),
        forall|k: int| 0 <= k < items.len() ==> 0 <= #[trigger] order_of(items)[k] < items.len(),
    decreases items.len(),
{
    if items.len() > 0 {
        let before = order_of(items.drop_last());
        lemma_order_in_range(items.drop_last());
        lemma_slot_in_range(picked(items, before), items.last());
    }
}

/// A slot is a place in the row or just behind it.
pub proof fn lemma_slot_in_range<V: Precedence>(row: Seq<V>, x: V)
    ensures
        0 <= slot(row, x) <= row.len(),
    decreases row.len(),
{
    if row.len() != 0 && row.last().follows(x) {
        lemma_slot_in_range(row.drop_last(), x);
    }
}

/// The items of `items` in the order in which they come out.
pub open spec fn arranged<V: Precedence>(items: Seq<V>) -> Seq<V> {
    picked(items, order_of(items))
}

/// Whether the rule is an order on `items`: of two items at most one has to
/// stand after the other, and "does not have to stand after" carries along.
pub open spec fn orderly<V: Precedence>(items: Seq<V>) -> bool {
    &&& forall|i: int, j: int|
        0 <= i < items.len() && 0 <= j < items.len() && #[trigger] items[i].follows(items[j])
            ==> !items[j].follows(items[i])
    &&& forall|i: int, j: int, k: int|
        #![trigger items[i].follows(items[j]), items[j].follows(items[k])]
        0 <= i < items.len() && 0 <= j < items.len() && 0 <= k < items.len()
            && !items[i].follows(items[j]) && !items[j].follows(items[k])
            ==> !items[i].follows(items[k])
}

/// All that stands at or behind the slot of `x` has to stand after `x`, and
/// what stands just before the slot has not.
pub proof fn lemma_slot_parts<V: Precedence>(row: Seq<V>, x: V)
    ensures
        0 <= slot(row, x) <= row.len(),
        forall|j: int| slot(row, x) <= j < row.len() ==> (#[trigger] row[j]).follows(x),
        slot(row, x) > 0 ==> !row[slot(row, x) - 1].follows(x),
    decreases row.len(),
{
    if row.len() != 0 && row.last().follows(x) {
        let head = row.drop_last();
        lemma_slot_parts(head, x);
        assert forall|j: int| slot(row, x) <= j < row.len() implies (#[trigger] row[j]).follows(
            x,
        ) by {
            if j < head.len() {
                assert(head[j] == row[j]);
            }
        }
    }
}

/// Whether `order` lists the place `at`.
pub open spec fn lists(order: Seq<int>, at: int) -> bool {
    exists|k: int| 0 <= k < order.len() && #[trigger] order[k] == at
}

/// `order_of` lists every place of `items`, and each place once.
pub proof fn law_order_is_rearrangement<V: Precedence>(items: Seq<V>)
    ensures
        order_of(items).len() == items.len(),
        forall|k: int| 0 <= k < items.len() ==> 0 <= #[trigger] order_of(items)[k] < items.len(),
        forall|a: int, b: int|
            0 <= a < b < items.len() ==> #[trigger] order_of(items)[a] != #[trigger] order_of(
                items,
            )[b],
        forall|at: int| 0 <= at < items.len() ==> #[trigger] lists(order_of(items), at),
    decreases items.len(),
{
    lemma_order_in_range(items);
    if items.len() > 0 {
        let head = items.drop_last();
        let before = order_of(head);
        let s = slot(picked(items, before), items.last());
        let order = order_of(items);
        law_order_is_rearrangement(head);
        lemma_order_in_range(head);
        lemma_slot_in_range(picked(items, before), items.last());
        assert forall|at: int| 0 <= at < items.len() implies #[trigger] lists(order, at) by {
            if at == items.len() - 1 {
                assert(order[s] == at);
            } else {
                assert(lists(before, at));
                let k = choose|k: int| 0 <= k < before.len() && #[trigger] before[k] == at;
                if k < s {
                    assert(order[k] == at);
                } else {
                    assert(order[k + 1] == at);
                }
            }
        }
    }
}

/// Where the rule is an order on `items`, they come out in that order: no
/// item has to stand after one that comes out behind it. And the order is
/// stable: of two items of which neither has to stand after the other, the
/// one that stood first in `items` comes out first.
pub proof fn law_arranged_in_order<V: Precedence>(items: Seq<V>)
    requires
        orderly(items),
    ensures
        forall|a: int, b: int|
            0 <= a < b < items.len() ==> !(#[trigger] arranged(items)[a]).follows(
                #[trigger] arranged(items)[b],
            ),
        forall|a: int, b: int|
            0 <= a < b < items.len() && !arranged(items)[b].follows(arranged(items)[a])
                ==> #[trigger] order_of(items)[a] < #[trigger] order_of(items)[b],
    decreases items.len(),
{
    lemma_order_in_range(items);
    if items.len() > 0 {
        let head = items.drop_last();
        let x = items.last();
        let before = order_of(head);
        let row = picked(items, before);
        let s = slot(row, x);
        let out = arranged(items);
        lemma_order_in_range(head);
        // The items before the last are in order among themselves; the last
        // one goes to its slot `s`, behind all that need not stand after it
        // and before all that must.
        assert(orderly(head));
        law_arranged_in_order(head);
        lemma_slot_parts(row, x);
        assert forall|a: int, b: int| 0 <= a < b < items.len() implies !(#[trigger] out[a]).follows(
            #[trigger] out[b],
        ) by {
            if a == s {
                assert(row[b - 1].follows(x));
            }
        }
        assert forall|a: int, b: int|
            0 <= a < b < items.len() && !arranged(items)[b].follows(
                arranged(items)[a],
            ) implies #[trigger] order_of(items)[a] < #[trigger] order_of(items)[b] by {
            if a == s {
                assert(row[b - 1].follows(x));
            }
        }
    }
}

/// Puts `items` in order and returns the places in the order they come out.
pub fn arrange<T: Ranked>(items: &Vec<T>) -> (order: Vec<usize>)
    where T::V: Precedence
    ensures
        places(order@) == order_of(views(items@)),
{
    let mut order: Vec<usize> = Vec::new();
    let mut i: usize = 0;
    while i < items.len()
        invariant
            i <= items.len(),
            places(order@) == order_of(views(items@).take(i as int)),
        decreases items.len() - i,
    {
        let ghost head = views(items@).take(i as int);
        let ghost row = picked(views(items@).take(i + 1), places(order@));
        proof {
            lemma_order_in_range(head);
            assert(row.take(order@.len() as int) =~= row);
        }
        let mut j: usize = order.len();
        while j > 0 && items[order[j - 1]].follows(&items[i])
            invariant
                j <= order.len(),
                i < items.len(),
                order@.len() == i,
                forall|k: int| 0 <= k < i ==> 0 <= #[trigger] places(order@)[k] < i,
                row == picked(views(items@).take(i + 1), places(order@)),
                slot(row, items[i as int]@) == slot(row.take(j as int), items[i as int]@),
            decreases j,
        {
            proof {
                assert(row.take(j as int).drop_last() =~= row.take(j - 1));
            }
            j -= 1;
        }
        proof {
            assert(views(items@).take(i + 1).drop_last() =~= head);
        }
        order.insert(j, i);
        i += 1;
    }
    proof {
        assert(views(items@).take(i as int) =~= views(items@));
    }
    order
}

} // verus!
