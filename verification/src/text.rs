//! Strings as sequences of characters: their order by code point.

use vstd::prelude::*;
use vstd::std_specs::iter::IteratorSpec;
use std::hash::Hash;
use std::hash::Hasher;

verus! {

/// Where one value stands relative to another in an order.
#[derive(Clone, Copy, Debug, PartialEq, Eq, Structural)]
pub enum Rank {
    Before,
    Same,
    After,
}

/// The order of two strings by code point: the first place at which they
/// differ decides, and a proper prefix comes before the longer string.
pub open spec fn lex_rank(a: Seq<char>, b: Seq<char>) -> Rank
    decreases a.len(),
{
    if a.len() == 0 {
        if b.len() == 0 {
            Rank::Same
        } else {
            Rank::Before
        }
    } else if b.len() == 0 {
        Rank::After
    } else if (a[0] as int) < (b[0] as int) {
        Rank::Before
    } else if (a[0] as int) > (b[0] as int) {
        Rank::After
    } else {
        lex_rank(a.drop_first(), b.drop_first())
    }
}

/// Two strings rank the same exactly when they are the same string.
pub proof fn lemma_lex_same(a: Seq<char>, b: Seq<char>)
    ensures
        lex_rank(a, b) == Rank::Same <==> a == b,
    decreases a.len(),
{
    if a.len() > 0 && b.len() > 0 {
        lemma_lex_same(a.drop_first(), b.drop_first());
        if (a[0] as int) == (b[0] as int) {
            if a.drop_first() == b.drop_first() {
                assert(a =~= seq![a[0]] + a.drop_first());
                assert(b =~= seq![b[0]] + b.drop_first());
            }
        }
    } else if a.len() == 0 && b.len() == 0 {
        assert(a =~= b);
    }
}

/// Swapping the two strings swaps `Before` and `After`.
pub proof fn lemma_lex_mirror(a: Seq<char>, b: Seq<char>)
    ensures
        lex_rank(a, b) == Rank::After <==> lex_rank(b, a) == Rank::Before,
        lex_rank(a, b) == Rank::Same <==> lex_rank(b, a) == Rank::Same,
    decreases a.len(),
{
    if a.len() > 0 && b.len() > 0 {
        lemma_lex_mirror(a.drop_first(), b.drop_first());
    }
}

/// What does not come after is carried along: if `a` is not after `b` and
/// `b` is not after `c`, then `a` is not after `c`; and `a` ranks with `c`
/// only where all three rank the same.
pub proof fn lemma_lex_chain(a: Seq<char>, b: Seq<char>, c: Seq<char>)
    requires
        lex_rank(a, b) != Rank::After,
        lex_rank(b, c) != Rank::After,
    ensures
        lex_rank(a, c) != Rank::After,
        lex_rank(a, c) == Rank::Same ==> lex_rank(a, b) == Rank::Same && lex_rank(b, c)
            == Rank::Same,
    decreases a.len(),
{
    if a.len() > 0 {
        if (a[0] as int) == (b[0] as int) && (b[0] as int) == (c[0] as int) {
            lemma_lex_chain(a.drop_first(), b.drop_first(), c.drop_first());
        }
    }
}

/// `String`'s own `Hash::hash`, which feeds the string to the hasher. Nothing
/// is claimed of the hasher's state afterwards.
pub assume_specification<H: Hasher>[ <String as Hash>::hash::<H> ](s: &String, state: &mut H);

/// Compares two strings by code point.
pub fn compare_text(a: &str, b: &str) -> (rank: Rank)
    ensures
        rank == lex_rank(a@, b@),
{
    let mut left = a.chars();
    let mut right = b.chars();
    loop
        invariant
            lex_rank(a@, b@) == lex_rank(left.remaining(), right.remaining()),
            left.obeys_prophetic_iter_laws(),
            right.obeys_prophetic_iter_laws(),
            left.decrease() is Some,
        decreases left.decrease()->0,
    {
        let x = left.next();
        let y = right.next();
        match (x, y) {
            (None, None) => {
                return Rank::Same;
            },
            (None, Some(_)) => {
                return Rank::Before;
            },
            (Some(_), None) => {
                return Rank::After;
            },
            (Some(p), Some(q)) => {
                if p < q {
                    return Rank::Before;
                } else if p > q {
                    return Rank::After;
                }
            },
        }
    }
}

} // verus!
