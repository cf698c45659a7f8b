//! The natural, case-insensitive order of file names, as the `natord` crate
//! computes it.

use vstd::prelude::*;
use crate::text::Rank;

verus! {

/// Where `a` stands relative to `b` in natural order, letter case ignored:
/// what `natord::compare_ignore_case` returns for them. Runs of digits count
/// by their number, so that `file2` comes before `file10`.
pub uninterp spec fn natural_rank(a: Seq<char>, b: Seq<char>) -> Rank;

/// Calls `natord::compare_ignore_case`. The comparison reads the characters
/// of the two names and nothing else, so its result carries the name
/// `natural_rank`.
#[verifier::external_body]
pub(crate) fn compare_names(a: &str, b: &str) -> (rank: Rank)
    ensures
        rank == natural_rank(a@, b@),
{
    match natord::compare_ignore_case(a, b) {
        std::cmp::Ordering::Less => Rank::Before,
        std::cmp::Ordering::Equal => Rank::Same,
        std::cmp::Ordering::Greater => Rank::After,
    }
}

} // verus!
