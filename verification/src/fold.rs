//! Unicode case folding, as the `caseless` crate computes it.

use vstd::prelude::*;

verus! {

/// The default Unicode case folding of a string: what
/// `caseless::default_case_fold_str` returns for it.
pub uninterp spec fn case_fold(s: Seq<char>) -> Seq<char>;

/// Calls `caseless::default_case_fold_str`. The folding depends on the
/// characters of `s` alone, so its result carries the name `case_fold`.
#[verifier::external_body]
pub(crate) fn fold_case(s: &str) -> (folded: String)
    ensures
        folded@ == case_fold(s@),
{
    caseless::default_case_fold_str(s)
}

/// Calls `caseless::default_caseless_match_str`, which folds both strings
/// character by character and compares the two foldings for equality.
#[verifier::external_body]
pub(crate) fn caseless_match(a: &str, b: &str) -> (same: bool)
    ensures
        same == (case_fold(a@) == case_fold(b@)),
{
    caseless::default_caseless_match_str(a, b)
}

} // verus!
