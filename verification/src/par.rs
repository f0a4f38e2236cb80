//! The data-parallel fan-out over independent candidates.

use crate::matching::match_one;
use crate::matching::match_spec;
use crate::matching::result_matches;
use crate::matching::MatchResult;
use crate::score::ScoringMode;
use rayon::iter::IntoParallelRefIterator;
use rayon::iter::ParallelIterator;
use vstd::prelude::*;

verus! {

/// Relies on `rayon`'s `par_iter`, `map` and `collect`: mapping an indexed
/// parallel iterator and collecting into a `Vec` applies the closure to each
/// element exactly once and keeps the input order. The closure only calls
/// the verified per-pair matcher and copies fields, so each output entry is
/// its input's index, its candidate, and exactly that pair's match.
#[verifier::external_body]
pub(crate) fn par_match(
    query: &str,
    case_sensitive: bool,
    mode: ScoringMode,
    items: &Vec<(usize, String)>,
    prefiltered: bool,
) -> (r: Vec<(usize, String, MatchResult)>)
    ensures
        r@.len() == items@.len(),
        forall|t: int|
            0 <= t < r@.len() ==> {
                &&& (#[trigger] r@[t]).0 == items@[t].0
                &&& r@[t].1@ == items@[t].1@
                &&& result_matches(
                    &r@[t].2,
                    match_spec(query@, items@[t].1@, case_sensitive, mode),
                )
            },
{
    items.par_iter().map(
        |p: &(usize, String)|
            (p.0, p.1.clone(), match_one(query, &p.1, case_sensitive, mode, prefiltered)),
    ).collect()
}

} // verus!
