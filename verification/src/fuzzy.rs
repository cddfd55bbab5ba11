//! Approximate-match ranking for "did you mean" diagnostics, done by the
//! `simsearch` crate behind a trusted wrapper.
//!
//! The ranking is purely advisory: it feeds suggestion strings, never a
//! resolution outcome, so nothing is claimed of which candidates come back
//! or in what order — only that every hit is one of the candidates given.

use vstd::prelude::*;

verus! {

/// Relies on `simsearch::Index::insert` and `simsearch::Index::search`:
/// each candidate name is inserted under its index in `names`, and every
/// hit the search returns carries an id that was inserted, each id at most
/// once.
#[verifier::external_body]
pub(crate) fn fuzzy_rank(query: &str, names: &Vec<String>) -> (r: Vec<usize>)
    ensures
        forall|i: int| 0 <= i < r@.len() ==> (#[trigger] r@[i]) < names@.len(),
        forall|i: int, j: int| 0 <= i < j < r@.len() ==> r@[i] != r@[j],
{
    let mut engine: simsearch::Index<usize> = simsearch::Index::new();
    for (i, n) in names.iter().enumerate() {
        engine.insert(i, n);
    }
    engine.search(query).into_iter().map(|hit| hit.id).collect()
}

} // verus!
