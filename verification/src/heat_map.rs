//! The heat map: the score field sampled across the whole string.
//!
//! Independent of the search, the heat map always spans the full string
//! length: sample `i` of `resolution` sits at `i / resolution` of the
//! string and holds the exact score of that position.  The score field
//! depends only on the fraction `i / resolution`, so no length parameter
//! is needed; the samples match the search's own scores wherever the two
//! sample the same fraction.

use crate::score::{score, score_at, weights_ok, MAX_DEN, MAX_SCORE};
use vstd::prelude::*;

verus! {

/// The score field sampled at `resolution` evenly spaced positions over
/// the whole string: sample `i` holds the score of `i / resolution` of the
/// string length.
pub fn build_heat_map(weights: &Vec<u64>, resolution: usize) -> (heat: Vec<u64>)
    requires
        1 <= resolution <= MAX_DEN,
        weights_ok(weights@),
    ensures
        heat@.len() == resolution,
        forall|i: int| 0 <= i < resolution ==> heat@[i] == score(i, resolution as int, weights@),
        forall|i: int| 0 <= i < resolution ==> heat@[i] <= MAX_SCORE,
{
    let mut heat: Vec<u64> = Vec::new();
    let mut i: usize = 0;
    while i < resolution
        invariant
            i <= resolution,
            1 <= resolution <= MAX_DEN,
            weights_ok(weights@),
            heat@.len() == i,
            forall|k: int| 0 <= k < i ==> heat@[k] == score(k, resolution as int, weights@),
            forall|k: int| 0 <= k < i ==> heat@[k] <= MAX_SCORE,
        decreases resolution - i,
    {
        let v = score_at(i as u64, resolution as u64, weights);
        heat.push(v);
        i = i + 1;
    }
    heat
}

} // verus!
