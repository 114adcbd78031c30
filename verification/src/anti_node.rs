//! Anti-node positions of a harmonic.
//!
//! Harmonic `h` divides the string into `h` equal segments and has one
//! anti-node at the middle of each segment: the real position of anti-node
//! `i` is `(i + 1/2) * length / h`.  To keep every position an exact
//! integer, this module measures positions in units of `1 / (2 * h)` of a
//! length unit, so that anti-node `i` of harmonic `h` sits at the integer
//! `(2 * i + 1) * length`.

use vstd::prelude::*;

verus! {

/// Position of anti-node `i` of a harmonic, in units of `1 / (2 * harmonic)`
/// of a length unit: the real position is `(2 * i + 1) * length / (2 * harmonic)`.
pub open spec fn anti_node_pos(length: int, i: int) -> int {
    (2 * i + 1) * length
}

/// The anti-node positions of `harmonic`, scaled as in [`anti_node_pos`].
pub fn anti_nodes_scaled(length: u64, harmonic: u64) -> (nodes: Vec<u64>)
    requires
        1 <= harmonic,
        1 <= length,
        (2 * harmonic - 1) * length <= u64::MAX,
    ensures
        nodes@.len() == harmonic,
        forall|i: int| 0 <= i < harmonic ==> nodes@[i] == anti_node_pos(length as int, i),
{
    let mut nodes: Vec<u64> = Vec::new();
    let mut i: u64 = 0;
    while i < harmonic
        invariant
            0 <= i <= harmonic,
            1 <= length,
            (2 * harmonic - 1) * length <= u64::MAX,
            nodes@.len() == i,
            forall|k: int| 0 <= k < i ==> nodes@[k] == anti_node_pos(length as int, k),
        decreases harmonic - i,
    {
        assert(2 * i + 1 <= (2 * harmonic - 1) * length && (2 * i + 1) * length <= (2 * harmonic
            - 1) * length) by (nonlinear_arith)
            requires
                0 <= i < harmonic,
                1 <= length,
        ;
        nodes.push((2 * i + 1) * length);
        i = i + 1;
    }
    nodes
}

/// The anti-nodes of a harmonic are evenly spaced: there are `harmonic` of
/// them, the first sits half a segment from the end of the string, each is a
/// full segment `length / harmonic` past the one before, and all lie
/// strictly inside the string.  In the scaled units of [`anti_node_pos`]
/// (per `1 / (2 * harmonic)` of a length unit) a segment is `2 * length`
/// and the whole string is `2 * harmonic * length`.
pub proof fn lemma_anti_nodes_evenly_spaced(length: int, harmonic: int)
    requires
        1 <= harmonic,
        1 <= length,
    ensures
        anti_node_pos(length, 0) == length,
        forall|i: int| 1 <= i < harmonic ==> #[trigger] anti_node_pos(length, i) - anti_node_pos(length, i - 1) == 2 * length,
        forall|i: int| 0 <= i < harmonic ==> 0 < #[trigger] anti_node_pos(length, i) < 2 * harmonic * length,
{
    assert forall|i: int| 1 <= i < harmonic implies #[trigger] anti_node_pos(length, i)
        - anti_node_pos(length, i - 1) == 2 * length by {
        assert((2 * i + 1) * length - (2 * (i - 1) + 1) * length == 2 * length) by (nonlinear_arith);
    }
    assert forall|i: int| 0 <= i < harmonic implies 0 < #[trigger] anti_node_pos(length, i) < 2
        * harmonic * length by {
        assert(0 < (2 * i + 1) * length < 2 * harmonic * length) by (nonlinear_arith)
            requires
                0 <= i < harmonic,
                1 <= length,
        ;
    }
}

} // verus!
