//! The score field: weighted proximity to anti-nodes.
//!
//! A position is the exact fraction `pos / len` of the string length; the
//! score field depends only on that fraction.  For harmonic `h`, the
//! distance from `pos / len` to anti-node `j` (at `(2j + 1) / (2h)` of the
//! string) is `|2 h pos - (2j + 1) len| / (2 h len)` of the string, which is
//! `|2 h pos - (2j + 1) len| / len` half-wavelengths, the unit in which the
//! falloff window is defined.  So with integer `pos` and `len` the
//! normalized distance of the falloff is the exact rational `d / len` with
//! `d = min_j |2 h pos - (2j + 1) len|`, clamped to one half-wavelength
//! (`d = len`).
//!
//! The falloff weighs the normalized distance `x = d / len` through a
//! smooth window that is 1 at `x = 0` and 0 at `x = 1`, the half-wave
//! cosine `cos(x * pi / 2)`.  Exact integers cannot hold a cosine, so the
//! window is computed as the rational function
//!
//! ```text
//!     4 (len^2 - d^2) / (4 len^2 + d^2)
//! ```
//!
//! (the half-wave cosine's classical rational approximation, exact at both
//! ends, within 0.0022 of the cosine in between, and strictly decreasing),
//! scaled by [`FALLOFF_ONE`].  A harmonic contributes its weight times its
//! falloff; the score of a position is the sum over the harmonics, so a
//! score of `weight * FALLOFF_ONE` means a falloff of exactly 1 for a
//! harmonic of that weight.

use vstd::arithmetic::div_mod::{
    lemma_div_denominator, lemma_div_is_ordered, lemma_div_multiples_vanish, lemma_div_pos_is_pos,
    lemma_fundamental_div_mod, lemma_mod_pos_bound,
};
use vstd::prelude::*;

verus! {

/// The falloff value that stands for 1.0: the falloff of a position that
/// sits exactly on an anti-node.
pub const FALLOFF_ONE: u64 = 1_000_000;

/// Largest supported position denominator (`len` in [`score_at`]).
pub const MAX_DEN: u64 = 1_000_000;

/// Largest supported harmonic weight.
pub const MAX_WEIGHT: u64 = 1_000_000;

/// Largest supported number of weighted harmonics.
pub const MAX_HARMONICS: u64 = 1000;

/// Largest value [`score_at`] can return:
/// `MAX_HARMONICS * MAX_WEIGHT * FALLOFF_ONE`.
pub const MAX_SCORE: u64 = 1_000_000_000_000_000;

/// The absolute difference of two integers.
pub open spec fn abs_diff(a: int, b: int) -> int {
    if a >= b {
        a - b
    } else {
        b - a
    }
}

/// Distance from the position `pos / len` of the string to anti-node `j` of
/// `harmonic`, in half-wavelengths of that harmonic scaled by `len`.
pub open spec fn node_dist(pos: int, len: int, harmonic: int, j: int) -> int {
    abs_diff(2 * harmonic * pos, (2 * j + 1) * len)
}

/// The distance that drives the falloff is measured to the anti-nodes of
/// [`crate::anti_node`]: in units of `1 / (2 * harmonic * len)` of the
/// string, position `pos / len` sits at `2 * harmonic * pos` and anti-node
/// `j` at `anti_node_pos(len, j)`.
pub proof fn lemma_node_dist_from_anti_node(pos: int, len: int, harmonic: int, j: int)
    ensures
        node_dist(pos, len, harmonic, j) == abs_diff(
            2 * harmonic * pos,
            crate::anti_node::anti_node_pos(len, j),
        ),
{
}

/// Least distance from `pos / len` to any of the first `n` anti-nodes of
/// `harmonic`, for `n >= 1`.
pub open spec fn min_node_dist(pos: int, len: int, harmonic: int, n: int) -> int
    decreases n,
{
    if n <= 1 {
        node_dist(pos, len, harmonic, 0)
    } else {
        let rest = min_node_dist(pos, len, harmonic, n - 1);
        let last = node_dist(pos, len, harmonic, n - 1);
        if last < rest {
            last
        } else {
            rest
        }
    }
}

/// Least distance from `pos / len` to any anti-node of `harmonic`, clamped
/// to one half-wavelength (`len`), past which the falloff window is flat 0.
pub open spec fn clamped_dist(pos: int, len: int, harmonic: int) -> int {
    let d = min_node_dist(pos, len, harmonic, harmonic);
    if d > len {
        len
    } else {
        d
    }
}

/// The falloff window at normalized distance `d / len`, scaled by
/// [`FALLOFF_ONE`]: the rational approximation of `cos((d / len) * pi / 2)`.
pub open spec fn falloff(d: int, len: int) -> int {
    4 * FALLOFF_ONE * (len * len - d * d) / (4 * (len * len) + d * d)
}

/// What one harmonic of weight `weight` adds to the score of `pos / len`.
pub open spec fn contribution(pos: int, len: int, harmonic: int, weight: int) -> int {
    weight * falloff(clamped_dist(pos, len, harmonic), len)
}

/// Score of the position `pos / len` from the first `k` weights; weight `t`
/// belongs to harmonic `t + 2`.
pub open spec fn score_prefix(pos: int, len: int, weights: Seq<u64>, k: int) -> int
    decreases k,
{
    if k <= 0 {
        0
    } else {
        score_prefix(pos, len, weights, k - 1) + contribution(
            pos,
            len,
            k + 1,
            weights[k - 1] as int,
        )
    }
}

/// Score of the position `pos / len` of the string under `weights`, where
/// weight `t` belongs to harmonic `t + 2`.
pub open spec fn score(pos: int, len: int, weights: Seq<u64>) -> int {
    score_prefix(pos, len, weights, weights.len() as int)
}

/// Sum of the first `k` weights.
pub open spec fn sum_weights_prefix(weights: Seq<u64>, k: int) -> int
    decreases k,
{
    if k <= 0 {
        0
    } else {
        sum_weights_prefix(weights, k - 1) + weights[k - 1]
    }
}

/// Sum of all the weights.
pub open spec fn sum_weights(weights: Seq<u64>) -> int {
    sum_weights_prefix(weights, weights.len() as int)
}

/// The weight vector is within the supported bounds.
pub open spec fn weights_ok(weights: Seq<u64>) -> bool {
    &&& weights.len() <= MAX_HARMONICS
    &&& forall|i: int| 0 <= i < weights.len() ==> weights[i] <= MAX_WEIGHT
}

/// A quotient is at most `b` when the dividend is at most `b * c`.
pub(crate) proof fn lemma_div_le_bound(a: int, b: int, c: int)
    requires
        0 <= a,
        0 <= b,
        1 <= c,
        a <= b * c,
    ensures
        a / c <= b,
{
    assert(b * c == c * b) by (nonlinear_arith);
    lemma_div_is_ordered(a, c * b, c);
    lemma_div_multiples_vanish(b, c);
}

/// A quotient is at least `b` when the dividend is at least `b * c`.
pub(crate) proof fn lemma_div_ge_bound(a: int, b: int, c: int)
    requires
        1 <= c,
        b * c <= a,
    ensures
        b <= a / c,
{
    assert(b * c == c * b) by (nonlinear_arith);
    lemma_div_is_ordered(c * b, a, c);
    lemma_div_multiples_vanish(b, c);
}

/// Integer division respects the order of fractions: `a / b <= c / d`
/// whenever the rational `a / b` is at most the rational `c / d`.
pub(crate) proof fn lemma_frac_le(a: int, b: int, c: int, d: int)
    requires
        0 <= a,
        1 <= b,
        0 <= c,
        1 <= d,
        a * d <= c * b,
    ensures
        a / b <= c / d,
{
    let q = a / b;
    lemma_fundamental_div_mod(a, b);
    lemma_mod_pos_bound(a, b);
    lemma_div_pos_is_pos(a, b);
    assert(b * q <= a);
    assert(q * d <= c) by (nonlinear_arith)
        requires
            b * q <= a,
            a * d <= c * b,
            1 <= b,
            1 <= d,
            0 <= q,
    ;
    lemma_div_ge_bound(c, q, d);
}

/// The falloff window lies between 0 and [`FALLOFF_ONE`], is exactly
/// [`FALLOFF_ONE`] on an anti-node, and exactly 0 one half-wavelength away.
pub proof fn lemma_falloff_bounds(d: int, len: int)
    requires
        0 <= d <= len,
        1 <= len,
    ensures
        0 <= falloff(d, len) <= FALLOFF_ONE,
        d == 0 ==> falloff(d, len) == FALLOFF_ONE,
        d == len ==> falloff(d, len) == 0,
{
    let l2 = len * len;
    let d2 = d * d;
    let num = 4 * FALLOFF_ONE * (l2 - d2);
    let den = 4 * l2 + d2;
    assert(1 <= l2 && 0 <= d2 <= l2) by (nonlinear_arith)
        requires
            0 <= d <= len,
            1 <= len,
            l2 == len * len,
            d2 == d * d,
    ;
    lemma_div_pos_is_pos(num, den);
    assert(num <= FALLOFF_ONE * den) by (nonlinear_arith)
        requires
            num == 4 * FALLOFF_ONE * (l2 - d2),
            den == 4 * l2 + d2,
            0 <= d2 <= l2,
    ;
    lemma_div_le_bound(num, FALLOFF_ONE as int, den);
    if d == 0 {
        assert(num == (4 * l2) * (FALLOFF_ONE as int)) by (nonlinear_arith)
            requires
                num == 4 * FALLOFF_ONE * (l2 - 0),
        ;
        lemma_div_multiples_vanish(FALLOFF_ONE as int, 4 * l2);
    }
    if d == len {
        assert(num == 0) by (nonlinear_arith)
            requires
                num == 4 * FALLOFF_ONE * (l2 - d2),
                l2 == len * len,
                d2 == d * d,
                d == len,
        ;
        lemma_div_le_bound(num, 0, den);
    }
}

/// The falloff window never increases as the normalized distance grows.
pub proof fn lemma_falloff_monotone(d1: int, d2: int, len: int)
    requires
        0 <= d1 <= d2 <= len,
        1 <= len,
    ensures
        falloff(d2, len) <= falloff(d1, len),
{
    let l2 = len * len;
    let num1 = 4 * FALLOFF_ONE * (l2 - d1 * d1);
    let den1 = 4 * l2 + d1 * d1;
    let num2 = 4 * FALLOFF_ONE * (l2 - d2 * d2);
    let den2 = 4 * l2 + d2 * d2;
    assert(1 <= l2 && 0 <= d1 * d1 <= l2 && 0 <= d2 * d2 <= l2) by (nonlinear_arith)
        requires
            0 <= d1 <= d2 <= len,
            1 <= len,
            l2 == len * len,
    ;
    assert(num2 * den1 <= num1 * den2) by (nonlinear_arith)
        requires
            0 <= d1 <= d2 <= len,
            1 <= len,
            l2 == len * len,
            num1 == 4 * FALLOFF_ONE * (l2 - d1 * d1),
            den1 == 4 * l2 + d1 * d1,
            num2 == 4 * FALLOFF_ONE * (l2 - d2 * d2),
            den2 == 4 * l2 + d2 * d2,
    ;
    lemma_frac_le(num2, den2, num1, den1);
}

/// The least anti-node distance is never negative.
pub proof fn lemma_min_node_dist_nonneg(pos: int, len: int, harmonic: int, n: int)
    ensures
        0 <= min_node_dist(pos, len, harmonic, n),
    decreases n,
{
    if n > 1 {
        lemma_min_node_dist_nonneg(pos, len, harmonic, n - 1);
    }
}

/// The least anti-node distance is at most the distance to any one anti-node.
pub proof fn lemma_min_node_dist_le(pos: int, len: int, harmonic: int, n: int, j: int)
    requires
        0 <= j < n,
    ensures
        min_node_dist(pos, len, harmonic, n) <= node_dist(pos, len, harmonic, j),
    decreases n,
{
    if n > 1 && j < n - 1 {
        lemma_min_node_dist_le(pos, len, harmonic, n - 1, j);
    }
}

/// The clamped anti-node distance lies between 0 and one half-wavelength.
pub proof fn lemma_clamped_dist_range(pos: int, len: int, harmonic: int)
    requires
        1 <= harmonic,
        1 <= len,
    ensures
        0 <= clamped_dist(pos, len, harmonic) <= len,
{
    lemma_min_node_dist_nonneg(pos, len, harmonic, harmonic);
}

/// A harmonic's contribution lies between 0 and its weight times
/// [`FALLOFF_ONE`].
pub proof fn lemma_contribution_bounds(pos: int, len: int, harmonic: int, weight: int)
    requires
        1 <= harmonic,
        1 <= len,
        0 <= weight,
    ensures
        0 <= contribution(pos, len, harmonic, weight) <= weight * FALLOFF_ONE,
{
    let d = clamped_dist(pos, len, harmonic);
    lemma_clamped_dist_range(pos, len, harmonic);
    lemma_falloff_bounds(d, len);
    assert(0 <= weight * falloff(d, len) <= weight * FALLOFF_ONE) by (nonlinear_arith)
        requires
            0 <= weight,
            0 <= falloff(d, len) <= FALLOFF_ONE,
    ;
}

/// A harmonic's contribution is largest exactly on one of its anti-nodes:
/// there it is its weight times [`FALLOFF_ONE`], the bound of
/// [`lemma_contribution_bounds`].
pub proof fn lemma_contribution_at_anti_node(
    pos: int,
    len: int,
    harmonic: int,
    weight: int,
    j: int,
)
    requires
        1 <= len,
        0 <= j < harmonic,
        0 <= weight,
        2 * harmonic * pos == (2 * j + 1) * len,
    ensures
        clamped_dist(pos, len, harmonic) == 0,
        contribution(pos, len, harmonic, weight) == weight * FALLOFF_ONE,
{
    assert(node_dist(pos, len, harmonic, j) == 0);
    lemma_min_node_dist_le(pos, len, harmonic, harmonic, j);
    lemma_min_node_dist_nonneg(pos, len, harmonic, harmonic);
    lemma_falloff_bounds(0, len);
}

/// Between two positions, the one whose clamped distance to a harmonic's
/// anti-nodes is larger never gets the larger contribution from that
/// harmonic: the score field falls monotonically with anti-node distance.
pub proof fn lemma_contribution_monotone(
    pos1: int,
    pos2: int,
    len: int,
    harmonic: int,
    weight: int,
)
    requires
        1 <= harmonic,
        1 <= len,
        0 <= weight,
        clamped_dist(pos1, len, harmonic) <= clamped_dist(pos2, len, harmonic),
    ensures
        contribution(pos2, len, harmonic, weight) <= contribution(pos1, len, harmonic, weight),
{
    let d1 = clamped_dist(pos1, len, harmonic);
    let d2 = clamped_dist(pos2, len, harmonic);
    lemma_clamped_dist_range(pos1, len, harmonic);
    lemma_clamped_dist_range(pos2, len, harmonic);
    lemma_falloff_monotone(d1, d2, len);
    assert(weight * falloff(d2, len) <= weight * falloff(d1, len)) by (nonlinear_arith)
        requires
            0 <= weight,
            falloff(d2, len) <= falloff(d1, len),
    ;
}

/// A score prefix stays between 0 and `k` times the largest contribution.
pub proof fn lemma_score_prefix_bounds(pos: int, len: int, weights: Seq<u64>, k: int)
    requires
        1 <= len,
        0 <= k <= weights.len(),
        weights_ok(weights),
    ensures
        0 <= score_prefix(pos, len, weights, k) <= k * (MAX_WEIGHT * FALLOFF_ONE),
    decreases k,
{
    if k > 0 {
        lemma_score_prefix_bounds(pos, len, weights, k - 1);
        let w = weights[k - 1] as int;
        lemma_contribution_bounds(pos, len, k + 1, w);
        assert(w * FALLOFF_ONE <= MAX_WEIGHT * FALLOFF_ONE) by (nonlinear_arith)
            requires
                0 <= w <= MAX_WEIGHT,
        ;
    }
}

/// No position scores more than the sum of the weights: a score of
/// `FALLOFF_ONE * sum_weights(weights)` means every harmonic's falloff is
/// exactly 1 there, which is what an anti-node shared by all the weighted
/// harmonics would get.
pub proof fn lemma_score_le_weight_sum(pos: int, len: int, weights: Seq<u64>)
    requires
        1 <= len,
    ensures
        score(pos, len, weights) <= FALLOFF_ONE * sum_weights(weights),
{
    lemma_score_prefix_le_weight_sum(pos, len, weights, weights.len() as int);
}

proof fn lemma_score_prefix_le_weight_sum(pos: int, len: int, weights: Seq<u64>, k: int)
    requires
        1 <= len,
        k <= weights.len(),
    ensures
        score_prefix(pos, len, weights, k) <= FALLOFF_ONE * sum_weights_prefix(weights, k),
    decreases k,
{
    if k > 0 {
        lemma_score_prefix_le_weight_sum(pos, len, weights, k - 1);
        let w = weights[k - 1] as int;
        lemma_contribution_bounds(pos, len, k + 1, w);
        assert(w * FALLOFF_ONE == FALLOFF_ONE * w) by (nonlinear_arith);
        assert(FALLOFF_ONE * sum_weights_prefix(weights, k) == FALLOFF_ONE * sum_weights_prefix(
            weights,
            k - 1,
        ) + FALLOFF_ONE * w) by (nonlinear_arith)
            requires
                sum_weights_prefix(weights, k) == sum_weights_prefix(weights, k - 1) + w,
        ;
    }
}

/// With every weight zero the score field is identically zero.
pub proof fn lemma_score_zero_weights(pos: int, len: int, weights: Seq<u64>)
    requires
        1 <= len,
        forall|i: int| 0 <= i < weights.len() ==> weights[i] == 0,
    ensures
        score(pos, len, weights) == 0,
{
    lemma_score_prefix_zero_weights(pos, len, weights, weights.len() as int);
}

proof fn lemma_score_prefix_zero_weights(pos: int, len: int, weights: Seq<u64>, k: int)
    requires
        1 <= len,
        k <= weights.len(),
        forall|i: int| 0 <= i < weights.len() ==> weights[i] == 0,
    ensures
        score_prefix(pos, len, weights, k) == 0,
    decreases k,
{
    if k > 0 {
        lemma_score_prefix_zero_weights(pos, len, weights, k - 1);
        lemma_contribution_bounds(pos, len, k + 1, 0);
        assert(contribution(pos, len, k + 1, 0) == 0) by {
            assert(0 * falloff(clamped_dist(pos, len, k + 1), len) == 0) by (nonlinear_arith);
        }
    }
}

/// The position `pos / len` sits exactly on an anti-node of `harmonic`.
pub open spec fn on_anti_node(pos: int, len: int, harmonic: int) -> bool {
    exists|j: int| 0 <= j < harmonic && #[trigger] node_dist(pos, len, harmonic, j) == 0
}

/// A position that sits on an anti-node of every weighted harmonic reaches
/// the bound of [`lemma_score_le_weight_sum`] exactly: its score is
/// `FALLOFF_ONE * sum_weights(weights)`, the largest the field can take.
pub proof fn lemma_score_at_shared_anti_node(pos: int, len: int, weights: Seq<u64>)
    requires
        1 <= len,
        forall|h: int| 2 <= h < weights.len() + 2 ==> #[trigger] on_anti_node(pos, len, h),
    ensures
        score(pos, len, weights) == FALLOFF_ONE * sum_weights(weights),
{
    lemma_score_prefix_at_shared_anti_node(pos, len, weights, weights.len() as int);
}

proof fn lemma_score_prefix_at_shared_anti_node(pos: int, len: int, weights: Seq<u64>, k: int)
    requires
        1 <= len,
        0 <= k <= weights.len(),
        forall|h: int| 2 <= h < weights.len() + 2 ==> #[trigger] on_anti_node(pos, len, h),
    ensures
        score_prefix(pos, len, weights, k) == FALLOFF_ONE * sum_weights_prefix(weights, k),
    decreases k,
{
    if k > 0 {
        lemma_score_prefix_at_shared_anti_node(pos, len, weights, k - 1);
        let w = weights[k - 1] as int;
        assert(on_anti_node(pos, len, k + 1));
        let j = choose|j: int| 0 <= j < k + 1 && #[trigger] node_dist(pos, len, k + 1, j) == 0;
        lemma_contribution_at_anti_node(pos, len, k + 1, w, j);
        assert(w * FALLOFF_ONE == FALLOFF_ONE * w) by (nonlinear_arith);
        assert(FALLOFF_ONE * sum_weights_prefix(weights, k) == FALLOFF_ONE * sum_weights_prefix(
            weights,
            k - 1,
        ) + FALLOFF_ONE * w) by (nonlinear_arith)
            requires
                sum_weights_prefix(weights, k) == sum_weights_prefix(weights, k - 1) + w,
        ;
    }
}

proof fn lemma_node_dist_scales(pos: int, len: int, harmonic: int, j: int, c: int)
    requires
        0 <= c,
    ensures
        node_dist(c * pos, c * len, harmonic, j) == c * node_dist(pos, len, harmonic, j),
{
    let a = 2 * harmonic * pos;
    let b = (2 * j + 1) * len;
    assert(2 * harmonic * (c * pos) == c * a && (2 * j + 1) * (c * len) == c * b)
        by (nonlinear_arith)
        requires
            a == 2 * harmonic * pos,
            b == (2 * j + 1) * len,
    ;
    assert((if c * a >= c * b {
        c * a - c * b
    } else {
        c * b - c * a
    }) == c * (if a >= b {
        a - b
    } else {
        b - a
    })) by (nonlinear_arith)
        requires
            0 <= c,
    ;
}

proof fn lemma_min_node_dist_scales(pos: int, len: int, harmonic: int, n: int, c: int)
    requires
        0 <= c,
    ensures
        min_node_dist(c * pos, c * len, harmonic, n) == c * min_node_dist(pos, len, harmonic, n),
    decreases n,
{
    if n <= 1 {
        lemma_node_dist_scales(pos, len, harmonic, 0, c);
    } else {
        lemma_min_node_dist_scales(pos, len, harmonic, n - 1, c);
        lemma_node_dist_scales(pos, len, harmonic, n - 1, c);
        let last = node_dist(pos, len, harmonic, n - 1);
        let rest = min_node_dist(pos, len, harmonic, n - 1);
        assert((if c * last < c * rest {
            c * last
        } else {
            c * rest
        }) == c * (if last < rest {
            last
        } else {
            rest
        })) by (nonlinear_arith)
            requires
                0 <= c,
        ;
    }
}

proof fn lemma_falloff_scales(d: int, len: int, c: int)
    requires
        0 <= d <= len,
        1 <= len,
        1 <= c,
    ensures
        falloff(c * d, c * len) == falloff(d, len),
{
    let num = 4 * FALLOFF_ONE * (len * len - d * d);
    let den = 4 * (len * len) + d * d;
    let c2 = c * c;
    assert(1 <= c2 && 0 <= num && 1 <= den && 4 * FALLOFF_ONE * ((c * len) * (c * len) - (c * d) * (
    c * d)) == c2 * num && 4 * ((c * len) * (c * len)) + (c * d) * (c * d) == c2 * den && 0 <= c2
        * num && 1 <= c2 * den) by (nonlinear_arith)
        requires
            0 <= d <= len,
            1 <= len,
            1 <= c,
            num == 4 * FALLOFF_ONE * (len * len - d * d),
            den == 4 * (len * len) + d * d,
            c2 == c * c,
    ;
    lemma_div_denominator(c2 * num, c2, den);
    lemma_div_multiples_vanish(num, c2);
}

proof fn lemma_contribution_scales(pos: int, len: int, harmonic: int, weight: int, c: int)
    requires
        1 <= harmonic,
        1 <= len,
        1 <= c,
    ensures
        contribution(c * pos, c * len, harmonic, weight) == contribution(pos, len, harmonic, weight),
{
    lemma_min_node_dist_scales(pos, len, harmonic, harmonic, c);
    let d = min_node_dist(pos, len, harmonic, harmonic);
    assert((if c * d > c * len {
        c * len
    } else {
        c * d
    }) == c * (if d > len {
        len
    } else {
        d
    })) by (nonlinear_arith)
        requires
            1 <= c,
    ;
    lemma_clamped_dist_range(pos, len, harmonic);
    lemma_falloff_scales(clamped_dist(pos, len, harmonic), len, c);
}

/// The score field depends only on the fraction `pos / len` of the string:
/// scaling position and length together leaves every score unchanged.
/// This is what lets the search and the heat map sample the same field at
/// their own resolutions.
pub proof fn lemma_score_scale_invariant(pos: int, len: int, c: int, weights: Seq<u64>)
    requires
        1 <= len,
        1 <= c,
    ensures
        score(c * pos, c * len, weights) == score(pos, len, weights),
{
    lemma_score_prefix_scales(pos, len, weights, weights.len() as int, c);
}

proof fn lemma_score_prefix_scales(pos: int, len: int, weights: Seq<u64>, k: int, c: int)
    requires
        1 <= len,
        1 <= c,
    ensures
        score_prefix(c * pos, c * len, weights, k) == score_prefix(pos, len, weights, k),
    decreases k,
{
    if k > 0 {
        lemma_score_prefix_scales(pos, len, weights, k - 1, c);
        lemma_contribution_scales(pos, len, k + 1, weights[k - 1] as int, c);
    }
}

/// The falloff window at clamped distance `d` of a position, as an exact
/// integer.
fn falloff_at(d: u64, len: u64) -> (f: u64)
    requires
        1 <= len <= MAX_DEN,
        d <= len,
    ensures
        f == falloff(d as int, len as int),
        f <= FALLOFF_ONE,
{
    proof {
        assert(1 <= len * len <= 1_000_000_000_000 && d * d <= len * len) by (nonlinear_arith)
            requires
                1 <= len <= 1_000_000u64,
                d <= len,
        ;
        lemma_falloff_bounds(d as int, len as int);
    }
    let l2 = len * len;
    let d2 = d * d;
    let num = 4 * FALLOFF_ONE * (l2 - d2);
    let den = 4 * l2 + d2;
    num / den
}

/// Least distance from the position `pos / len` to any anti-node of
/// `harmonic`, in half-wavelengths of `harmonic` scaled by `len`.
fn min_anti_node_dist(pos: u64, len: u64, harmonic: u64) -> (d: u64)
    requires
        1 <= len <= MAX_DEN,
        pos <= len,
        1 <= harmonic <= MAX_HARMONICS + 1,
    ensures
        d == min_node_dist(pos as int, len as int, harmonic as int, harmonic as int),
{
    proof {
        assert(2 * harmonic * pos <= 2_002_000_000 && 2 * harmonic <= 2002) by (nonlinear_arith)
            requires
                1 <= harmonic <= 1001u64,
                pos <= len <= 1_000_000u64,
        ;
    }
    let target = 2 * harmonic * pos;
    let mut best: u64 = if target >= len {
        target - len
    } else {
        len - target
    };
    proof {
        assert(node_dist(pos as int, len as int, harmonic as int, 0) == abs_diff(
            2 * harmonic * pos,
            len as int,
        ));
        assert(best == min_node_dist(pos as int, len as int, harmonic as int, 1));
    }
    let mut j: u64 = 1;
    while j < harmonic
        invariant
            1 <= j <= harmonic <= MAX_HARMONICS + 1,
            1 <= len <= MAX_DEN,
            pos <= len,
            target == 2 * harmonic * pos,
            best == min_node_dist(pos as int, len as int, harmonic as int, j as int),
        decreases harmonic - j,
    {
        proof {
            assert((2 * j + 1) * len <= 2_003_000_000 && 2 * j + 1 <= 2003) by (nonlinear_arith)
                requires
                    1 <= j < harmonic <= 1001u64,
                    1 <= len <= 1_000_000u64,
            ;
        }
        let node = (2 * j + 1) * len;
        let dist = if target >= node {
            target - node
        } else {
            node - target
        };
        if dist < best {
            best = dist;
        }
        j = j + 1;
    }
    best
}

/// Score of the position `pos / len` of the string under `weights`: the
/// exact integer `score(pos, len, weights)`, in which weight `t` drives
/// harmonic `t + 2` and a full-strength harmonic contributes its weight
/// times [`FALLOFF_ONE`].
pub fn score_at(pos: u64, len: u64, weights: &Vec<u64>) -> (s: u64)
    requires
        1 <= len <= MAX_DEN,
        pos <= len,
        weights_ok(weights@),
    ensures
        s == score(pos as int, len as int, weights@),
        s <= MAX_SCORE,
{
    let mut s: u64 = 0;
    let mut k: usize = 0;
    while k < weights.len()
        invariant
            0 <= k <= weights@.len(),
            1 <= len <= MAX_DEN,
            pos <= len,
            weights_ok(weights@),
            s == score_prefix(pos as int, len as int, weights@, k as int),
            s <= (k as int) * 1_000_000_000_000,
        decreases weights@.len() - k,
    {
        let h = (k as u64) + 2;
        let d = min_anti_node_dist(pos, len, h);
        let dc = if d > len {
            len
        } else {
            d
        };
        let f = falloff_at(dc, len);
        let w = weights[k];
        proof {
            assert(clamped_dist(pos as int, len as int, h as int) == dc);
            assert(w * f <= 1_000_000_000_000) by (nonlinear_arith)
                requires
                    w <= 1_000_000u64,
                    f <= 1_000_000u64,
            ;
            assert((k as int + 1) * 1_000_000_000_000 == (k as int) * 1_000_000_000_000
                + 1_000_000_000_000) by (nonlinear_arith);
            assert((k as int) * 1_000_000_000_000 <= 1000 * 1_000_000_000_000) by (nonlinear_arith)
                requires
                    0 <= k <= 1000,
            ;
        }
        s = s + w * f;
        k = k + 1;
    }
    proof {
        assert((k as int) * 1_000_000_000_000 <= MAX_SCORE) by (nonlinear_arith)
            requires
                0 <= k <= 1000,
                MAX_SCORE == 1_000_000_000_000_000u64,
        ;
    }
    s
}

} // verus!
