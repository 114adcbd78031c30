//! Search for the two recommended pickup positions.
//!
//! The string is sampled at the fixed resolution [`RESOLUTION`]: sample `i`
//! sits at `i / RESOLUTION` of the string length, and the search scores the
//! samples `0 ..= search_limit`.  The bridge pickup goes on the first
//! sample of maximal score.  Around it an exclusion region is grown by
//! walking outward in both directions while the score keeps falling; a
//! direction also ends once the walk is at least a tenth of the string away
//! from the bridge and the score has dropped below half the bridge score.
//! The neck pickup goes on the first sample of maximal score strictly
//! outside the exclusion region; when no sample is left outside it, the
//! neck position falls back to three tenths of the string length.
//!
//! Positions are returned in thousandths of a length unit, which is exact:
//! sample `i` of a string of length `L` sits at `i * L` thousandths.

use crate::score::{lemma_score_zero_weights, score, score_at, weights_ok, MAX_SCORE};
use vstd::arithmetic::div_mod::lemma_div_multiples_vanish;
use vstd::prelude::*;

verus! {

/// Samples per string length: sample `i` sits at `i / RESOLUTION` of the
/// string.
pub const RESOLUTION: u64 = 1000;

/// Largest accepted `search_limit`: half the string in sample steps.
pub const SEARCH_LIMIT_MAX: u64 = RESOLUTION / 2;

/// Sample distance past which a walk may stop early: a tenth of the string.
pub const EXCLUSION_RADIUS: u64 = RESOLUTION / 10;

/// Largest supported string length, in length units.
pub const MAX_LENGTH: u64 = 1_000_000_000_000;

/// The scores of samples `0 ..= limit`.
pub open spec fn sample_scores(weights: Seq<u64>, limit: int) -> Seq<int> {
    Seq::new((limit + 1) as nat, |i: int| score(i, RESOLUTION as int, weights))
}

/// `b` is the first sample of maximal score in `s`.
pub open spec fn is_first_max(s: Seq<int>, b: int) -> bool {
    &&& 0 <= b < s.len()
    &&& forall|i: int| 0 <= i < s.len() ==> s[i] <= s[b]
    &&& forall|i: int| 0 <= i < b ==> s[i] < s[b]
}

/// The walk from bridge sample `b` leftward stops right before sample `j`:
/// either the score rises again at `j`, or `j` is at least
/// [`EXCLUSION_RADIUS`] samples from the bridge with a score below half the
/// bridge score.
pub open spec fn left_stop(s: Seq<int>, b: int, j: int) -> bool {
    ||| s[j] > s[j + 1]
    ||| (b - j >= EXCLUSION_RADIUS && 2 * s[j] < s[b])
}

/// First sample of the exclusion region when the leftward walk from `b`
/// next examines sample `j` (having kept `j + 1 ..= b`).
pub open spec fn left_bound(s: Seq<int>, b: int, j: int) -> int
    decreases j + 1,
{
    if j < 0 {
        0
    } else if left_stop(s, b, j) {
        j + 1
    } else {
        left_bound(s, b, j - 1)
    }
}

/// The walk from bridge sample `b` rightward stops right before sample `j`.
pub open spec fn right_stop(s: Seq<int>, b: int, j: int) -> bool {
    ||| s[j] > s[j - 1]
    ||| (j - b >= EXCLUSION_RADIUS && 2 * s[j] < s[b])
}

/// Last sample of the exclusion region when the rightward walk from `b`
/// next examines sample `j` (having kept `b ..= j - 1`).
pub open spec fn right_bound(s: Seq<int>, b: int, j: int) -> int
    decreases s.len() - j,
{
    if j >= s.len() {
        j - 1
    } else if right_stop(s, b, j) {
        j - 1
    } else {
        right_bound(s, b, j + 1)
    }
}

/// What [`left_bound`] computes, spelled out: the leftward walk keeps
/// every sample it examined without a stop, and ends either at sample 0 or
/// right after a stopping sample.
pub proof fn lemma_left_bound_characterization(s: Seq<int>, b: int, j: int)
    requires
        -1 <= j,
    ensures
        0 <= left_bound(s, b, j) <= j + 1,
        forall|i: int| left_bound(s, b, j) <= i <= j ==> !left_stop(s, b, i),
        left_bound(s, b, j) > 0 ==> left_stop(s, b, left_bound(s, b, j) - 1),
    decreases j + 1,
{
    if j >= 0 && !left_stop(s, b, j) {
        lemma_left_bound_characterization(s, b, j - 1);
    }
}

/// What [`right_bound`] computes, spelled out: the rightward walk keeps
/// every sample it examined without a stop, and ends either at the last
/// sample or right before a stopping sample.
pub proof fn lemma_right_bound_characterization(s: Seq<int>, b: int, j: int)
    requires
        j <= s.len(),
    ensures
        j - 1 <= right_bound(s, b, j) <= s.len() - 1,
        forall|i: int| j <= i <= right_bound(s, b, j) ==> !right_stop(s, b, i),
        right_bound(s, b, j) < s.len() - 1 ==> right_stop(s, b, right_bound(s, b, j) + 1),
    decreases s.len() - j,
{
    if j < s.len() && !right_stop(s, b, j) {
        lemma_right_bound_characterization(s, b, j + 1);
    }
}

/// Sample `i` is a candidate for the neck pickup: sampled, and strictly
/// outside the exclusion region `lb ..= rb`.
pub open spec fn neck_candidate(i: int, limit: int, lb: int, rb: int) -> bool {
    0 <= i <= limit && (i < lb || i > rb)
}

/// Why a search was refused.
#[derive(Clone, Copy, Debug, PartialEq, Eq, Structural)]
pub enum SearchError {
    /// The string length was zero.
    InvalidLength,
    /// The search limit was past [`SEARCH_LIMIT_MAX`].
    SearchLimitOutOfRange,
}

/// The two recommended pickup positions.
#[derive(Clone, Copy, Debug, PartialEq, Eq)]
pub struct OptimalPositions {
    /// Sample index of the bridge pickup.
    pub bridge_index: usize,
    /// Sample index of the neck pickup; `None` when no sample lies outside
    /// the exclusion region and the fallback position is used.
    pub neck_index: Option<usize>,
    /// Bridge position in thousandths of a length unit:
    /// `bridge_index * length`.
    pub bridge_milli: u64,
    /// Neck position in thousandths of a length unit: the neck sample's
    /// position, or three tenths of the string.
    pub neck_milli: u64,
}

/// The neck fields of `r` are what the search promises for bridge sample
/// `b` of the scores `s`.
pub open spec fn neck_ok(
    s: Seq<int>,
    limit: int,
    b: int,
    r: OptimalPositions,
    length: int,
) -> bool {
    let lb = left_bound(s, b, b - 1);
    let rb = right_bound(s, b, b + 1);
    match r.neck_index {
        Some(m) => {
            &&& neck_candidate(m as int, limit, lb, rb)
            &&& forall|i: int| #[trigger] neck_candidate(i, limit, lb, rb) ==> s[i] <= s[m as int]
            &&& forall|i: int|
                #[trigger] neck_candidate(i, limit, lb, rb) && i < m ==> s[i] < s[m as int]
            &&& r.neck_milli == m * length
        },
        None => {
            &&& forall|i: int| !#[trigger] neck_candidate(i, limit, lb, rb)
            &&& r.neck_milli == 3 * (RESOLUTION as int) * length / 10
        },
    }
}

/// `r` is the search result that the scores of `weights` demand for a
/// string of length `length` searched up to sample `limit`.
pub open spec fn positions_ok(length: int, weights: Seq<u64>, limit: int, r: OptimalPositions) -> bool {
    let s = sample_scores(weights, limit);
    &&& r.bridge_index <= limit
    &&& is_first_max(s, r.bridge_index as int)
    &&& r.bridge_milli == r.bridge_index * length
    &&& neck_ok(s, limit, r.bridge_index as int, r, length)
}

/// With every score zero, the rightward walk from sample 0 keeps the whole
/// sequence: nothing ever rises, and nothing drops below half of zero.
proof fn lemma_right_bound_zero(s: Seq<int>, j: int)
    requires
        1 <= j <= s.len(),
        forall|i: int| 0 <= i < s.len() ==> s[i] == 0,
    ensures
        right_bound(s, 0, j) == s.len() - 1,
    decreases s.len() - j,
{
    if j < s.len() {
        assert(!right_stop(s, 0, j));
        lemma_right_bound_zero(s, j + 1);
    }
}

/// The two recommended pickup positions for a string of `length` length
/// units under `weights` (weight `t` drives harmonic `t + 2`), searching
/// samples `0 ..= search_limit`.
///
/// The bridge pickup sits on the first sample of maximal score; the neck
/// pickup on the first sample of maximal score outside the exclusion
/// region around the bridge, or at three tenths of the string when no such
/// sample exists.  Positions are in thousandths of a length unit.  With
/// every weight zero all samples tie at score zero, so the bridge stays at
/// sample 0 and the neck falls back.
pub fn find_optimal_pickup_positions(length: u64, weights: &Vec<u64>, search_limit: usize) -> (result:
    Result<OptimalPositions, SearchError>)
    requires
        weights_ok(weights@),
        length <= MAX_LENGTH,
    ensures
        length == 0 <==> result == Err::<OptimalPositions, SearchError>(SearchError::InvalidLength),
        length >= 1 && search_limit > SEARCH_LIMIT_MAX <==> result == Err::<
            OptimalPositions,
            SearchError,
        >(SearchError::SearchLimitOutOfRange),
        length >= 1 && search_limit <= SEARCH_LIMIT_MAX ==> (result matches Ok(r)
            && positions_ok(length as int, weights@, search_limit as int, r)),
        // both positions stay on the string: at most `length` length units,
        // which is `RESOLUTION * length` thousandths
        length >= 1 && search_limit <= SEARCH_LIMIT_MAX ==> (result matches Ok(r) && r.bridge_milli
            <= RESOLUTION * length && r.neck_milli <= RESOLUTION * length),
        length >= 1 && search_limit <= SEARCH_LIMIT_MAX && (forall|t: int|
            0 <= t < weights@.len() ==> weights@[t] == 0) ==> (result matches Ok(r) && {
            &&& r.bridge_index == 0
            &&& r.neck_index is None
            &&& r.neck_milli == 3 * (RESOLUTION as int) * length / 10
        }),
{
    if length == 0 {
        return Err(SearchError::InvalidLength);
    }
    if search_limit > SEARCH_LIMIT_MAX as usize {
        return Err(SearchError::SearchLimitOutOfRange);
    }
    let ghost s = sample_scores(weights@, search_limit as int);
    let ghost limit = search_limit as int;

    // score the samples
    let mut scores: Vec<u64> = Vec::new();
    let mut i: usize = 0;
    while i <= search_limit
        invariant
            i <= search_limit + 1,
            search_limit <= SEARCH_LIMIT_MAX,
            weights_ok(weights@),
            s == sample_scores(weights@, limit),
            limit == search_limit as int,
            scores@.len() == i,
            forall|k: int| 0 <= k < i ==> scores@[k] == s[k],
            forall|k: int| 0 <= k < i ==> scores@[k] <= MAX_SCORE,
        decreases search_limit + 1 - i,
    {
        let v = score_at(i as u64, RESOLUTION, weights);
        scores.push(v);
        i = i + 1;
    }
    let n = scores.len();

    // bridge: first sample of maximal score
    let mut b: usize = 0;
    let mut idx: usize = 1;
    while idx < n
        invariant
            n == scores@.len(),
            1 <= n,
            b < idx <= n,
            forall|k: int| 0 <= k < idx ==> scores@[k] <= scores@[b as int],
            forall|k: int| 0 <= k < b ==> scores@[k] < scores@[b as int],
        decreases n - idx,
    {
        if scores[idx] > scores[b] {
            b = idx;
        }
        idx = idx + 1;
    }
    let bridge_score = scores[b];

    // walk left from the bridge while the score keeps falling
    let mut lb: usize = b;
    while lb > 0
        invariant_except_break
            lb <= b < n,
            n == scores@.len(),
            s.len() == n,
            forall|k: int| 0 <= k < n ==> scores@[k] == s[k],
            forall|k: int| 0 <= k < n ==> scores@[k] <= MAX_SCORE,
            bridge_score == scores@[b as int],
            left_bound(s, b as int, b as int - 1) == left_bound(s, b as int, lb as int - 1),
        ensures
            lb <= b < n,
            lb == left_bound(s, b as int, b as int - 1),
        decreases lb,
    {
        let e = lb - 1;
        let curr = scores[e];
        let prev = scores[lb];
        if curr > prev {
            proof {
                assert(left_stop(s, b as int, e as int));
            }
            break;
        }
        if b - e >= EXCLUSION_RADIUS as usize && 2 * curr < bridge_score {
            proof {
                assert(left_stop(s, b as int, e as int));
            }
            break;
        }
        proof {
            assert(!left_stop(s, b as int, e as int));
        }
        lb = e;
    }

    // walk right from the bridge while the score keeps falling
    let mut j: usize = b + 1;
    while j < n
        invariant_except_break
            b + 1 <= j <= n,
            b < n,
            n == scores@.len(),
            s.len() == n,
            forall|k: int| 0 <= k < n ==> scores@[k] == s[k],
            forall|k: int| 0 <= k < n ==> scores@[k] <= MAX_SCORE,
            bridge_score == scores@[b as int],
            right_bound(s, b as int, b as int + 1) == right_bound(s, b as int, j as int),
        ensures
            b + 1 <= j <= n,
            j - 1 == right_bound(s, b as int, b as int + 1),
        decreases n - j,
    {
        let curr = scores[j];
        let prev = scores[j - 1];
        if curr > prev {
            proof {
                assert(right_stop(s, b as int, j as int));
            }
            break;
        }
        if j - b >= EXCLUSION_RADIUS as usize && 2 * curr < bridge_score {
            proof {
                assert(right_stop(s, b as int, j as int));
            }
            break;
        }
        proof {
            assert(!right_stop(s, b as int, j as int));
        }
        j = j + 1;
    }
    let rb: usize = j - 1;

    // neck: first sample of maximal score outside the exclusion region
    let mut neck: Option<usize> = None;
    let mut c: usize = 0;
    while c < n
        invariant
            c <= n,
            n == scores@.len(),
            s.len() == n,
            limit == n - 1,
            lb <= b <= rb < n,
            forall|k: int| 0 <= k < n ==> scores@[k] == s[k],
            neck matches Some(m) ==> {
                &&& (m as int) < c
                &&& neck_candidate(m as int, limit, lb as int, rb as int)
                &&& forall|k: int|
                    #[trigger] neck_candidate(k, limit, lb as int, rb as int) && k < c ==> s[k]
                        <= s[m as int]
                &&& forall|k: int|
                    #[trigger] neck_candidate(k, limit, lb as int, rb as int) && k < m ==> s[k]
                        < s[m as int]
            },
            neck is None ==> forall|k: int|
                !(#[trigger] neck_candidate(k, limit, lb as int, rb as int) && k < c),
        decreases n - c,
    {
        if c < lb || c > rb {
            match neck {
                None => { neck = Some(c) },
                Some(m) => {
                    if scores[c] > scores[m] {
                        neck = Some(c);
                    }
                },
            }
        }
        c = c + 1;
    }

    // positions in thousandths of a length unit
    proof {
        assert((b as int) * (length as int) <= 1_000_000_000_000_000 && 3 * (RESOLUTION as int) * (
        length as int) <= 3_000_000_000_000_000) by (nonlinear_arith)
            requires
                0 <= b <= 500,
                RESOLUTION == 1000u64,
                1 <= length <= 1_000_000_000_000u64,
        ;
    }
    let bridge_milli = (b as u64) * length;
    let result = match neck {
        Some(m) => {
            proof {
                assert((m as int) * (length as int) <= 1_000_000_000_000_000) by (nonlinear_arith)
                    requires
                        0 <= m <= 500,
                        1 <= length <= 1_000_000_000_000u64,
                ;
            }
            OptimalPositions {
                bridge_index: b,
                neck_index: Some(m),
                bridge_milli,
                neck_milli: (m as u64) * length,
            }
        },
        None => OptimalPositions {
            bridge_index: b,
            neck_index: None,
            bridge_milli,
            neck_milli: 3 * RESOLUTION * length / 10,
        },
    };

    proof {
        lemma_div_multiples_vanish(300 * (length as int), 10);
        assert(3 * (RESOLUTION as int) * (length as int) == 10 * (300 * (length as int)));
        assert(result.bridge_milli <= RESOLUTION * length && result.neck_milli <= RESOLUTION
            * length) by (nonlinear_arith)
            requires
                result.bridge_milli == (b as int) * length,
                0 <= b <= 500,
                1 <= length,
                RESOLUTION == 1000u64,
                (result.neck_index matches Some(m) ==> result.neck_milli == (m as int) * length
                    && 0 <= m <= 500),
                (result.neck_index is None ==> result.neck_milli == 3 * (RESOLUTION as int)
                    * length / 10),
                (3 * (RESOLUTION as int) * length / 10) == 300 * length,
        ;
    }

    // with every weight zero, every sample ties at score zero: the bridge
    // stays at sample 0, the walks keep everything, and the neck falls back
    proof {
        if forall|t: int| 0 <= t < weights@.len() ==> weights@[t] == 0 {
            assert forall|k: int| 0 <= k < s.len() implies s[k] == 0 by {
                lemma_score_zero_weights(k, RESOLUTION as int, weights@);
            }
            assert(b == 0);
            lemma_right_bound_zero(s, 1);
            assert(rb == n - 1);
            match result.neck_index {
                Some(m) => {
                    assert(neck_candidate(m as int, limit, lb as int, rb as int));
                    assert(false);
                },
                None => {},
            }
        }
    }
    Ok(result)
}

} // verus!
