//! Matching by the algorithm of choice.
use vstd::prelude::*;

use crate::admission::{NEAR_DATE_WINDOW_MINUTES, STRONG_TEXT_SCORE_PPM};
use crate::candidate::{
    banks_in_range, lists, Assignment, Candidate, GAP_COST_WEIGHT, MAX_SCORE_PPM,
    SCORE_COST_WEIGHT,
};
use crate::cli::Algorithm;
use crate::heuristic::{candidate_total, gaps_fit, greedy, match_heuristic};
use crate::matching::{is_cheapest_matching, is_maximum_matching, valid_matching};
use crate::maxflow::{cost_fits, fits, flow_matching, match_maxflow, maximum_size};
use crate::sums::sum;

verus! {

/// The numbers that the algorithm computes can be held.
pub open spec fn is_within_limits(
    algorithm: Algorithm,
    cands: Seq<Seq<Candidate>>,
    bank_count: int,
) -> bool {
    &&& banks_in_range(cands, bank_count)
    &&& match algorithm {
        Algorithm::Heuristic => candidate_total(cands) <= usize::MAX && gaps_fit(cands),
        Algorithm::MaxFlow => fits(cands, bank_count),
    }
}

/// Whether every candidate names one of `bank_count` bank transactions.
fn check_banks(gl_candidates: &[Vec<Candidate>], bank_count: usize) -> (good: bool)
    ensures
        good == banks_in_range(lists(gl_candidates@), bank_count as int),
{
    let ghost cands = lists(gl_candidates@);
    for g in 0..gl_candidates.len()
        invariant
            cands == lists(gl_candidates@),
            forall|h: int, k: int|
                #![trigger cands[h][k]]
                0 <= h < g && 0 <= k < cands[h].len() ==> cands[h][k].bank_idx < bank_count,
    {
        let candidates = &gl_candidates[g];
        assert(candidates@ == cands[g as int]);
        for k in 0..candidates.len()
            invariant
                g < cands.len(),
                cands == lists(gl_candidates@),
                candidates@ == cands[g as int],
                forall|j: int|
                    0 <= j < k ==> (#[trigger] cands[g as int][j]).bank_idx < bank_count,
        {
            if candidates[k].bank_idx >= bank_count {
                assert(!(cands[g as int][k as int].bank_idx < bank_count));
                return false;
            }
        }
    }
    true
}

/// Whether the candidates can be counted and their gaps compared.
fn check_gaps(gl_candidates: &[Vec<Candidate>]) -> (good: bool)
    ensures
        good == (candidate_total(lists(gl_candidates@)) <= usize::MAX && gaps_fit(
            lists(gl_candidates@),
        )),
{
    let ghost cands = lists(gl_candidates@);
    let ghost size = |g: int| cands[g].len() as int;
    let mut total: usize = 0;
    for g in 0..gl_candidates.len()
        invariant
            cands == lists(gl_candidates@),
            size == (|g: int| cands[g].len() as int),
            total == sum(g as int, size),
            forall|h: int, k: int|
                #![trigger cands[h][k]]
                0 <= h < g && 0 <= k < cands[h].len() && cands[h][k].score_ppm
                    < STRONG_TEXT_SCORE_PPM ==> cands[h][k].minute_gap + NEAR_DATE_WINDOW_MINUTES
                    <= i64::MAX,
    {
        let candidates = &gl_candidates[g];
        assert(candidates@ == cands[g as int]);
        match total.checked_add(candidates.len()) {
            Some(more) => {
                total = more;
            },
            None => {
                proof {
                    assert(sum(g + 1, size) > usize::MAX);
                    lemma_sizes_grow(cands, g + 1, cands.len() as int);
                }
                return false;
            },
        }
        for k in 0..candidates.len()
            invariant
                g < cands.len(),
                cands == lists(gl_candidates@),
                candidates@ == cands[g as int],
                forall|j: int|
                    0 <= j < k && (#[trigger] cands[g as int][j]).score_ppm
                        < STRONG_TEXT_SCORE_PPM ==> cands[g as int][j].minute_gap
                        + NEAR_DATE_WINDOW_MINUTES <= i64::MAX,
        {
            let candidate = &candidates[k];
            if candidate.score_ppm < STRONG_TEXT_SCORE_PPM && candidate.minute_gap > i64::MAX
                - NEAR_DATE_WINDOW_MINUTES {
                assert(!(cands[g as int][k as int].minute_gap + NEAR_DATE_WINDOW_MINUTES
                    <= i64::MAX));
                return false;
            }
        }
    }
    true
}

proof fn lemma_sizes_grow(cands: Seq<Seq<Candidate>>, n: int, m: int)
    requires
        0 <= n <= m,
    ensures
        sum(n, |g: int| cands[g].len() as int) <= sum(m, |g: int| cands[g].len() as int),
    decreases m - n,
{
    if n < m {
        lemma_sizes_grow(cands, n, m - 1);
    }
}

/// Whether the cost of `candidate` can be computed.
fn check_cost(candidate: &Candidate) -> (good: bool)
    ensures
        good == cost_fits(*candidate),
{
    let short = MAX_SCORE_PPM as i128 - candidate.score_ppm as i128;
    let gap = candidate.minute_gap as i128;
    let score_weight = SCORE_COST_WEIGHT as i128;
    let gap_weight = GAP_COST_WEIGHT as i128;
    assert(-0x1_0000_0000 * 100_000 <= short * score_weight <= 0x1_0000_0000 * 100_000)
        by (nonlinear_arith)
        requires
            -0x1_0000_0000 <= short <= 0x1_0000_0000,
            score_weight == 100_000,
    ;
    assert(gap * gap_weight == gap) by (nonlinear_arith)
        requires
            gap_weight == 1,
    ;
    let unplaced = short * score_weight + gap * gap_weight;
    let cost = unplaced + candidate.bank_idx as i128;
    assert(cost == candidate.cost());
    i64::MIN as i128 <= unplaced && (i64::MIN as i128) < cost && cost <= i64::MAX as i128
}

/// Whether the nodes can be numbered and the costs computed.
fn check_costs(gl_candidates: &[Vec<Candidate>], bank_count: usize) -> (good: bool)
    ensures
        good == fits(lists(gl_candidates@), bank_count as int),
{
    let ghost cands = lists(gl_candidates@);
    if gl_candidates.len() as i128 + bank_count as i128 + 2 > i32::MAX as i128 {
        return false;
    }
    for g in 0..gl_candidates.len()
        invariant
            cands == lists(gl_candidates@),
            forall|h: int, k: int|
                #![trigger cands[h][k]]
                0 <= h < g && 0 <= k < cands[h].len() ==> cost_fits(cands[h][k]),
    {
        let candidates = &gl_candidates[g];
        assert(candidates@ == cands[g as int]);
        for k in 0..candidates.len()
            invariant
                g < cands.len(),
                cands == lists(gl_candidates@),
                candidates@ == cands[g as int],
                forall|j: int| 0 <= j < k ==> cost_fits(#[trigger] cands[g as int][j]),
        {
            if !check_cost(&candidates[k]) {
                assert(!cost_fits(cands[g as int][k as int]));
                return false;
            }
        }
    }
    true
}

/// Matches entries with bank transactions; `None` where the numbers are too large for it.
pub fn match_entries(
    algorithm: Algorithm,
    gl_candidates: &[Vec<Candidate>],
    bank_count: usize,
) -> (matched: Option<Vec<Option<Assignment>>>)
    ensures
        match matched {
            None => !is_within_limits(algorithm, lists(gl_candidates@), bank_count as int),
            Some(assignments) => {
                &&& is_within_limits(algorithm, lists(gl_candidates@), bank_count as int)
                &&& valid_matching(lists(gl_candidates@), assignments@)
                &&& algorithm is Heuristic ==> assignments@ == greedy(
                    lists(gl_candidates@),
                    bank_count as nat,
                ).assignments
                &&& algorithm is MaxFlow ==> is_maximum_matching(
                    lists(gl_candidates@),
                    assignments@,
                ) && is_cheapest_matching(lists(gl_candidates@), assignments@)
                    && assignments@ == flow_matching(
                    lists(gl_candidates@),
                    bank_count as int,
                    maximum_size(lists(gl_candidates@)),
                )
            },
        },
{
    if !check_banks(gl_candidates, bank_count) {
        return None;
    }
    match algorithm {
        Algorithm::Heuristic => {
            if check_gaps(gl_candidates) {
                Some(match_heuristic(gl_candidates, bank_count))
            } else {
                None
            }
        },
        Algorithm::MaxFlow => {
            if check_costs(gl_candidates, bank_count) {
                Some(match_maxflow(gl_candidates, bank_count))
            } else {
                None
            }
        },
    }
}

/// When a matching is not found for want of room: transactions must exist; by flows, entries and
/// transactions must be few enough to be numbered, with two more nodes, by an `i32`, and the cost
/// of each candidate one that an `i64` holds; greedily, candidates must be few enough to be
/// counted, and gaps, where scores do not decide, at least a day below the largest number. Nothing
/// else is asked.
pub proof fn lemma_limits(cands: Seq<Seq<Candidate>>, bank_count: int)
    ensures
        is_within_limits(Algorithm::MaxFlow, cands, bank_count) <==> {
            &&& cands.len() + bank_count + 2 <= i32::MAX
            &&& forall|g: int, k: int|
                #![trigger cands[g][k]]
                0 <= g < cands.len() && 0 <= k < cands[g].len() ==> {
                    let c = cands[g][k];
                    let cost = (1_000_000 - c.score_ppm) * 100_000 + c.minute_gap;
                    &&& c.bank_idx < bank_count
                    &&& i64::MIN <= cost
                    &&& i64::MIN < cost + c.bank_idx <= i64::MAX
                }
        },
        is_within_limits(Algorithm::Heuristic, cands, bank_count) <==> {
            &&& sum(cands.len() as int, |g: int| cands[g].len() as int) <= usize::MAX
            &&& forall|g: int, k: int|
                #![trigger cands[g][k]]
                0 <= g < cands.len() && 0 <= k < cands[g].len() ==> {
                    let c = cands[g][k];
                    &&& c.bank_idx < bank_count
                    &&& c.score_ppm < 200_000 ==> c.minute_gap + 1_440 <= i64::MAX
                }
        },
{
    if is_within_limits(Algorithm::MaxFlow, cands, bank_count) {
        assert forall|g: int, k: int|
            #![trigger cands[g][k]]
            0 <= g < cands.len() && 0 <= k < cands[g].len() implies ({
            let c = cands[g][k];
            let cost = (1_000_000 - c.score_ppm) * 100_000 + c.minute_gap;
            &&& c.bank_idx < bank_count
            &&& i64::MIN <= cost
            &&& i64::MIN < cost + c.bank_idx <= i64::MAX
        }) by {
            assert(cost_fits(cands[g][k]));
        }
    }
}

} // verus!
