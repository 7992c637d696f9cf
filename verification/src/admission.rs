//! Which candidates are trusted enough to be matched without looking at the whole picture.
use vstd::prelude::*;

use crate::candidate::Candidate;
use crate::datetime::MINUTES_PER_DAY;
use crate::order::lemma_filter_ignores_order;

verus! {

/// The least score that counts as a weak one.
pub const MIN_TEXT_SCORE_PPM: u32 = 50_000;
/// The least score that counts as a strong one.
pub const STRONG_TEXT_SCORE_PPM: u32 = 200_000;
/// How far apart near dates may be.
pub const NEAR_DATE_WINDOW_MINUTES: i64 = MINUTES_PER_DAY;
/// How far apart dates may be where the score is a weak one.
pub const WEAK_TEXT_DATE_WINDOW_MINUTES: i64 = 3 * MINUTES_PER_DAY;

/// The two smallest gaps among the candidates of an entry, and how many have the smallest.
#[derive(Clone, Copy, Debug, PartialEq, Eq, Structural)]
pub struct GapStats {
    pub best_gap: i64,
    pub best_count: usize,
    pub second_best_gap: i64,
}

/// The smallest gap above `floor`, the largest number where there is none.
pub open spec fn least_gap_above(list: Seq<Candidate>, floor: int) -> int
    decreases list.len(),
{
    if list.len() == 0 {
        i64::MAX as int
    } else {
        let least = least_gap_above(list.drop_last(), floor);
        let gap = list.last().minute_gap as int;
        if floor < gap < least {
            gap
        } else {
            least
        }
    }
}

/// The smallest gap, the largest number where there are no candidates.
pub open spec fn least_gap(list: Seq<Candidate>) -> int {
    least_gap_above(list, i64::MIN - 1)
}

/// How many candidates have this gap.
pub open spec fn gap_count(list: Seq<Candidate>, gap: int) -> nat
    decreases list.len(),
{
    if list.len() == 0 {
        0
    } else if list.last().minute_gap == gap {
        gap_count(list.drop_last(), gap) + 1
    } else {
        gap_count(list.drop_last(), gap)
    }
}

/// The gap that a candidate with this gap has to beat.
pub open spec fn rival_gap(list: Seq<Candidate>, gap: int) -> int {
    let best = least_gap(list);
    if gap == best && gap_count(list, best) == 1 {
        least_gap_above(list, best)
    } else {
        best
    }
}

/// Whether a candidate may be matched. A strong score is enough. A weaker one has to be backed by
/// the dates, by there being no other choice for the entry or for the bank transaction, or by the
/// gap being smaller than that of any rival by more than a day.
pub open spec fn admissible(
    c: Candidate,
    rival: int,
    only_choice: bool,
    only_taker: bool,
) -> bool {
    let exact = c.minute_gap == 0;
    let near = c.minute_gap <= NEAR_DATE_WINDOW_MINUTES;
    let closest = c.minute_gap + NEAR_DATE_WINDOW_MINUTES < rival;
    let backed = only_choice || only_taker || closest;
    if c.score_ppm >= STRONG_TEXT_SCORE_PPM {
        true
    } else if c.score_ppm >= MIN_TEXT_SCORE_PPM {
        exact || (c.minute_gap <= WEAK_TEXT_DATE_WINDOW_MINUTES && backed)
    } else if c.score_ppm > 0 {
        exact || (near && backed)
    } else {
        (exact && only_choice) || (near && only_choice && only_taker) || (exact && only_taker
            && closest)
    }
}

/// `least_gap_above` is a gap above the floor, and there is none between.
pub proof fn lemma_least_gap_above(list: Seq<Candidate>, floor: int)
    ensures
        ({
            let least = least_gap_above(list, floor);
            &&& forall|k: int|
                0 <= k < list.len() && floor < #[trigger] list[k].minute_gap ==> least
                    <= list[k].minute_gap
            &&& least == i64::MAX || exists|k: int|
                0 <= k < list.len() && floor < #[trigger] list[k].minute_gap && list[k].minute_gap
                    == least
            &&& least <= i64::MAX
            &&& floor < i64::MAX ==> floor < least
        }),
    decreases list.len(),
{
    if list.len() > 0 {
        let init = list.drop_last();
        lemma_least_gap_above(init, floor);
        let least = least_gap_above(list, floor);
        assert forall|k: int| 0 <= k < list.len() && floor < #[trigger] list[k].minute_gap implies least
            <= list[k].minute_gap by {
            if k < init.len() {
                assert(init[k] == list[k]);
            }
        }
        if least_gap_above(init, floor) == least && least != i64::MAX {
            let k = choose|k: int|
                0 <= k < init.len() && floor < #[trigger] init[k].minute_gap && init[k].minute_gap
                    == least;
            assert(list[k].minute_gap == least);
        } else if least != i64::MAX {
            assert(list[list.len() - 1].minute_gap == least);
        }
    }
}

/// A floor below the least gap above another floor makes no difference.
proof fn lemma_same_least(list: Seq<Candidate>, floor: int, other: int)
    requires
        floor <= other < least_gap_above(list, floor),
    ensures
        least_gap_above(list, other) == least_gap_above(list, floor),
{
    lemma_least_gap_above(list, floor);
    lemma_least_gap_above(list, other);
    let a = least_gap_above(list, floor);
    let b = least_gap_above(list, other);
    if b < a {
        let k = choose|k: int|
            0 <= k < list.len() && other < #[trigger] list[k].minute_gap && list[k].minute_gap == b;
        assert(floor < list[k].minute_gap);
    } else if a < b {
        let k = choose|k: int|
            0 <= k < list.len() && floor < #[trigger] list[k].minute_gap && list[k].minute_gap == a;
        assert(other < list[k].minute_gap);
    }
}

proof fn lemma_gap_count(list: Seq<Candidate>, gap: int)
    ensures
        gap_count(list, gap) <= list.len(),
        gap_count(list, gap) == 0 <==> forall|k: int|
            0 <= k < list.len() ==> #[trigger] list[k].minute_gap != gap,
    decreases list.len(),
{
    if list.len() > 0 {
        let init = list.drop_last();
        lemma_gap_count(init, gap);
        if list.last().minute_gap == gap {
            assert(list[list.len() - 1].minute_gap == gap);
        } else if gap_count(init, gap) == 0 {
            assert forall|k: int| 0 <= k < list.len() implies #[trigger] list[k].minute_gap
                != gap by {
                if k < init.len() {
                    assert(init[k] == list[k]);
                }
            }
        } else {
            let k = choose|k: int| 0 <= k < init.len() && #[trigger] init[k].minute_gap == gap;
            assert(list[k].minute_gap == gap);
        }
    }
}

/// Two candidates with the same gap are counted twice.
proof fn lemma_gap_count_two(list: Seq<Candidate>, i: int, j: int)
    requires
        0 <= i < j < list.len(),
        list[i].minute_gap == list[j].minute_gap,
    ensures
        gap_count(list, list[i].minute_gap as int) >= 2,
    decreases list.len(),
{
    let gap = list[i].minute_gap as int;
    let init = list.drop_last();
    assert(init[i] == list[i]);
    if j == list.len() - 1 {
        lemma_gap_count(init, gap);
        assert(init[i].minute_gap == gap);
    } else {
        assert(init[j] == list[j]);
        lemma_gap_count_two(init, i, j);
    }
}

/// The gap that a candidate has to beat is the smallest among the other candidates of its entry.
pub proof fn lemma_rival_gap(list: Seq<Candidate>, k: int)
    requires
        0 <= k < list.len(),
    ensures
        ({
            let rival = rival_gap(list, list[k].minute_gap as int);
            &&& forall|j: int|
                0 <= j < list.len() && j != k ==> rival <= #[trigger] list[j].minute_gap
            &&& rival == i64::MAX || exists|j: int|
                0 <= j < list.len() && j != k && #[trigger] list[j].minute_gap == rival
        }),
{
    let gap = list[k].minute_gap as int;
    let best = least_gap(list);
    lemma_least_gap_above(list, i64::MIN - 1);
    lemma_gap_count(list, best);
    assert(best <= gap);
    if gap == best && gap_count(list, best) == 1 {
        lemma_least_gap_above(list, best);
        assert forall|j: int| 0 <= j < list.len() && j != k implies rival_gap(list, gap)
            <= #[trigger] list[j].minute_gap by {
            assert(best <= list[j].minute_gap);
            if list[j].minute_gap == best {
                if j < k {
                    lemma_gap_count_two(list, j, k);
                } else {
                    lemma_gap_count_two(list, k, j);
                }
            }
        }
    } else if best != i64::MAX {
        if gap == best {
            if forall|j: int| 0 <= j < list.len() && j != k ==> #[trigger] list[j].minute_gap != best {
                lemma_gap_count_one(list, k);
            }
        } else {
            let j = choose|j: int| 0 <= j < list.len() && #[trigger] list[j].minute_gap == best;
            assert(j != k);
        }
    }
}

proof fn lemma_gap_count_one(list: Seq<Candidate>, k: int)
    requires
        0 <= k < list.len(),
        forall|j: int|
            0 <= j < list.len() && j != k ==> #[trigger] list[j].minute_gap != list[k].minute_gap,
    ensures
        gap_count(list, list[k].minute_gap as int) == 1,
    decreases list.len(),
{
    let gap = list[k].minute_gap as int;
    let init = list.drop_last();
    if k == list.len() - 1 {
        lemma_gap_count(init, gap);
        assert forall|j: int| 0 <= j < init.len() implies #[trigger] init[j].minute_gap != gap by {
            assert(list[j].minute_gap != gap);
        }
    } else {
        assert(init[k] == list[k]);
        assert(list[list.len() - 1].minute_gap != gap);
        assert forall|j: int| 0 <= j < init.len() && j != k implies #[trigger] init[j].minute_gap
            != init[k].minute_gap by {
            assert(list[j].minute_gap != gap);
        }
        lemma_gap_count_one(init, k);
    }
}

/// The two smallest gaps of the candidates, and how many have the smallest.
pub fn compute_gap_stats(candidates: &[Candidate]) -> (stats: GapStats)
    ensures
        stats.best_gap == least_gap(candidates@),
        stats.best_count == gap_count(candidates@, stats.best_gap as int),
        stats.second_best_gap == least_gap_above(candidates@, stats.best_gap as int),
{
    let mut best_gap = i64::MAX;
    let mut best_count: usize = 0;
    let mut second_best_gap = i64::MAX;

    for k in 0..candidates.len()
        invariant
            best_gap == least_gap(candidates@.take(k as int)),
            best_count == gap_count(candidates@.take(k as int), best_gap as int),
            second_best_gap == least_gap_above(candidates@.take(k as int), best_gap as int),
            best_count <= k,
    {
        let gap = candidates[k].minute_gap;
        proof {
            let seen = candidates@.take(k as int);
            let more = candidates@.take(k + 1);
            assert(more.drop_last() =~= seen);
            assert(more.last() == candidates@[k as int]);
            lemma_least_gap_above(seen, i64::MIN - 1);
            lemma_gap_count(more, least_gap(more));
            if gap < best_gap {
                lemma_same_least(seen, i64::MIN - 1, gap as int);
                lemma_gap_count(seen, gap as int);
                assert forall|j: int| 0 <= j < seen.len() implies #[trigger] seen[j].minute_gap
                    != gap by {
                    assert(best_gap <= seen[j].minute_gap);
                }
            }
        }
        if gap < best_gap {
            second_best_gap = best_gap;
            best_gap = gap;
            best_count = 1;
        } else if gap == best_gap {
            best_count += 1;
        } else if gap < second_best_gap {
            second_best_gap = gap;
        }
    }
    assert(candidates@.take(candidates@.len() as int) =~= candidates@);

    GapStats { best_gap, best_count, second_best_gap }
}

/// The gap that a candidate with this gap has to beat.
pub fn next_best_gap(gap_stats: GapStats, candidate_gap: i64) -> (gap: i64)
    ensures
        gap == (if candidate_gap == gap_stats.best_gap && gap_stats.best_count == 1 {
            gap_stats.second_best_gap
        } else {
            gap_stats.best_gap
        }),
{
    if candidate_gap == gap_stats.best_gap && gap_stats.best_count == 1 {
        gap_stats.second_best_gap
    } else {
        gap_stats.best_gap
    }
}

/// Whether the candidate may be matched.
pub fn heuristic_candidate_allowed(
    gl_idx: usize,
    candidate: Candidate,
    gap_stats: GapStats,
    gl_candidate_counts: &[usize],
    bank_candidate_counts: &[usize],
) -> (allowed: bool)
    requires
        candidate.score_ppm < STRONG_TEXT_SCORE_PPM ==> {
            &&& gl_idx < gl_candidate_counts@.len()
            &&& candidate.bank_idx < bank_candidate_counts@.len()
            &&& candidate.minute_gap + NEAR_DATE_WINDOW_MINUTES <= i64::MAX
        },
    ensures
        allowed == admissible(
            candidate,
            if candidate.minute_gap == gap_stats.best_gap && gap_stats.best_count == 1 {
                gap_stats.second_best_gap as int
            } else {
                gap_stats.best_gap as int
            },
            gl_candidate_counts@[gl_idx as int] == 1,
            bank_candidate_counts@[candidate.bank_idx as int] == 1,
        ),
{
    if candidate.score_ppm >= STRONG_TEXT_SCORE_PPM {
        return true;
    }
    let unique_gl = gl_candidate_counts[gl_idx] == 1;
    let unique_bank = bank_candidate_counts[candidate.bank_idx] == 1;
    let exact_date = candidate.minute_gap == 0;
    let near_date = candidate.minute_gap <= NEAR_DATE_WINDOW_MINUTES;
    let second_best_gap = next_best_gap(gap_stats, candidate.minute_gap);
    let decisively_closest = candidate.minute_gap + NEAR_DATE_WINDOW_MINUTES < second_best_gap;

    if candidate.score_ppm >= MIN_TEXT_SCORE_PPM {
        return exact_date || (candidate.minute_gap <= WEAK_TEXT_DATE_WINDOW_MINUTES && (unique_gl
            || unique_bank || decisively_closest));
    }
    if candidate.score_ppm > 0 {
        return exact_date || (near_date && (unique_gl || unique_bank || decisively_closest));
    }
    (exact_date && unique_gl) || (near_date && unique_gl && unique_bank) || (exact_date
        && unique_bank && decisively_closest)
}

proof fn lemma_gap_count_is_filter(list: Seq<Candidate>, gap: int)
    ensures
        gap_count(list, gap) == list.filter(|c: Candidate| c.minute_gap == gap).len(),
    decreases list.len(),
{
    reveal(Seq::filter);
    if list.len() > 0 {
        lemma_gap_count_is_filter(list.drop_last(), gap);
    }
}

/// The smallest gap above a floor is no larger where all the candidates are among those of the
/// other list.
proof fn lemma_least_gap_among(a: Seq<Candidate>, b: Seq<Candidate>, floor: int)
    requires
        a.to_multiset() == b.to_multiset(),
    ensures
        least_gap_above(a, floor) <= least_gap_above(b, floor),
{
    lemma_least_gap_above(a, floor);
    lemma_least_gap_above(b, floor);
    let least = least_gap_above(b, floor);
    if least != i64::MAX {
        let k = choose|k: int|
            0 <= k < b.len() && floor < #[trigger] b[k].minute_gap && b[k].minute_gap == least;
        assert(b.contains(b[k]));
        vstd::seq_lib::to_multiset_contains(a, b[k]);
        vstd::seq_lib::to_multiset_contains(b, b[k]);
        let j = choose|j: int| 0 <= j < a.len() && a[j] == b[k];
        assert(a[j].minute_gap == least);
    }
}

/// The gap to beat does not depend on the order of the candidates.
pub proof fn lemma_rival_gap_ignores_order(a: Seq<Candidate>, b: Seq<Candidate>, gap: int)
    requires
        a.to_multiset() == b.to_multiset(),
    ensures
        rival_gap(a, gap) == rival_gap(b, gap),
{
    lemma_least_gap_among(a, b, i64::MIN - 1);
    lemma_least_gap_among(b, a, i64::MIN - 1);
    let best = least_gap(a);
    lemma_least_gap_among(a, b, best);
    lemma_least_gap_among(b, a, best);
    lemma_gap_count_is_filter(a, best);
    lemma_gap_count_is_filter(b, best);
    lemma_filter_ignores_order(a, b, |c: Candidate| c.minute_gap == best);
}

/// What is asked of the `k`-th candidate of an entry, besides the others that the entry has: a
/// score of 200,000 is enough, whatever else; with less the same minute, or a near date and a
/// reason to believe in it, and a score of zero asks for more reasons. A reason is that the entry
/// has no other candidate, that nobody else wants the transaction, or that every other candidate
/// is more than a day further away.
pub proof fn lemma_admission_rules(list: Seq<Candidate>, k: int, only_taker: bool)
    requires
        0 <= k < list.len(),
        list[k].minute_gap + 1_440 < i64::MAX,
    ensures
        ({
            let c = list[k];
            let alone = list.len() == 1;
            let decisive = forall|j: int|
                0 <= j < list.len() && j != k ==> c.minute_gap + 1_440 < #[trigger] list[j].minute_gap;
            let allowed = admissible(
                c,
                rival_gap(list, c.minute_gap as int),
                list.len() == 1,
                only_taker,
            );
            &&& c.score_ppm >= 200_000 ==> allowed
            &&& c.score_ppm > 0 && c.minute_gap == 0 ==> allowed
            // a reason is enough within three days, or within one day for the weakest scores
            &&& 50_000 <= c.score_ppm && c.minute_gap <= 4_320 && (alone || only_taker || decisive)
                ==> allowed
            &&& 0 < c.score_ppm && c.minute_gap <= 1_440 && (alone || only_taker || decisive)
                ==> allowed
            // and nothing else is
            &&& 50_000 <= c.score_ppm < 200_000 && allowed && c.minute_gap != 0 ==> c.minute_gap
                <= 4_320 && (alone || only_taker || decisive)
            &&& 0 < c.score_ppm < 50_000 && allowed && c.minute_gap != 0 ==> c.minute_gap <= 1_440
                && (alone || only_taker || decisive)
            // without a score
            &&& c.score_ppm == 0 && alone && c.minute_gap == 0 ==> allowed
            &&& c.score_ppm == 0 && alone && only_taker && c.minute_gap <= 1_440 ==> allowed
            &&& c.score_ppm == 0 && only_taker && decisive && c.minute_gap == 0 ==> allowed
            &&& c.score_ppm == 0 && allowed ==> c.minute_gap <= 1_440 && (alone || only_taker)
            &&& c.score_ppm == 0 && allowed && c.minute_gap != 0 ==> alone && only_taker
            &&& c.score_ppm == 0 && allowed && !alone ==> only_taker && decisive
        }),
{
    let c = list[k];
    let rival = rival_gap(list, c.minute_gap as int);
    lemma_rival_gap(list, k);
    let decisive = forall|j: int|
        0 <= j < list.len() && j != k ==> c.minute_gap + 1_440 < #[trigger] list[j].minute_gap;
    if decisive && rival != i64::MAX {
        let j = choose|j: int|
            0 <= j < list.len() && j != k && #[trigger] list[j].minute_gap == rival;
        assert(c.minute_gap + 1_440 < list[j].minute_gap);
    }
    if c.minute_gap + 1_440 < rival {
        assert forall|j: int| 0 <= j < list.len() && j != k implies c.minute_gap + 1_440
            < #[trigger] list[j].minute_gap by {
            assert(rival <= list[j].minute_gap);
        }
    }
}

} // verus!
