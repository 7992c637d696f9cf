//! Greedy matching: the admitted candidates are ranked, and each entry in turn takes the best bank
//! transaction that it can get, displacing entries that find another.
use vstd::prelude::*;

use crate::admission::{
    admissible, compute_gap_stats, heuristic_candidate_allowed, lemma_admission_rules,
    lemma_rival_gap_ignores_order, rival_gap, NEAR_DATE_WINDOW_MINUTES, STRONG_TEXT_SCORE_PPM,
};
use crate::candidate::{banks_in_range, lists, Assignment, Candidate};
use crate::matching::valid_matching;
use crate::order::{lemma_filter_ignores_order, lemma_filter_to_multiset, not_after};
use crate::rank::{
    candidate_key, entry_order, entry_order_key, lemma_bank_preference, lemma_candidate_order,
    lemma_entry_order, lemma_ranked_ignores_order, ranked, sort_candidates, sort_entries,
    top_in_range,
};
use crate::search::{
    fitting, held_as_before, held_no_worse, lemma_displaced_fits, lemma_search_extends,
    lemma_search_fails, pairing, ranking, search, try_assign, Pairing, Ranking,
};
use crate::sums::{lemma_sum_eq, lemma_sum_le, lemma_sum_single, lemma_sum_two, sum};

verus! {

/// How many of these candidates are bank transaction `x`.
pub open spec fn bank_count_in(list: Seq<Candidate>, x: int) -> int
    decreases list.len(),
{
    if list.len() == 0 {
        0
    } else if list.last().bank_idx == x {
        bank_count_in(list.drop_last(), x) + 1
    } else {
        bank_count_in(list.drop_last(), x)
    }
}

/// How often bank transaction `x` is a candidate.
pub open spec fn demand(cands: Seq<Seq<Candidate>>, x: int) -> int {
    sum(cands.len() as int, |g: int| bank_count_in(cands[g], x))
}

/// How often each of `banks` bank transactions is a candidate.
pub open spec fn demands(cands: Seq<Seq<Candidate>>, banks: nat) -> Seq<usize> {
    Seq::new(banks, |x: int| demand(cands, x) as usize)
}

/// How many candidates each entry has.
pub open spec fn sizes(cands: Seq<Seq<Candidate>>) -> Seq<usize> {
    Seq::new(cands.len(), |g: int| cands[g].len() as usize)
}

/// How many candidates there are in all.
pub open spec fn candidate_total(cands: Seq<Seq<Candidate>>) -> int {
    sum(cands.len() as int, |g: int| cands[g].len() as int)
}

/// Whether candidate `c` of entry `g` may be matched.
pub open spec fn admitted_at(cands: Seq<Seq<Candidate>>, g: int) -> spec_fn(Candidate) -> bool {
    |c: Candidate|
        admissible(
            c,
            rival_gap(cands[g], c.minute_gap as int),
            cands[g].len() == 1,
            demand(cands, c.bank_idx as int) == 1,
        )
}

/// The candidates that may be matched.
pub open spec fn admitted(cands: Seq<Seq<Candidate>>) -> Seq<Seq<Candidate>> {
    Seq::new(cands.len(), |g: int| cands[g].filter(admitted_at(cands, g)))
}

/// The admitted candidates of each entry, the preferred one first, and how many there are.
pub open spec fn admitted_ranking(cands: Seq<Seq<Candidate>>, banks: nat) -> Ranking {
    let kept = admitted(cands);
    Ranking {
        candidates: Seq::new(kept.len(), |g: int| ranked(kept[g], demands(kept, banks))),
        gl_counts: sizes(kept),
        bank_counts: demands(kept, banks),
    }
}

/// Nobody is matched.
pub open spec fn nobody(entries: nat, banks: nat) -> Pairing {
    Pairing {
        assignments: Seq::new(entries, |g: int| None),
        owners: Seq::new(banks, |x: int| None),
    }
}

/// Nothing has been looked at.
pub open spec fn no_marks(banks: nat) -> Seq<bool> {
    Seq::new(banks, |x: int| false)
}

/// Entry `g`, unless it is matched or has no candidates, searches for a bank transaction.
pub open spec fn settle(r: Ranking, g: usize, p: Pairing) -> Pairing {
    if p.assignments[g as int] is Some || r.candidates[g as int].len() == 0 {
        p
    } else {
        match search(r, g, 0, p, no_marks(p.owners.len())).0 {
            Some(q) => q,
            None => p,
        }
    }
}

/// The first `i` entries in `order` have had their turn.
pub open spec fn settled(r: Ranking, order: Seq<usize>, i: int, p: Pairing) -> Pairing
    decreases i,
{
    if i <= 0 {
        p
    } else {
        settle(r, order[i - 1], settled(r, order, i - 1, p))
    }
}

/// The greedy matching: two rounds, in each of which every entry has its turn.
pub open spec fn greedy(cands: Seq<Seq<Candidate>>, banks: nat) -> Pairing {
    let r = admitted_ranking(cands, banks);
    let order = entry_order(r.candidates, r.gl_counts, r.bank_counts);
    let first = settled(r, order, order.len() as int, nobody(cands.len(), banks));
    settled(r, order, order.len() as int, first)
}

proof fn lemma_bank_count_in(list: Seq<Candidate>, x: int)
    ensures
        0 <= bank_count_in(list, x) <= list.len(),
    decreases list.len(),
{
    if list.len() > 0 {
        lemma_bank_count_in(list.drop_last(), x);
    }
}

proof fn lemma_sum_grows(n: int, m: int, f: spec_fn(int) -> int)
    requires
        0 <= n <= m,
        forall|i: int| 0 <= i < m ==> 0 <= #[trigger] f(i),
    ensures
        0 <= sum(n, f) <= sum(m, f),
    decreases m,
{
    if m > n {
        lemma_sum_grows(n, m - 1, f);
    } else if m > 0 {
        lemma_sum_grows(n - 1, m - 1, f);
    }
}

/// How often each bank transaction is a candidate.
fn count_banks(gl_candidates: &[Vec<Candidate>], bank_count: usize) -> (counts: Vec<usize>)
    requires
        banks_in_range(lists(gl_candidates@), bank_count as int),
        candidate_total(lists(gl_candidates@)) <= usize::MAX,
    ensures
        counts@ == demands(lists(gl_candidates@), bank_count as nat),
        forall|x: int|
            0 <= x < bank_count ==> #[trigger] counts@[x] == demand(lists(gl_candidates@), x),
{
    let ghost cands = lists(gl_candidates@);
    let ghost size = |g: int| cands[g].len() as int;
    let mut counts: Vec<usize> = vec![0; bank_count];
    for g in 0..gl_candidates.len()
        invariant
            cands == lists(gl_candidates@),
            size == (|g: int| cands[g].len() as int),
            banks_in_range(cands, bank_count as int),
            candidate_total(cands) <= usize::MAX,
            counts@.len() == bank_count,
            forall|x: int|
                0 <= x < bank_count ==> #[trigger] counts@[x] == sum(
                    g as int,
                    |g: int| bank_count_in(cands[g], x),
                ),
    {
        let candidates = &gl_candidates[g];
        for k in 0..candidates.len()
            invariant
                cands == lists(gl_candidates@),
                size == (|g: int| cands[g].len() as int),
                g < cands.len(),
                candidates@ == cands[g as int],
                banks_in_range(cands, bank_count as int),
                candidate_total(cands) <= usize::MAX,
                counts@.len() == bank_count,
                forall|x: int|
                    0 <= x < bank_count ==> #[trigger] counts@[x] == sum(
                        g as int,
                        |g: int| bank_count_in(cands[g], x),
                    ) + bank_count_in(candidates@.take(k as int), x),
        {
            let bank_idx = candidates[k].bank_idx;
            let ghost before = counts@;
            proof {
                let x = bank_idx as int;
                let each = |g: int| bank_count_in(cands[g], x);
                assert(cands[g as int][k as int].bank_idx == x);
                lemma_bank_count_in(candidates@.take(k as int), x);
                assert forall|i: int| 0 <= i < g implies #[trigger] each(i) <= size(i) by {
                    lemma_bank_count_in(cands[i], x);
                }
                lemma_sum_le(g as int, each, size);
                lemma_sum_grows(g + 1, cands.len() as int, size);
                assert(size(g as int) == candidates@.len());
            }
            counts[bank_idx] = counts[bank_idx] + 1;
            assert forall|x: int| 0 <= x < bank_count implies #[trigger] counts@[x] == sum(
                g as int,
                |g: int| bank_count_in(cands[g], x),
            ) + bank_count_in(candidates@.take(k + 1), x) by {
                assert(before[x] == before[x]);
                assert(candidates@.take(k + 1).drop_last() =~= candidates@.take(k as int));
                assert(candidates@.take(k + 1).last() == candidates@[k as int]);
            }
        }
        assert forall|x: int| 0 <= x < bank_count implies #[trigger] counts@[x] == sum(
            g + 1,
            |g: int| bank_count_in(cands[g], x),
        ) by {
            assert(candidates@.take(candidates@.len() as int) =~= candidates@);
        }
    }
    assert(counts@ =~= demands(cands, bank_count as nat));
    counts
}

/// How many candidates each entry has.
fn count_candidates(gl_candidates: &[Vec<Candidate>]) -> (counts: Vec<usize>)
    ensures
        counts@ == sizes(lists(gl_candidates@)),
{
    let mut counts: Vec<usize> = Vec::new();
    for g in 0..gl_candidates.len()
        invariant
            counts@ == sizes(lists(gl_candidates@)).take(g as int),
    {
        counts.push(gl_candidates[g].len());
    }
    assert(sizes(lists(gl_candidates@)).take(gl_candidates@.len() as int) =~= sizes(
        lists(gl_candidates@),
    ));
    counts
}

/// The gaps of the candidates that have to be compared can be compared.
pub open spec fn gaps_fit(cands: Seq<Seq<Candidate>>) -> bool {
    forall|g: int, k: int|
        #![trigger cands[g][k]]
        0 <= g < cands.len() && 0 <= k < cands[g].len() && cands[g][k].score_ppm
            < STRONG_TEXT_SCORE_PPM ==> cands[g][k].minute_gap + NEAR_DATE_WINDOW_MINUTES
            <= i64::MAX
}

/// The candidates that may be matched.
fn admit_candidates(gl_candidates: &[Vec<Candidate>], bank_count: usize) -> (kept: Vec<
    Vec<Candidate>,
>)
    requires
        banks_in_range(lists(gl_candidates@), bank_count as int),
        candidate_total(lists(gl_candidates@)) <= usize::MAX,
        gaps_fit(lists(gl_candidates@)),
    ensures
        lists(kept@) == admitted(lists(gl_candidates@)),
{
    let ghost cands = lists(gl_candidates@);
    let bank_candidate_counts = count_banks(gl_candidates, bank_count);
    let gl_candidate_counts = count_candidates(gl_candidates);
    let mut kept: Vec<Vec<Candidate>> = Vec::new();
    for g in 0..gl_candidates.len()
        invariant
            cands == lists(gl_candidates@),
            banks_in_range(cands, bank_count as int),
            gaps_fit(cands),
            bank_candidate_counts@.len() == bank_count,
            forall|x: int|
                0 <= x < bank_count ==> #[trigger] bank_candidate_counts@[x] == demand(cands, x),
            gl_candidate_counts@ == sizes(cands),
            kept@.len() == g,
            forall|h: int| 0 <= h < g ==> #[trigger] kept@[h]@ == admitted(cands)[h],
    {
        let original = &gl_candidates[g];
        let gap_stats = compute_gap_stats(original);
        let mut filtered: Vec<Candidate> = Vec::new();
        for k in 0..original.len()
            invariant
                cands == lists(gl_candidates@),
                g < cands.len(),
                original@ == cands[g as int],
                banks_in_range(cands, bank_count as int),
                gaps_fit(cands),
                bank_candidate_counts@.len() == bank_count,
                forall|x: int|
                    0 <= x < bank_count ==> #[trigger] bank_candidate_counts@[x] == demand(
                        cands,
                        x,
                    ),
                gl_candidate_counts@ == sizes(cands),
                gap_stats.best_gap == crate::admission::least_gap(original@),
                gap_stats.best_count == crate::admission::gap_count(
                    original@,
                    gap_stats.best_gap as int,
                ),
                gap_stats.second_best_gap == crate::admission::least_gap_above(
                    original@,
                    gap_stats.best_gap as int,
                ),
                filtered@ == original@.take(k as int).filter(admitted_at(cands, g as int)),
        {
            let candidate = original[k];
            assert(cands[g as int][k as int] == candidate);
            let allowed = heuristic_candidate_allowed(
                g,
                candidate,
                gap_stats,
                &gl_candidate_counts,
                &bank_candidate_counts,
            );
            proof {
                assert(bank_candidate_counts@[candidate.bank_idx as int] == demand(
                    cands,
                    candidate.bank_idx as int,
                ));
                assert(allowed == admitted_at(cands, g as int)(candidate));
                reveal(Seq::filter);
                assert(original@.take(k + 1).drop_last() =~= original@.take(k as int));
                assert(original@.take(k + 1).last() == candidate);
            }
            if allowed {
                filtered.push(candidate);
            }
        }
        assert(original@.take(original@.len() as int) =~= original@);
        kept.push(filtered);
    }
    assert(lists(kept@) =~= admitted(cands));
    kept
}

/// Every admitted candidate is a candidate, and there are no more of them.
proof fn lemma_admitted(cands: Seq<Seq<Candidate>>, banks: int)
    requires
        banks_in_range(cands, banks),
    ensures
        banks_in_range(admitted(cands), banks),
        candidate_total(admitted(cands)) <= candidate_total(cands),
        forall|g: int, k: int|
            #![trigger admitted(cands)[g][k]]
            0 <= g < cands.len() && 0 <= k < admitted(cands)[g].len() ==> cands[g].contains(
                admitted(cands)[g][k],
            ) && admitted_at(cands, g)(admitted(cands)[g][k]),
{
    let kept = admitted(cands);
    assert forall|g: int, k: int|
        #![trigger kept[g][k]]
        0 <= g < cands.len() && 0 <= k < kept[g].len() implies cands[g].contains(kept[g][k])
        && admitted_at(cands, g)(kept[g][k]) && kept[g][k].bank_idx < banks by {
        lemma_filter_member(cands[g], admitted_at(cands, g), k);
        let j = choose|j: int| 0 <= j < cands[g].len() && cands[g][j] == kept[g][k];
        assert(cands[g][j].bank_idx < banks);
    }
    let many = |g: int| cands[g].len() as int;
    let few = |g: int| kept[g].len() as int;
    assert forall|g: int| 0 <= g < cands.len() implies #[trigger] few(g) <= many(g) by {
        cands[g].lemma_filter_len(admitted_at(cands, g));
    }
    lemma_sum_le(cands.len() as int, few, many);
}

proof fn lemma_filter_member(
    list: Seq<Candidate>,
    pred: spec_fn(Candidate) -> bool,
    k: int,
)
    requires
        0 <= k < list.filter(pred).len(),
    ensures
        list.contains(list.filter(pred)[k]),
        pred(list.filter(pred)[k]),
    decreases list.len(),
{
    reveal(Seq::filter);
    if list.len() > 0 {
        let init = list.drop_last();
        if k < init.filter(pred).len() {
            lemma_filter_member(init, pred, k);
            let j = choose|j: int| 0 <= j < init.len() && init[j] == init.filter(pred)[k];
            assert(list[j] == list.filter(pred)[k]);
        } else {
            assert(list[list.len() - 1] == list.filter(pred)[k]);
        }
    }
}

/// Ranking neither adds nor drops candidates.
proof fn lemma_ranked(list: Seq<Candidate>, bank_counts: Seq<usize>)
    ensures
        ranked(list, bank_counts).len() == list.len(),
        forall|k: int|
            0 <= k < list.len() ==> list.contains(#[trigger] ranked(list, bank_counts)[k]),
        forall|k: int|
            0 <= k < list.len() ==> ranked(list, bank_counts).contains(#[trigger] list[k]),
{
    broadcast use vstd::seq_lib::group_to_multiset_ensures;

    let key = |c: Candidate| candidate_key(c, bank_counts);
    lemma_candidate_order(bank_counts);
    list.lemma_sort_by_ensures(not_after(key));
    let out = ranked(list, bank_counts);
    assert(out.to_multiset() == list.to_multiset());
    assert(out.to_multiset().len() == list.to_multiset().len());
    assert forall|k: int| 0 <= k < list.len() implies list.contains(#[trigger] out[k]) by {
        assert(out.to_multiset().count(out[k]) > 0) by {
            assert(out.contains(out[k]));
        }
    }
    assert forall|k: int| 0 <= k < list.len() implies out.contains(#[trigger] list[k]) by {
        assert(list.to_multiset().count(list[k]) > 0) by {
            assert(list.contains(list[k]));
        }
    }
}

/// Each entry stands in the order once.
proof fn lemma_entry_order_members(
    cands: Seq<Seq<Candidate>>,
    gl_counts: Seq<usize>,
    bank_counts: Seq<usize>,
)
    requires
        cands.len() <= usize::MAX,
    ensures
        entry_order(cands, gl_counts, bank_counts).len() == cands.len(),
        forall|i: int|
            0 <= i < cands.len() ==> #[trigger] entry_order(cands, gl_counts, bank_counts)[i]
                < cands.len(),
        forall|g: usize|
            g < cands.len() ==> #[trigger] entry_order(cands, gl_counts, bank_counts).contains(g),
{
    broadcast use vstd::seq_lib::group_to_multiset_ensures;

    let start = Seq::new(cands.len(), |g: int| g as usize);
    let key = entry_order_key(cands, gl_counts, bank_counts);
    let out = entry_order(cands, gl_counts, bank_counts);
    lemma_entry_order(cands, gl_counts, bank_counts);
    start.lemma_sort_by_ensures(not_after(key));
    assert(out.to_multiset() == start.to_multiset());
    assert(out.to_multiset().len() == start.to_multiset().len());
    assert forall|i: int| 0 <= i < cands.len() implies #[trigger] out[i] < cands.len() by {
        assert(out.to_multiset().count(out[i]) > 0) by {
            assert(out.contains(out[i]));
        }
        assert(start.contains(out[i]));
    }
    assert forall|g: usize| g < cands.len() implies #[trigger] out.contains(g) by {
        assert(start[g as int] == g);
        assert(start.to_multiset().count(g) > 0) by {
            assert(start.contains(g));
        }
    }
}

/// The ranking of the admitted candidates is well formed, and nobody matched fits it.
proof fn lemma_admitted_ranking(cands: Seq<Seq<Candidate>>, banks: nat)
    requires
        banks_in_range(cands, banks as int),
    ensures
        admitted_ranking(cands, banks).wf(),
        admitted_ranking(cands, banks).candidates.len() == cands.len(),
        admitted_ranking(cands, banks).bank_counts.len() == banks,
        fitting(admitted_ranking(cands, banks), nobody(cands.len(), banks)),
        forall|g: int, k: int|
            #![trigger admitted_ranking(cands, banks).candidates[g][k]]
            0 <= g < cands.len() && 0 <= k < admitted_ranking(cands, banks).candidates[g].len()
                ==> admitted(cands)[g].contains(admitted_ranking(cands, banks).candidates[g][k]),
{
    let r = admitted_ranking(cands, banks);
    let kept = admitted(cands);
    lemma_admitted(cands, banks as int);
    assert forall|g: int, k: int|
        #![trigger r.candidates[g][k]]
        0 <= g < r.candidates.len() && 0 <= k < r.candidates[g].len() implies r.candidates[g][k].bank_idx
        < r.bank_counts.len() && kept[g].contains(r.candidates[g][k]) by {
        lemma_ranked(kept[g], r.bank_counts);
        let c = ranked(kept[g], r.bank_counts)[k];
        assert(kept[g].contains(c));
        let j = choose|j: int| 0 <= j < kept[g].len() && kept[g][j] == c;
        assert(kept[g][j].bank_idx < banks);
    }
}

/// A turn keeps the pairing fitting.
proof fn lemma_settle(r: Ranking, g: usize, p: Pairing)
    requires
        fitting(r, p),
        g < r.candidates.len(),
    ensures
        fitting(r, settle(r, g, p)),
{
    if !(p.assignments[g as int] is Some || r.candidates[g as int].len() == 0) {
        lemma_search_extends(r, g, 0, p, no_marks(p.owners.len()));
    }
}

proof fn lemma_settled(r: Ranking, order: Seq<usize>, i: int, p: Pairing)
    requires
        fitting(r, p),
        0 <= i <= order.len(),
        forall|j: int| 0 <= j < order.len() ==> #[trigger] order[j] < r.candidates.len(),
    ensures
        fitting(r, settled(r, order, i, p)),
    decreases i,
{
    if i > 0 {
        lemma_settled(r, order, i - 1, p);
        lemma_settle(r, order[i - 1], settled(r, order, i - 1, p));
    }
}

/// A fitting pairing is a matching.
proof fn lemma_fitting_is_matching(cands: Seq<Seq<Candidate>>, banks: nat, p: Pairing)
    requires
        banks_in_range(cands, banks as int),
        fitting(admitted_ranking(cands, banks), p),
    ensures
        valid_matching(admitted(cands), p.assignments),
        valid_matching(cands, p.assignments),
{
    let r = admitted_ranking(cands, banks);
    let kept = admitted(cands);
    lemma_admitted_ranking(cands, banks);
    lemma_admitted(cands, banks as int);
    let a = p.assignments;
    assert forall|g: int| 0 <= g < a.len() && #[trigger] a[g] is Some implies (exists|k: int|
        0 <= k < kept[g].len() && #[trigger] kept[g][k].taken() == a[g]->0) && (exists|k: int|
        0 <= k < cands[g].len() && #[trigger] cands[g][k].taken() == a[g]->0) by {
        let k = choose|k: int|
            0 <= k < r.candidates[g].len() && #[trigger] r.candidates[g][k].taken() == a[g]->0;
        let c = r.candidates[g][k];
        assert(kept[g].contains(c));
        let i = choose|i: int| 0 <= i < kept[g].len() && kept[g][i] == c;
        assert(kept[g][i].taken() == a[g]->0);
        assert(cands[g].contains(kept[g][i]));
        let j = choose|j: int| 0 <= j < cands[g].len() && cands[g][j] == c;
        assert(cands[g][j].taken() == a[g]->0);
    }
}

/// Entry `g` is matched, or all its candidates are held.
spec fn served(r: Ranking, g: int, p: Pairing) -> bool {
    p.assignments[g] is Some || forall|k: int|
        0 <= k < r.candidates[g].len() ==> p.owners[#[trigger] r.candidates[g][k].bank_idx as int] is Some
}

/// After its turn an entry is served, and whoever was served still is.
proof fn lemma_settle_serves(r: Ranking, g: usize, p: Pairing)
    requires
        fitting(r, p),
        g < r.candidates.len(),
    ensures
        served(r, g as int, settle(r, g, p)),
        forall|h: int|
            0 <= h < r.candidates.len() && #[trigger] served(r, h, p) ==> served(
                r,
                h,
                settle(r, g, p),
            ),
{
    let q = settle(r, g, p);
    if !(p.assignments[g as int] is Some || r.candidates[g as int].len() == 0) {
        let marks = no_marks(p.owners.len());
        lemma_search_extends(r, g, 0, p, marks);
        if search(r, g, 0, p, marks).0 is None {
            lemma_search_fails(r, g, 0, p, marks);
        } else {
            assert(q.assignments[g as int] is Some);
            assert forall|h: int| 0 <= h < r.candidates.len() && #[trigger] served(r, h, p) implies served(
            r, h, q) by {
                if q.assignments[h] is None {
                    assert(p.assignments[h] is None);
                    assert forall|k: int| 0 <= k < r.candidates[h].len() implies q.owners[#[trigger] r.candidates[h][k].bank_idx as int] is Some by {
                        let x = r.candidates[h][k].bank_idx as int;
                        assert(p.owners[x] is Some);
                        assert(held_no_worse(r, p, q, x));
                    }
                }
            }
        }
    }
}

proof fn lemma_settled_serves(r: Ranking, order: Seq<usize>, i: int, p: Pairing)
    requires
        fitting(r, p),
        0 <= i <= order.len(),
        forall|j: int| 0 <= j < order.len() ==> #[trigger] order[j] < r.candidates.len(),
    ensures
        forall|j: int|
            0 <= j < i ==> #[trigger] served(r, order[j] as int, settled(r, order, i, p)),
        forall|h: int|
            0 <= h < r.candidates.len() && #[trigger] served(r, h, p) ==> served(
                r,
                h,
                settled(r, order, i, p),
            ),
    decreases i,
{
    if i > 0 {
        lemma_settled_serves(r, order, i - 1, p);
        lemma_settled(r, order, i - 1, p);
        lemma_settle_serves(r, order[i - 1], settled(r, order, i - 1, p));
        assert forall|j: int| 0 <= j < i implies #[trigger] served(
            r,
            order[j] as int,
            settled(r, order, i, p),
        ) by {
            if j < i - 1 {
                assert(served(r, order[j] as int, settled(r, order, i - 1, p)));
            }
        }
    }
}

/// Some entry is matched with bank transaction `x`.
pub open spec fn bank_taken(a: Seq<Option<Assignment>>, x: int) -> bool {
    exists|h: int| 0 <= h < a.len() && #[trigger] a[h] is Some && a[h]->0.bank_idx == x
}

/// The greedy matching matches entries with admitted candidates only, no bank transaction twice,
/// and leaves no entry unmatched that has an admitted candidate which nobody took.
pub proof fn lemma_greedy_is_maximal(cands: Seq<Seq<Candidate>>, banks: nat)
    requires
        banks_in_range(cands, banks as int),
        cands.len() <= usize::MAX,
    ensures
        ({
            let a = greedy(cands, banks).assignments;
            &&& valid_matching(admitted(cands), a)
            &&& forall|g: int, k: int|
                #![trigger admitted(cands)[g][k]]
                0 <= g < cands.len() && 0 <= k < admitted(cands)[g].len() && a[g] is None
                    ==> bank_taken(a, admitted(cands)[g][k].bank_idx as int)
        }),
{
    let r = admitted_ranking(cands, banks);
    let kept = admitted(cands);
    let order = entry_order(r.candidates, r.gl_counts, r.bank_counts);
    let start = nobody(cands.len(), banks);
    let n = order.len() as int;
    let first = settled(r, order, n, start);
    let p = greedy(cands, banks);
    let a = p.assignments;
    lemma_admitted_ranking(cands, banks);
    lemma_entry_order_members(r.candidates, r.gl_counts, r.bank_counts);
    lemma_settled(r, order, n, start);
    lemma_settled(r, order, n, first);
    lemma_settled_serves(r, order, n, first);
    lemma_fitting_is_matching(cands, banks, p);
    assert forall|g: int, k: int|
        #![trigger kept[g][k]]
        0 <= g < cands.len() && 0 <= k < kept[g].len() && a[g] is None implies bank_taken(
        a,
        kept[g][k].bank_idx as int,
    ) by {
        assert(order.contains(g as usize));
        let j = choose|j: int| 0 <= j < order.len() && order[j] == g as usize;
        assert(served(r, order[j] as int, p));
        lemma_ranked(kept[g], r.bank_counts);
        assert(r.candidates[g].contains(kept[g][k]));
        let i = choose|i: int| 0 <= i < r.candidates[g].len() && r.candidates[g][i] == kept[g][k];
        let x = r.candidates[g][i].bank_idx as int;
        assert(p.owners[x] is Some);
        let h = p.owners[x]->0 as int;
        assert(a[h] is Some);
    }
}

/// One round: every entry in `gl_order` has its turn.
fn settle_round(
    gl_order: &Vec<usize>,
    gl_candidates: &[Vec<Candidate>],
    gl_candidate_counts: &[usize],
    bank_candidate_counts: &[usize],
    assignments: &mut Vec<Option<Assignment>>,
    bank_owners: &mut Vec<Option<usize>>,
)
    requires
        fitting(
            ranking(gl_candidates@, gl_candidate_counts@, bank_candidate_counts@),
            pairing(old(assignments)@, old(bank_owners)@),
        ),
        forall|i: int| 0 <= i < gl_order@.len() ==> #[trigger] gl_order@[i] < gl_candidates@.len(),
    ensures
        pairing(final(assignments)@, final(bank_owners)@) == settled(
            ranking(gl_candidates@, gl_candidate_counts@, bank_candidate_counts@),
            gl_order@,
            gl_order@.len() as int,
            pairing(old(assignments)@, old(bank_owners)@),
        ),
{
    let ghost r = ranking(gl_candidates@, gl_candidate_counts@, bank_candidate_counts@);
    let ghost p = pairing(assignments@, bank_owners@);
    for i in 0..gl_order.len()
        invariant
            r == ranking(gl_candidates@, gl_candidate_counts@, bank_candidate_counts@),
            fitting(r, p),
            forall|i: int|
                0 <= i < gl_order@.len() ==> #[trigger] gl_order@[i] < gl_candidates@.len(),
            pairing(assignments@, bank_owners@) == settled(r, gl_order@, i as int, p),
            assignments@.len() == gl_candidates@.len(),
            bank_owners@.len() == bank_candidate_counts@.len(),
    {
        let gl_idx = gl_order[i];
        let ghost now = pairing(assignments@, bank_owners@);
        proof {
            lemma_settled(r, gl_order@, i as int, p);
            lemma_settle(r, gl_idx, now);
        }
        if assignments[gl_idx].is_none() && gl_candidates[gl_idx].len() > 0 {
            let mut seen_banks: Vec<bool> = vec![false; bank_owners.len()];
            assert(seen_banks@ =~= no_marks(now.owners.len()));
            let _ = try_assign(
                gl_idx,
                gl_candidates,
                gl_candidate_counts,
                bank_candidate_counts,
                assignments,
                bank_owners,
                &mut seen_banks,
            );
        }
    }
}

/// Matches entries with bank transactions greedily.
pub fn match_heuristic(gl_candidates: &[Vec<Candidate>], bank_count: usize) -> (assignments: Vec<
    Option<Assignment>,
>)
    requires
        banks_in_range(lists(gl_candidates@), bank_count as int),
        candidate_total(lists(gl_candidates@)) <= usize::MAX,
        gaps_fit(lists(gl_candidates@)),
    ensures
        assignments@ == greedy(lists(gl_candidates@), bank_count as nat).assignments,
        valid_matching(lists(gl_candidates@), assignments@),
{
    let ghost cands = lists(gl_candidates@);
    let ghost banks = bank_count as nat;
    let ghost r = admitted_ranking(cands, banks);
    let mut filtered_candidates = admit_candidates(gl_candidates, bank_count);
    let ghost kept = admitted(cands);
    proof {
        lemma_admitted(cands, banks as int);
        lemma_admitted_ranking(cands, banks);
    }
    let filtered_gl_candidate_counts = count_candidates(&filtered_candidates);
    let filtered_bank_candidate_counts = count_banks(&filtered_candidates, bank_count);

    let gl_count = filtered_candidates.len();
    for g in 0..gl_count
        invariant
            gl_count == kept.len(),
            kept.len() == filtered_candidates@.len(),
            banks_in_range(kept, banks as int),
            filtered_bank_candidate_counts@ == demands(kept, banks),
            r.candidates.len() == kept.len(),
            forall|h: int|
                0 <= h < kept.len() ==> r.candidates[h] == #[trigger] ranked(
                    kept[h],
                    demands(kept, banks),
                ),
            forall|h: int|
                0 <= h < g ==> (#[trigger] filtered_candidates@[h])@ == r.candidates[h],
            forall|h: int|
                g <= h < kept.len() ==> (#[trigger] filtered_candidates@[h])@ == kept[h],
    {
        proof {
            assert(filtered_candidates@[g as int]@ == kept[g as int]);
            assert forall|k: int| 0 <= k < filtered_candidates@[g as int]@.len() implies #[trigger] filtered_candidates@[g as int]@[k].bank_idx
                < filtered_bank_candidate_counts@.len() by {
                assert(kept[g as int][k].bank_idx < banks);
            }
            assert(r.candidates[g as int] == ranked(kept[g as int], demands(kept, banks)));
        }
        sort_candidates(&mut filtered_candidates[g], &filtered_bank_candidate_counts);
    }
    assert(lists(filtered_candidates@) =~= r.candidates);
    proof {
        assert forall|g: usize| g < filtered_candidates@.len() implies #[trigger] top_in_range(
            filtered_candidates@,
            g,
            filtered_bank_candidate_counts@,
        ) by {
            assert(r.candidates[g as int] == filtered_candidates@[g as int]@);
            if r.candidates[g as int].len() > 0 {
                assert(r.candidates[g as int][0].bank_idx < r.bank_counts.len());
            }
        }
        lemma_entry_order_members(r.candidates, r.gl_counts, r.bank_counts);
    }
    let gl_order = sort_entries(
        &filtered_candidates,
        &filtered_gl_candidate_counts,
        &filtered_bank_candidate_counts,
    );

    let mut assignments: Vec<Option<Assignment>> = vec![None; filtered_candidates.len()];
    let mut bank_owners: Vec<Option<usize>> = vec![None; bank_count];
    proof {
        assert(assignments@ =~= nobody(cands.len(), banks).assignments);
        assert(bank_owners@ =~= nobody(cands.len(), banks).owners);
        assert(ranking(
            filtered_candidates@,
            filtered_gl_candidate_counts@,
            filtered_bank_candidate_counts@,
        ) == r);
        lemma_settled(r, gl_order@, gl_order@.len() as int, nobody(cands.len(), banks));
        lemma_settled(
            r,
            gl_order@,
            gl_order@.len() as int,
            settled(r, gl_order@, gl_order@.len() as int, nobody(cands.len(), banks)),
        );
    }
    settle_round(
        &gl_order,
        &filtered_candidates,
        &filtered_gl_candidate_counts,
        &filtered_bank_candidate_counts,
        &mut assignments,
        &mut bank_owners,
    );
    settle_round(
        &gl_order,
        &filtered_candidates,
        &filtered_gl_candidate_counts,
        &filtered_bank_candidate_counts,
        &mut assignments,
        &mut bank_owners,
    );
    proof {
        lemma_fitting_is_matching(cands, banks, greedy(cands, banks));
    }
    assignments
}

proof fn lemma_bank_count_is_filter(list: Seq<Candidate>, x: int)
    ensures
        bank_count_in(list, x) == list.filter(|c: Candidate| c.bank_idx == x).len(),
    decreases list.len(),
{
    reveal(Seq::filter);
    if list.len() > 0 {
        lemma_bank_count_is_filter(list.drop_last(), x);
    }
}

/// Entry by entry the same candidates, in whatever order.
pub open spec fn same_candidates(a: Seq<Seq<Candidate>>, b: Seq<Seq<Candidate>>) -> bool {
    &&& a.len() == b.len()
    &&& forall|g: int|
        #![trigger a[g]]
        #![trigger b[g]]
        0 <= g < a.len() ==> a[g].to_multiset() == b[g].to_multiset()
}

/// How often a bank transaction is a candidate does not depend on the order of the candidates.
proof fn lemma_demand_ignores_order(a: Seq<Seq<Candidate>>, b: Seq<Seq<Candidate>>, x: int)
    requires
        same_candidates(a, b),
    ensures
        demand(a, x) == demand(b, x),
{
    let f = |g: int| bank_count_in(a[g], x);
    let h = |g: int| bank_count_in(b[g], x);
    assert forall|g: int| 0 <= g < a.len() implies #[trigger] f(g) == h(g) by {
        assert(a[g].to_multiset() == b[g].to_multiset());
        lemma_bank_count_is_filter(a[g], x);
        lemma_bank_count_is_filter(b[g], x);
        lemma_filter_ignores_order(a[g], b[g], |c: Candidate| c.bank_idx == x);
    }
    lemma_sum_eq(a.len() as int, f, h);
}

/// Which candidates may be matched does not depend on the order of the candidates.
proof fn lemma_admitted_ignores_order(a: Seq<Seq<Candidate>>, b: Seq<Seq<Candidate>>)
    requires
        same_candidates(a, b),
    ensures
        same_candidates(admitted(a), admitted(b)),
{
    assert forall|g: int| 0 <= g < a.len() implies #[trigger] admitted(a)[g].to_multiset()
        == admitted(b)[g].to_multiset() by {
        assert(a[g].to_multiset() == b[g].to_multiset());
        let keep = admitted_at(a, g);
        assert forall|c: Candidate| #[trigger] keep(c) == admitted_at(b, g)(c) by {
            lemma_rival_gap_ignores_order(a[g], b[g], c.minute_gap as int);
            lemma_demand_ignores_order(a, b, c.bank_idx as int);
            vstd::seq_lib::to_multiset_len(a[g]);
            vstd::seq_lib::to_multiset_len(b[g]);
        }
        assert(keep =~= admitted_at(b, g));
        lemma_filter_ignores_order(a[g], b[g], keep);
    }
}

/// The greedy matching does not depend on the order in which the candidates of each entry are
/// listed: ties are broken by what the candidates are, never by where they stand.
pub proof fn lemma_greedy_ignores_order(
    a: Seq<Seq<Candidate>>,
    b: Seq<Seq<Candidate>>,
    banks: nat,
)
    requires
        same_candidates(a, b),
    ensures
        greedy(a, banks) == greedy(b, banks),
        greedy(a, banks).assignments == greedy(b, banks).assignments,
{
    lemma_admitted_ignores_order(a, b);
    let ka = admitted(a);
    let kb = admitted(b);
    assert(demands(ka, banks) =~= demands(kb, banks)) by {
        assert forall|x: int| 0 <= x < banks implies #[trigger] demands(ka, banks)[x] == demands(
            kb,
            banks,
        )[x] by {
            lemma_demand_ignores_order(ka, kb, x);
        }
    }
    assert forall|g: int| 0 <= g < ka.len() implies #[trigger] ka[g].len() == kb[g].len() && ranked(
        ka[g],
        demands(ka, banks),
    ) == ranked(kb[g], demands(kb, banks)) by {
        vstd::seq_lib::to_multiset_len(ka[g]);
        vstd::seq_lib::to_multiset_len(kb[g]);
        lemma_ranked_ignores_order(ka[g], kb[g], demands(ka, banks));
    }
    assert(sizes(ka) =~= sizes(kb));
    let ra = admitted_ranking(a, banks).candidates;
    let rb = admitted_ranking(b, banks).candidates;
    assert forall|g: int| 0 <= g < ra.len() implies #[trigger] ra[g] == rb[g] by {
        assert(ka[g].len() == kb[g].len());
    }
    assert(ra =~= rb);
    assert(admitted_ranking(a, banks) == admitted_ranking(b, banks));
}

proof fn lemma_bank_count_places(list: Seq<Candidate>, x: int)
    ensures
        bank_count_in(list, x) >= 0,
        bank_count_in(list, x) == 0 <==> forall|j: int|
            0 <= j < list.len() ==> (#[trigger] list[j]).bank_idx != x,
        bank_count_in(list, x) <= 1 <==> forall|i: int, j: int|
            0 <= i < list.len() && 0 <= j < list.len() && (#[trigger] list[i]).bank_idx == x && (
            #[trigger] list[j]).bank_idx == x ==> i == j,
    decreases list.len(),
{
    if list.len() > 0 {
        let init = list.drop_last();
        let n = init.len() as int;
        lemma_bank_count_places(init, x);
        assert forall|j: int| 0 <= j < n implies #[trigger] init[j] == list[j] by {}
        if list.last().bank_idx == x {
            assert(list[n].bank_idx == x);
            if bank_count_in(init, x) != 0 {
                let j = choose|j: int| 0 <= j < n && (#[trigger] init[j]).bank_idx == x;
                assert(list[j].bank_idx == x);
            } else {
                assert forall|i: int, j: int|
                    0 <= i < list.len() && 0 <= j < list.len() && (#[trigger] list[i]).bank_idx == x
                        && (#[trigger] list[j]).bank_idx == x implies i == j by {
                    if i < n {
                        assert(init[i].bank_idx != x);
                    }
                    if j < n {
                        assert(init[j].bank_idx != x);
                    }
                }
            }
        } else {
            if bank_count_in(init, x) != 0 {
                let j = choose|j: int| 0 <= j < n && (#[trigger] init[j]).bank_idx == x;
                assert(list[j].bank_idx == x);
            } else {
                assert forall|j: int| 0 <= j < list.len() implies (#[trigger] list[j]).bank_idx
                    != x by {
                    if j < n {
                        assert(init[j].bank_idx != x);
                    }
                }
            }
            if bank_count_in(init, x) > 1 {
                let (i, j) = choose|i: int, j: int|
                    0 <= i < n && 0 <= j < n && (#[trigger] init[i]).bank_idx == x && (
                    #[trigger] init[j]).bank_idx == x && i != j;
                assert(list[i].bank_idx == x && list[j].bank_idx == x);
            } else {
                assert forall|i: int, j: int|
                    0 <= i < list.len() && 0 <= j < list.len() && (#[trigger] list[i]).bank_idx == x
                        && (#[trigger] list[j]).bank_idx == x implies i == j by {
                    assert(i < n && j < n);
                    assert(init[i].bank_idx == x && init[j].bank_idx == x);
                }
            }
        }
    }
}

/// A transaction is wanted once if and only if it is a candidate in one place.
pub proof fn lemma_wanted_once(cands: Seq<Seq<Candidate>>, g: int, k: int)
    requires
        0 <= g < cands.len(),
        0 <= k < cands[g].len(),
    ensures
        demand(cands, cands[g][k].bank_idx as int) == 1 <==> forall|h: int, j: int|
            0 <= h < cands.len() && 0 <= j < cands[h].len() && (
            #[trigger] cands[h][j]).bank_idx == cands[g][k].bank_idx ==> h == g && j == k,
{
    let x = cands[g][k].bank_idx as int;
    let n = cands.len() as int;
    let f = |h: int| bank_count_in(cands[h], x);
    assert forall|h: int| 0 <= h < n implies #[trigger] f(h) >= 0 by {
        lemma_bank_count_places(cands[h], x);
    }
    lemma_bank_count_places(cands[g], x);
    assert(f(g) >= 1) by {
        assert(cands[g][k].bank_idx == x);
    }
    let once = forall|h: int, j: int|
        0 <= h < n && 0 <= j < cands[h].len() && (#[trigger] cands[h][j]).bank_idx
            == cands[g][k].bank_idx ==> h == g && j == k;
    if once {
        assert forall|h: int| 0 <= h < n && h != g implies #[trigger] f(h) == 0 by {
            lemma_bank_count_places(cands[h], x);
        }
        lemma_sum_single(n, f, g);
        assert forall|i: int, j: int|
            0 <= i < cands[g].len() && 0 <= j < cands[g].len() && (
            #[trigger] cands[g][i]).bank_idx == x && (#[trigger] cands[g][j]).bank_idx == x implies i
            == j by {}
    } else {
        let (h, j) = choose|h: int, j: int|
            0 <= h < n && 0 <= j < cands[h].len() && (#[trigger] cands[h][j]).bank_idx
                == cands[g][k].bank_idx && !(h == g && j == k);
        lemma_bank_count_places(cands[h], x);
        assert(cands[h][j].bank_idx == x);
        if h == g {
            assert(f(g) >= 2);
            let one = |i: int| if i == g { 2int } else { 0int };
            assert forall|i: int| 0 <= i < n implies #[trigger] one(i) <= f(i) by {}
            lemma_sum_le(n, one, f);
            lemma_sum_single(n, one, g);
        } else {
            assert(f(h) >= 1);
            lemma_sum_two(n, f, g, h);
        }
    }
}

/// Which candidates the greedy matcher considers: the `k`-th candidate of entry `g` is among those
/// admitted according to its score, its gap, the gaps of the other candidates of the entry, and
/// whether it is the only candidate with its transaction.
pub proof fn lemma_admitted_by_rules(cands: Seq<Seq<Candidate>>, g: int, k: int)
    requires
        0 <= g < cands.len(),
        0 <= k < cands[g].len(),
        cands[g][k].minute_gap + 1_440 < i64::MAX,
    ensures
        ({
            let c = cands[g][k];
            let alone = cands[g].len() == 1;
            let unrivalled = forall|h: int, j: int|
                0 <= h < cands.len() && 0 <= j < cands[h].len() && (
                #[trigger] cands[h][j]).bank_idx == c.bank_idx ==> h == g && j == k;
            let decisive = forall|j: int|
                0 <= j < cands[g].len() && j != k ==> c.minute_gap + 1_440
                    < #[trigger] cands[g][j].minute_gap;
            let reason = alone || unrivalled || decisive;
            admitted(cands)[g].contains(c) <==> {
                ||| c.score_ppm >= 200_000
                ||| c.score_ppm > 0 && c.minute_gap == 0
                ||| c.score_ppm >= 50_000 && c.minute_gap <= 4_320 && reason
                ||| c.score_ppm > 0 && c.minute_gap <= 1_440 && reason
                ||| c.minute_gap == 0 && alone
                ||| c.minute_gap <= 1_440 && alone && unrivalled
                ||| c.minute_gap == 0 && unrivalled && decisive
            }
        }),
{
    let c = cands[g][k];
    let keep = admitted_at(cands, g);
    let only_taker = demand(cands, c.bank_idx as int) == 1;
    lemma_wanted_once(cands, g, k);
    lemma_admission_rules(cands[g], k, only_taker);
    lemma_admitted_contains(cands[g], keep, c);
    assert(cands[g].contains(c));
}

proof fn lemma_admitted_contains(
    list: Seq<Candidate>,
    keep: spec_fn(Candidate) -> bool,
    c: Candidate,
)
    ensures
        list.filter(keep).contains(c) <==> list.contains(c) && keep(c),
{
    broadcast use vstd::multiset::group_multiset_axioms;

    lemma_filter_to_multiset(list, keep);
    vstd::seq_lib::to_multiset_contains(list, c);
    vstd::seq_lib::to_multiset_contains(list.filter(keep), c);
}

/// The greedy matcher ranks the admitted candidates of each entry, by how many admitted candidates
/// the entries have and how often transactions are among them.
pub proof fn lemma_ranking_is_of_admitted(cands: Seq<Seq<Candidate>>, banks: nat, g: int, x: int)
    requires
        0 <= g < cands.len(),
        0 <= x < banks,
        cands[g].len() <= usize::MAX,
        candidate_total(cands) <= usize::MAX,
    ensures
        ({
            let r = admitted_ranking(cands, banks);
            let kept = admitted(cands);
            &&& r.candidates.len() == cands.len()
            &&& r.bank_counts.len() == banks
            &&& r.candidates[g] == ranked(kept[g], r.bank_counts)
            &&& r.candidates[g].to_multiset() == kept[g].to_multiset()
            &&& r.gl_counts[g] == kept[g].len()
            &&& r.bank_counts[x] == sum(
                cands.len() as int,
                |h: int| kept[h].filter(|c: Candidate| c.bank_idx == x).len() as int,
            )
            &&& forall|c: Candidate| #[trigger] kept[g].contains(c) ==> cands[g].contains(c)
            &&& forall|c: Candidate| #[trigger]
                kept[g].contains(c) ==> kept[g].to_multiset().count(c)
                    == cands[g].to_multiset().count(c)
        }),
{
    broadcast use vstd::multiset::group_multiset_axioms;

    let kept = admitted(cands);
    let counts = demands(kept, banks);
    let leq = not_after(|c: Candidate| candidate_key(c, counts));
    lemma_candidate_order(counts);
    kept[g].lemma_sort_by_ensures(leq);
    let keep = admitted_at(cands, g);
    lemma_filter_to_multiset(cands[g], keep);
    cands[g].lemma_filter_len(keep);
    assert forall|c: Candidate| #[trigger] kept[g].contains(c) implies cands[g].contains(c)
        && kept[g].to_multiset().count(c) == cands[g].to_multiset().count(c) by {
        lemma_admitted_contains(cands[g], keep, c);
    }
    let n = cands.len() as int;
    let f = |h: int| bank_count_in(kept[h], x);
    let w = |h: int| kept[h].filter(|c: Candidate| c.bank_idx == x).len() as int;
    let size = |h: int| cands[h].len() as int;
    assert forall|h: int| 0 <= h < n implies #[trigger] f(h) == w(h) && 0 <= f(h) <= size(h) by {
        lemma_bank_count_is_filter(kept[h], x);
        lemma_bank_count_in(kept[h], x);
        cands[h].lemma_filter_len(admitted_at(cands, h));
    }
    lemma_sum_eq(n, f, w);
    lemma_sum_le(n, f, size);
    lemma_sum_grows(n, n, f);
}

/// An entry that is looking for a transaction takes the one that it likes best where it is free;
/// and where that one is held by an entry that it likes less and that has a free candidate of its
/// own, it changes hands.
pub proof fn lemma_first_choice_is_won(r: Ranking, g: usize, p: Pairing, y: int)
    requires
        fitting(r, p),
        g < r.candidates.len(),
        p.assignments[g as int] is None,
        r.candidates[g as int].len() > 0,
        ({
            let c = r.candidates[g as int][0];
            p.owners[c.bank_idx as int] matches Some(o) ==> {
                let held = p.assignments[o as int]->0;
                let d = r.candidates[o as int][y];
                &&& c.score_ppm > held.score_ppm || c.score_ppm == held.score_ppm && c.minute_gap
                    < held.minute_gap
                &&& 0 <= y < r.candidates[o as int].len()
                &&& p.owners[d.bank_idx as int] is None
            }
        }),
    ensures
        ({
            let c = r.candidates[g as int][0];
            let q = settle(r, g, p);
            &&& q.assignments[g as int] is Some
            &&& q.assignments[g as int]->0.bank_idx == c.bank_idx
            &&& q.assignments[g as int]->0.score_ppm == c.score_ppm
            &&& q.assignments[g as int]->0.minute_gap == c.minute_gap
            &&& forall|h: int|
                0 <= h < p.assignments.len() && #[trigger] p.assignments[h] is Some
                    ==> q.assignments[h] is Some
        }),
{
    let c = r.candidates[g as int][0];
    let x = c.bank_idx as int;
    let none = no_marks(p.owners.len());
    let marked = none.update(x, true);
    assert(x < r.bank_counts.len());
    lemma_search_extends(r, g, 0, p, none);
    match p.owners[x] {
        None => {},
        Some(o) => {
            let held = p.assignments[o as int]->0;
            assert(p.assignments[o as int] is Some && held.bank_idx == x);
            lemma_bank_preference(g, c.taken(), o, held, r.gl_counts, r.bank_counts);
            assert(r.prefers(g, c, o, held));
            let moved = p.displace(g, c, o);
            lemma_displaced_fits(r, p, g, 0);
            let d = r.candidates[o as int][y];
            assert(d.bank_idx < r.bank_counts.len());
            let (found, after) = search(r, o, 0, moved, marked);
            if found is None {
                lemma_search_fails(r, o, 0, moved, marked);
                assert(marked[d.bank_idx as int] || moved.owners[d.bank_idx as int] is Some);
                assert(false);
            }
            lemma_search_extends(r, o, 0, moved, marked);
            let q = found->0;
            assert(marked[x]);
            assert(held_as_before(moved, q, x));
            assert(search(r, g, 0, p, none).0 == found);
        },
    }
}

/// After everybody has had a turn everybody has another: an entry that comes first among those
/// that are left over, and that could now be matched, is.
pub proof fn lemma_second_chance(cands: Seq<Seq<Candidate>>, banks: nat, i: int)
    requires
        banks_in_range(cands, banks as int),
        cands.len() <= usize::MAX,
        ({
            let r = admitted_ranking(cands, banks);
            let order = entry_order(r.candidates, r.gl_counts, r.bank_counts);
            let first = settled(r, order, order.len() as int, nobody(cands.len(), banks));
            &&& 0 <= i < order.len()
            &&& forall|j: int|
                0 <= j < i ==> first.assignments[#[trigger] order[j] as int] is Some
            &&& r.candidates[order[i] as int].len() > 0
            &&& search(r, order[i], 0, first, no_marks(banks)).0 is Some
        }),
    ensures
        ({
            let r = admitted_ranking(cands, banks);
            let order = entry_order(r.candidates, r.gl_counts, r.bank_counts);
            greedy(cands, banks).assignments[order[i] as int] is Some
        }),
{
    let r = admitted_ranking(cands, banks);
    let order = entry_order(r.candidates, r.gl_counts, r.bank_counts);
    let n = order.len() as int;
    let start = nobody(cands.len(), banks);
    let first = settled(r, order, n, start);
    lemma_admitted_ranking(cands, banks);
    lemma_entry_order_members(r.candidates, r.gl_counts, r.bank_counts);
    lemma_settled(r, order, n, start);
    lemma_settled_skips(r, order, i, first);
    let next = settled(r, order, i + 1, first);
    assert(next == settle(r, order[i], first));
    if first.assignments[order[i] as int] is None {
        lemma_search_extends(r, order[i], 0, first, no_marks(banks));
    }
    assert(next.assignments[order[i] as int] is Some);
    lemma_settled(r, order, i + 1, first);
    lemma_settled_keeps(r, order, i + 1, n, first, order[i] as int);
}

/// Turns of entries that are matched change nothing.
proof fn lemma_settled_skips(r: Ranking, order: Seq<usize>, i: int, p: Pairing)
    requires
        0 <= i <= order.len(),
        forall|j: int| 0 <= j < i ==> p.assignments[#[trigger] order[j] as int] is Some,
    ensures
        settled(r, order, i, p) == p,
    decreases i,
{
    if i > 0 {
        lemma_settled_skips(r, order, i - 1, p);
        assert(p.assignments[order[i - 1] as int] is Some);
    }
}

/// Who is matched stays matched.
proof fn lemma_settled_keeps(r: Ranking, order: Seq<usize>, i: int, n: int, p: Pairing, g: int)
    requires
        fitting(r, p),
        0 <= i <= n <= order.len(),
        forall|j: int| 0 <= j < order.len() ==> #[trigger] order[j] < r.candidates.len(),
        0 <= g < p.assignments.len(),
        settled(r, order, i, p).assignments[g] is Some,
    ensures
        settled(r, order, n, p).assignments[g] is Some,
    decreases n - i,
{
    if i < n {
        lemma_settled(r, order, i, p);
        let now = settled(r, order, i, p);
        let h = order[i];
        if !(now.assignments[h as int] is Some || r.candidates[h as int].len() == 0) {
            lemma_search_extends(r, h, 0, now, no_marks(now.owners.len()));
        }
        assert(settled(r, order, i + 1, p) == settle(r, h, now));
        lemma_settled_keeps(r, order, i + 1, n, p, g);
    }
}

/// The turn of an entry: if it is matched already, or has no candidates, nothing happens; otherwise
/// it searches, with nothing looked at yet, and what the search finds is what holds from then on.
pub proof fn lemma_turn(r: Ranking, g: usize, p: Pairing)
    ensures
        ({
            let fresh = Seq::new(p.owners.len(), |x: int| false);
            let found = search(r, g, 0, p, fresh).0;
            let idle = p.assignments[g as int] is Some || r.candidates[g as int].len() == 0;
            &&& idle || found is None ==> settle(r, g, p) == p
            &&& !idle && found is Some ==> settle(r, g, p) == found->0
        }),
{
    assert(no_marks(p.owners.len()) =~= Seq::new(p.owners.len(), |x: int| false));
}

/// Who is matched in the end: everybody has two turns, one after the other and in the same order,
/// and the first starts with nobody matched. After the first, those are matched whose search was
/// successful at their turn; after the second, also those whose second search was.
pub proof fn lemma_two_turns_decide(cands: Seq<Seq<Candidate>>, banks: nat, i: int)
    requires
        banks_in_range(cands, banks as int),
        0 <= i < cands.len() <= usize::MAX,
    ensures
        ({
            let r = admitted_ranking(cands, banks);
            let order = entry_order(r.candidates, r.gl_counts, r.bank_counts);
            let n = cands.len() as int;
            let start = Pairing {
                assignments: Seq::new(cands.len(), |g: int| None),
                owners: Seq::new(banks, |x: int| None),
            };
            let fresh = Seq::new(banks, |x: int| false);
            let first = settled(r, order, n, start);
            let g = order[i] as int;
            let matched_first = search(r, order[i], 0, settled(r, order, i, start), fresh).0
                is Some;
            let matched_then = search(r, order[i], 0, settled(r, order, i, first), fresh).0 is Some;
            &&& first.assignments[g] is Some <==> matched_first
            &&& greedy(cands, banks).assignments[g] is Some <==> matched_first || matched_then
        }),
{
    let r = admitted_ranking(cands, banks);
    let order = entry_order(r.candidates, r.gl_counts, r.bank_counts);
    let n = cands.len() as int;
    let start = nobody(cands.len(), banks);
    let fresh = Seq::new(banks, |x: int| false);
    assert(start.assignments =~= Seq::new(cands.len(), |g: int| None));
    assert(start.owners =~= Seq::new(banks, |x: int| None));
    assert(no_marks(banks) =~= fresh);
    let first = settled(r, order, n, start);
    let g = order[i] as int;
    lemma_admitted_ranking(cands, banks);
    lemma_entry_order_members(r.candidates, r.gl_counts, r.bank_counts);
    lemma_order_has_no_repetitions(r.candidates, r.gl_counts, r.bank_counts);
    lemma_settled(r, order, n, start);
    lemma_settled(r, order, i, start);
    lemma_settled(r, order, i, first);
    lemma_own_turn_decides(r, order, i, n, start);
    lemma_own_turn_decides(r, order, i, n, first);
    lemma_not_yet(r, order, i, i, start, g);
    lemma_not_yet(r, order, i, i, first, g);
    lemma_empty_search(r, order[i], settled(r, order, i, start), fresh);
    lemma_empty_search(r, order[i], settled(r, order, i, first), fresh);
    if first.assignments[g] is Some {
        assert(settled(r, order, i, first).assignments[g] is Some);
    }
}

proof fn lemma_empty_search(r: Ranking, g: usize, p: Pairing, seen: Seq<bool>)
    ensures
        r.candidates[g as int].len() == 0 ==> search(r, g, 0, p, seen).0 is None,
{
}

proof fn lemma_order_has_no_repetitions(
    cands: Seq<Seq<Candidate>>,
    gl_counts: Seq<usize>,
    bank_counts: Seq<usize>,
)
    requires
        cands.len() <= usize::MAX,
    ensures
        entry_order(cands, gl_counts, bank_counts).no_duplicates(),
{
    let key = entry_order_key(cands, gl_counts, bank_counts);
    let leq = not_after(key);
    let all = Seq::new(cands.len(), |g: int| g as usize);
    lemma_entry_order(cands, gl_counts, bank_counts);
    all.lemma_sort_by_ensures(leq);
    assert(all.no_duplicates());
    all.lemma_multiset_has_no_duplicates();
    entry_order(cands, gl_counts, bank_counts).lemma_multiset_has_no_duplicates_conv();
}

/// Turns of others leave an entry as it is, matched or not.
proof fn lemma_not_yet(r: Ranking, order: Seq<usize>, i: int, m: int, p: Pairing, g: int)
    requires
        fitting(r, p),
        0 <= m <= i < order.len(),
        forall|j: int| 0 <= j < order.len() ==> #[trigger] order[j] < r.candidates.len(),
        order.no_duplicates(),
        g == order[i],
    ensures
        settled(r, order, m, p).assignments[g] is Some <==> p.assignments[g] is Some,
    decreases m,
{
    if m > 0 {
        lemma_not_yet(r, order, i, m - 1, p, g);
        lemma_settled(r, order, m - 1, p);
        let now = settled(r, order, m - 1, p);
        let h = order[m - 1];
        assert(h != g);
        if !(now.assignments[h as int] is Some || r.candidates[h as int].len() == 0) {
            lemma_search_extends(r, h, 0, now, no_marks(now.owners.len()));
        }
    }
}

/// The turn of an entry decides whether it is matched at the end of the round.
proof fn lemma_own_turn_decides(r: Ranking, order: Seq<usize>, i: int, n: int, p: Pairing)
    requires
        fitting(r, p),
        0 <= i < n <= order.len(),
        forall|j: int| 0 <= j < order.len() ==> #[trigger] order[j] < r.candidates.len(),
        order.no_duplicates(),
    ensures
        ({
            let now = settled(r, order, i, p);
            let g = order[i] as int;
            settled(r, order, n, p).assignments[g] is Some <==> now.assignments[g] is Some || (
            r.candidates[g].len() > 0 && search(
                r,
                order[i],
                0,
                now,
                no_marks(p.owners.len()),
            ).0 is Some)
        }),
    decreases n,
{
    let now = settled(r, order, i, p);
    let g = order[i] as int;
    lemma_settled(r, order, i, p);
    lemma_settled(r, order, n - 1, p);
    assert(now.owners.len() == p.owners.len());
    if n == i + 1 {
        if now.assignments[g] is None && r.candidates[g].len() > 0 {
            lemma_search_extends(r, order[i], 0, now, no_marks(now.owners.len()));
        }
    } else {
        lemma_own_turn_decides(r, order, i, n - 1, p);
        let last = settled(r, order, n - 1, p);
        let h = order[n - 1];
        assert(h != order[i]);
        if !(last.assignments[h as int] is Some || r.candidates[h as int].len() == 0) {
            lemma_search_extends(r, h, 0, last, no_marks(last.owners.len()));
        }
    }
}

} // verus!
