//! Which candidate an entry prefers, which entry goes first, and which entry a bank transaction
//! prefers.
use core::cmp::Ordering;

use vstd::prelude::*;

use crate::candidate::{lists, Assignment, Candidate};
use crate::order::{
    before, before_from, lemma_key_total_ordering, not_after, order_of, orders_by,
    sort_unstable_by,
};

verus! {

/// What an entry goes by when it ranks its candidates: the higher score, then the smaller gap,
/// then the bank transaction that fewer entries want, then the smaller index.
pub open spec fn candidate_key(c: Candidate, bank_counts: Seq<usize>) -> Seq<int> {
    seq![
        -(c.score_ppm as int),
        c.minute_gap as int,
        bank_counts[c.bank_idx as int] as int,
        c.bank_idx as int,
    ]
}

/// The score of the first candidate, zero where there is none.
pub open spec fn top_score(list: Seq<Candidate>) -> int {
    if list.len() > 0 {
        list[0].score_ppm as int
    } else {
        0
    }
}

/// The gap of the first candidate, the largest number where there is none.
pub open spec fn top_gap(list: Seq<Candidate>) -> int {
    if list.len() > 0 {
        list[0].minute_gap as int
    } else {
        i64::MAX as int
    }
}

/// How far the score of the first candidate is above that of the second, where there is one.
pub open spec fn margin(list: Seq<Candidate>) -> int {
    if list.len() < 2 {
        top_score(list)
    } else {
        list[0].score_ppm - list[1].score_ppm
    }
}

/// How many entries want the first candidate, the largest number where there is none.
pub open spec fn pressure(list: Seq<Candidate>, bank_counts: Seq<usize>) -> int {
    if list.len() > 0 {
        bank_counts[list[0].bank_idx as int] as int
    } else {
        usize::MAX as int
    }
}

/// What decides which entry goes first: fewer candidates, then the higher best score, then the
/// larger margin, then the smaller gap, then the bank transaction that fewer entries want, then
/// the smaller index.
pub open spec fn entry_key(
    g: usize,
    list: Seq<Candidate>,
    gl_counts: Seq<usize>,
    bank_counts: Seq<usize>,
) -> Seq<int> {
    seq![
        gl_counts[g as int] as int,
        -top_score(list),
        -margin(list),
        top_gap(list),
        pressure(list, bank_counts),
        g as int,
    ]
}

/// What a bank transaction goes by when two entries want it: the higher score, then the smaller
/// gap, then the entry with fewer candidates, then the transaction that fewer entries want, then
/// the smaller index.
pub open spec fn edge_key(
    g: usize,
    a: Assignment,
    gl_counts: Seq<usize>,
    bank_counts: Seq<usize>,
) -> Seq<int> {
    seq![
        -(a.score_ppm as int),
        a.minute_gap as int,
        gl_counts[g as int] as int,
        bank_counts[a.bank_idx as int] as int,
        g as int,
    ]
}

/// The candidates of an entry, the preferred one first.
pub open spec fn ranked(list: Seq<Candidate>, bank_counts: Seq<usize>) -> Seq<Candidate> {
    list.sort_by(not_after(|c: Candidate| candidate_key(c, bank_counts)))
}

/// What decides which of the entries goes first.
pub open spec fn entry_order_key(
    lists: Seq<Seq<Candidate>>,
    gl_counts: Seq<usize>,
    bank_counts: Seq<usize>,
) -> spec_fn(usize) -> Seq<int> {
    |g: usize| entry_key(g, lists[g as int], gl_counts, bank_counts)
}

/// The entries in the order in which they go.
pub open spec fn entry_order(
    lists: Seq<Seq<Candidate>>,
    gl_counts: Seq<usize>,
    bank_counts: Seq<usize>,
) -> Seq<usize> {
    Seq::new(lists.len(), |g: int| g as usize).sort_by(
        not_after(entry_order_key(lists, gl_counts, bank_counts)),
    )
}

/// Which of two candidates an entry prefers.
pub fn compare_gl_candidates(
    left: Candidate,
    right: Candidate,
    bank_candidate_counts: &[usize],
) -> (order: Ordering)
    requires
        left.bank_idx < bank_candidate_counts@.len(),
        right.bank_idx < bank_candidate_counts@.len(),
    ensures
        order == order_of(
            candidate_key(left, bank_candidate_counts@),
            candidate_key(right, bank_candidate_counts@),
        ),
{
    reveal_with_fuel(before_from, 5);
    if left.score_ppm != right.score_ppm {
        if left.score_ppm > right.score_ppm {
            Ordering::Less
        } else {
            Ordering::Greater
        }
    } else if left.minute_gap != right.minute_gap {
        if left.minute_gap < right.minute_gap {
            Ordering::Less
        } else {
            Ordering::Greater
        }
    } else if bank_candidate_counts[left.bank_idx] != bank_candidate_counts[right.bank_idx] {
        if bank_candidate_counts[left.bank_idx] < bank_candidate_counts[right.bank_idx] {
            Ordering::Less
        } else {
            Ordering::Greater
        }
    } else if left.bank_idx < right.bank_idx {
        Ordering::Less
    } else if left.bank_idx > right.bank_idx {
        Ordering::Greater
    } else {
        Ordering::Equal
    }
}

/// The score of the best candidate, zero where there is none.
pub fn best_score(candidate: Option<Candidate>) -> (score: u32)
    ensures
        score == (match candidate {
            Some(c) => c.score_ppm,
            None => 0,
        }),
{
    match candidate {
        Some(candidate) => candidate.score_ppm,
        None => 0,
    }
}

/// The gap of the best candidate, the largest number where there is none.
pub fn best_gap(candidate: Option<Candidate>) -> (gap: i64)
    ensures
        gap == (match candidate {
            Some(c) => c.minute_gap,
            None => i64::MAX,
        }),
{
    match candidate {
        Some(candidate) => candidate.minute_gap,
        None => i64::MAX,
    }
}

/// How far the score of the first candidate is above that of the second.
pub fn score_margin(candidates: &[Candidate]) -> (difference: i64)
    ensures
        difference == margin(candidates@),
{
    if candidates.len() == 0 {
        0
    } else if candidates.len() == 1 {
        candidates[0].score_ppm as i64
    } else {
        candidates[0].score_ppm as i64 - candidates[1].score_ppm as i64
    }
}

/// The first of the candidates.
fn first_candidate(candidates: &Vec<Candidate>) -> (first: Option<Candidate>)
    ensures
        first == (if candidates@.len() > 0 {
            Some(candidates@[0])
        } else {
            None
        }),
{
    if candidates.len() > 0 {
        Some(candidates[0])
    } else {
        None
    }
}

/// Which of two entries goes first.
pub fn compare_gl_order(
    left_idx: usize,
    right_idx: usize,
    gl_candidates: &[Vec<Candidate>],
    gl_candidate_counts: &[usize],
    bank_candidate_counts: &[usize],
) -> (order: Ordering)
    requires
        left_idx < gl_candidates@.len(),
        right_idx < gl_candidates@.len(),
        left_idx < gl_candidate_counts@.len(),
        right_idx < gl_candidate_counts@.len(),
        top_in_range(gl_candidates@, left_idx, bank_candidate_counts@),
        top_in_range(gl_candidates@, right_idx, bank_candidate_counts@),
    ensures
        order == order_of(
            entry_key(
                left_idx,
                entry_list(gl_candidates@, left_idx),
                gl_candidate_counts@,
                bank_candidate_counts@,
            ),
            entry_key(
                right_idx,
                entry_list(gl_candidates@, right_idx),
                gl_candidate_counts@,
                bank_candidate_counts@,
            ),
        ),
{
    reveal_with_fuel(before_from, 7);
    let left_candidates = &gl_candidates[left_idx];
    let right_candidates = &gl_candidates[right_idx];
    let left_best = first_candidate(left_candidates);
    let right_best = first_candidate(right_candidates);
    let left_score = best_score(left_best);
    let right_score = best_score(right_best);
    let left_margin = score_margin(left_candidates);
    let right_margin = score_margin(right_candidates);
    let left_gap = best_gap(left_best);
    let right_gap = best_gap(right_best);
    let left_bank_pressure = match left_best {
        Some(candidate) => bank_candidate_counts[candidate.bank_idx],
        None => usize::MAX,
    };
    let right_bank_pressure = match right_best {
        Some(candidate) => bank_candidate_counts[candidate.bank_idx],
        None => usize::MAX,
    };

    if gl_candidate_counts[left_idx] != gl_candidate_counts[right_idx] {
        if gl_candidate_counts[left_idx] < gl_candidate_counts[right_idx] {
            Ordering::Less
        } else {
            Ordering::Greater
        }
    } else if left_score != right_score {
        if left_score > right_score {
            Ordering::Less
        } else {
            Ordering::Greater
        }
    } else if left_margin != right_margin {
        if left_margin > right_margin {
            Ordering::Less
        } else {
            Ordering::Greater
        }
    } else if left_gap != right_gap {
        if left_gap < right_gap {
            Ordering::Less
        } else {
            Ordering::Greater
        }
    } else if left_bank_pressure != right_bank_pressure {
        if left_bank_pressure < right_bank_pressure {
            Ordering::Less
        } else {
            Ordering::Greater
        }
    } else if left_idx < right_idx {
        Ordering::Less
    } else if left_idx > right_idx {
        Ordering::Greater
    } else {
        Ordering::Equal
    }
}

/// The candidates of entry `g`.
pub open spec fn entry_list(gl_candidates: Seq<Vec<Candidate>>, g: usize) -> Seq<Candidate> {
    gl_candidates[g as int]@
}

/// The first candidate of entry `g`, if any, is a bank transaction that has been counted.
pub open spec fn top_in_range(
    gl_candidates: Seq<Vec<Candidate>>,
    g: usize,
    bank_counts: Seq<usize>,
) -> bool {
    entry_list(gl_candidates, g).len() > 0 ==> entry_list(gl_candidates, g)[0].bank_idx
        < bank_counts.len()
}

/// Which of two entries a bank transaction prefers.
pub fn compare_bank_edges(
    left_gl_idx: usize,
    left: Candidate,
    right_gl_idx: usize,
    right: Assignment,
    gl_candidate_counts: &[usize],
    bank_candidate_counts: &[usize],
) -> (order: Ordering)
    requires
        left_gl_idx < gl_candidate_counts@.len(),
        right_gl_idx < gl_candidate_counts@.len(),
        left.bank_idx < bank_candidate_counts@.len(),
        right.bank_idx < bank_candidate_counts@.len(),
    ensures
        order == order_of(
            edge_key(left_gl_idx, left.taken(), gl_candidate_counts@, bank_candidate_counts@),
            edge_key(right_gl_idx, right, gl_candidate_counts@, bank_candidate_counts@),
        ),
{
    reveal_with_fuel(before_from, 6);
    if left.score_ppm != right.score_ppm {
        if left.score_ppm > right.score_ppm {
            Ordering::Less
        } else {
            Ordering::Greater
        }
    } else if left.minute_gap != right.minute_gap {
        if left.minute_gap < right.minute_gap {
            Ordering::Less
        } else {
            Ordering::Greater
        }
    } else if gl_candidate_counts[left_gl_idx] != gl_candidate_counts[right_gl_idx] {
        if gl_candidate_counts[left_gl_idx] < gl_candidate_counts[right_gl_idx] {
            Ordering::Less
        } else {
            Ordering::Greater
        }
    } else if bank_candidate_counts[left.bank_idx] != bank_candidate_counts[right.bank_idx] {
        if bank_candidate_counts[left.bank_idx] < bank_candidate_counts[right.bank_idx] {
            Ordering::Less
        } else {
            Ordering::Greater
        }
    } else if left_gl_idx < right_gl_idx {
        Ordering::Less
    } else if left_gl_idx > right_gl_idx {
        Ordering::Greater
    } else {
        Ordering::Equal
    }
}

/// Whether the bank transaction would rather be matched with the challenger.
pub fn bank_prefers(
    challenger_gl_idx: usize,
    challenger: Candidate,
    incumbent_gl_idx: usize,
    incumbent: Assignment,
    gl_candidate_counts: &[usize],
    bank_candidate_counts: &[usize],
) -> (prefers: bool)
    requires
        challenger_gl_idx < gl_candidate_counts@.len(),
        incumbent_gl_idx < gl_candidate_counts@.len(),
        challenger.bank_idx < bank_candidate_counts@.len(),
        incumbent.bank_idx < bank_candidate_counts@.len(),
    ensures
        prefers == before(
            edge_key(
                challenger_gl_idx,
                challenger.taken(),
                gl_candidate_counts@,
                bank_candidate_counts@,
            ),
            edge_key(incumbent_gl_idx, incumbent, gl_candidate_counts@, bank_candidate_counts@),
        ),
{
    match compare_bank_edges(
        challenger_gl_idx,
        challenger,
        incumbent_gl_idx,
        incumbent,
        gl_candidate_counts,
        bank_candidate_counts,
    ) {
        Ordering::Less => true,
        _ => false,
    }
}

/// Puts the candidates of an entry in order of preference.
pub(crate) fn sort_candidates(candidates: &mut Vec<Candidate>, bank_candidate_counts: &[usize])
    requires
        forall|k: int|
            0 <= k < old(candidates)@.len() ==> #[trigger] old(candidates)@[k].bank_idx
                < bank_candidate_counts@.len(),
    ensures
        final(candidates)@ == ranked(old(candidates)@, bank_candidate_counts@),
{
    let ghost start = candidates@;
    let ghost key = |c: Candidate| candidate_key(c, bank_candidate_counts@);
    let compare = |left: &Candidate, right: &Candidate| -> (order: Ordering)
        requires
            left.bank_idx < bank_candidate_counts@.len(),
            right.bank_idx < bank_candidate_counts@.len(),
        ensures
            order == order_of(
                candidate_key(*left, bank_candidate_counts@),
                candidate_key(*right, bank_candidate_counts@),
            ),
        { compare_gl_candidates(*left, *right, bank_candidate_counts) };
    assert(orders_by(compare, key, start));
    sort_unstable_by(candidates, compare);
    proof {
        lemma_candidate_order(bank_candidate_counts@);
        start.lemma_sort_by_ensures(not_after(key));
        vstd::seq_lib::lemma_sorted_unique(
            candidates@,
            start.sort_by(not_after(key)),
            not_after(key),
        );
    }
}

/// The numbers below `n`.
fn numbers_below(n: usize) -> (numbers: Vec<usize>)
    ensures
        numbers@ == Seq::new(n as nat, |g: int| g as usize),
{
    let mut numbers: Vec<usize> = Vec::new();
    for g in 0..n
        invariant
            numbers@ == Seq::new(g as nat, |g: int| g as usize),
    {
        numbers.push(g);
    }
    numbers
}

/// Puts the entries in the order in which they go.
pub(crate) fn sort_entries(
    gl_candidates: &[Vec<Candidate>],
    gl_candidate_counts: &[usize],
    bank_candidate_counts: &[usize],
) -> (gl_order: Vec<usize>)
    requires
        gl_candidate_counts@.len() == gl_candidates@.len(),
        forall|g: usize|
            g < gl_candidates@.len() ==> #[trigger] top_in_range(
                gl_candidates@,
                g,
                bank_candidate_counts@,
            ),
    ensures
        gl_order@ == entry_order(
            lists(gl_candidates@),
            gl_candidate_counts@,
            bank_candidate_counts@,
        ),
{
    let mut gl_order = numbers_below(gl_candidates.len());
    let ghost start = gl_order@;
    let ghost key = entry_order_key(
        lists(gl_candidates@),
        gl_candidate_counts@,
        bank_candidate_counts@,
    );
    let compare = |left: &usize, right: &usize| -> (order: Ordering)
        requires
            *left < gl_candidates@.len(),
            *right < gl_candidates@.len(),
        ensures
            order == order_of(key(*left), key(*right)),
        {
            proof {
                assert(top_in_range(gl_candidates@, *left, bank_candidate_counts@));
                assert(top_in_range(gl_candidates@, *right, bank_candidate_counts@));
            }
            compare_gl_order(
                *left,
                *right,
                gl_candidates,
                gl_candidate_counts,
                bank_candidate_counts,
            )
        };
    assert(orders_by(compare, key, start));
    sort_unstable_by(&mut gl_order, compare);
    proof {
        lemma_entry_order(lists(gl_candidates@), gl_candidate_counts@, bank_candidate_counts@);
        start.lemma_sort_by_ensures(not_after(key));
        vstd::seq_lib::lemma_sorted_unique(
            gl_order@,
            start.sort_by(not_after(key)),
            not_after(key),
        );
    }
    gl_order
}

/// No two candidates rank the same.
pub proof fn lemma_candidate_order(bank_counts: Seq<usize>)
    ensures
        vstd::relations::total_ordering(not_after(|c: Candidate| candidate_key(c, bank_counts))),
{
    let key = |c: Candidate| candidate_key(c, bank_counts);
    assert forall|x: Candidate, y: Candidate| #[trigger] key(x) == #[trigger] key(y) implies x
        == y by {
        assert(key(x)[0] == key(y)[0] && key(x)[1] == key(y)[1] && key(x)[3] == key(y)[3]);
    }
    lemma_key_total_ordering(key, 4);
}

/// No two entries rank the same.
pub proof fn lemma_entry_order(
    lists: Seq<Seq<Candidate>>,
    gl_counts: Seq<usize>,
    bank_counts: Seq<usize>,
)
    ensures
        vstd::relations::total_ordering(not_after(entry_order_key(lists, gl_counts, bank_counts))),
{
    let key = entry_order_key(lists, gl_counts, bank_counts);
    assert forall|x: usize, y: usize| #[trigger] key(x) == #[trigger] key(y) implies x == y by {
        assert(key(x)[5] == key(y)[5]);
    }
    lemma_key_total_ordering(key, 6);
}

/// Ranking does not depend on the order of the candidates.
pub proof fn lemma_ranked_ignores_order(
    a: Seq<Candidate>,
    b: Seq<Candidate>,
    bank_counts: Seq<usize>,
)
    requires
        a.to_multiset() == b.to_multiset(),
    ensures
        ranked(a, bank_counts) == ranked(b, bank_counts),
{
    let leq = not_after(|c: Candidate| candidate_key(c, bank_counts));
    lemma_candidate_order(bank_counts);
    a.lemma_sort_by_ensures(leq);
    b.lemma_sort_by_ensures(leq);
    vstd::seq_lib::lemma_sorted_unique(a.sort_by(leq), b.sort_by(leq), leq);
}

/// An entry ranks all its candidates, and none that it does not have, by score, then by gap, then
/// by how many want the transaction, then by its place: whichever stands first is the better one
/// by the first of these in which the two differ.
pub proof fn lemma_better_candidates_first(
    list: Seq<Candidate>,
    bank_counts: Seq<usize>,
    i: int,
    j: int,
)
    requires
        0 <= i < j < list.len(),
    ensures
        ranked(list, bank_counts).to_multiset() == list.to_multiset(),
        ranked(list, bank_counts).len() == list.len(),
        ({
            let a = ranked(list, bank_counts)[i];
            let b = ranked(list, bank_counts)[j];
            let wanted_a = bank_counts[a.bank_idx as int];
            let wanted_b = bank_counts[b.bank_idx as int];
            &&& a.score_ppm >= b.score_ppm
            &&& a.score_ppm == b.score_ppm ==> a.minute_gap <= b.minute_gap
            &&& a.score_ppm == b.score_ppm && a.minute_gap == b.minute_gap ==> wanted_a <= wanted_b
            &&& a.score_ppm == b.score_ppm && a.minute_gap == b.minute_gap && wanted_a == wanted_b
                ==> a.bank_idx <= b.bank_idx
        }),
{
    let key = |c: Candidate| candidate_key(c, bank_counts);
    let leq = not_after(key);
    let sorted = ranked(list, bank_counts);
    lemma_candidate_order(bank_counts);
    list.lemma_sort_by_ensures(leq);
    vstd::seq_lib::to_multiset_len(list);
    vstd::seq_lib::to_multiset_len(sorted);
    assert(leq(sorted[i], sorted[j]));
    reveal_with_fuel(before_from, 5);
    let a = key(sorted[i]);
    let b = key(sorted[j]);
    assert(!before(b, a));
    assert(a[0] == -(sorted[i].score_ppm as int) && b[0] == -(sorted[j].score_ppm as int));
    assert(a[1] == sorted[i].minute_gap && b[1] == sorted[j].minute_gap);
    assert(a[2] == bank_counts[sorted[i].bank_idx as int]);
    assert(b[2] == bank_counts[sorted[j].bank_idx as int]);
    assert(a[3] == sorted[i].bank_idx && b[3] == sorted[j].bank_idx);
}

/// All entries have their turn, each once, and by this order: the one with fewer candidates first,
/// then the one whose best candidate has the higher score, then the one whose best candidate is
/// further above its second, then the nearer, then the one whose transaction fewer want, then the
/// earlier. An entry without candidates counts as one with a score of zero and as far away as can
/// be.
pub proof fn lemma_pressed_entries_first(
    lists: Seq<Seq<Candidate>>,
    gl_counts: Seq<usize>,
    bank_counts: Seq<usize>,
    i: int,
    j: int,
)
    requires
        lists.len() <= usize::MAX,
        0 <= i < j < lists.len(),
    ensures
        entry_order(lists, gl_counts, bank_counts).to_multiset() == Seq::new(
            lists.len(),
            |g: int| g as usize,
        ).to_multiset(),
        ({
            let g = entry_order(lists, gl_counts, bank_counts)[i];
            let h = entry_order(lists, gl_counts, bank_counts)[j];
            let a = lists[g as int];
            let b = lists[h as int];
            let count_a = gl_counts[g as int] as int;
            let count_b = gl_counts[h as int] as int;
            let score_a = if a.len() > 0 { a[0].score_ppm as int } else { 0 };
            let score_b = if b.len() > 0 { b[0].score_ppm as int } else { 0 };
            let lead_a = if a.len() > 1 { score_a - a[1].score_ppm } else { score_a };
            let lead_b = if b.len() > 1 { score_b - b[1].score_ppm } else { score_b };
            let gap_a = if a.len() > 0 { a[0].minute_gap } else { i64::MAX };
            let gap_b = if b.len() > 0 { b[0].minute_gap } else { i64::MAX };
            let wanted_a = if a.len() > 0 { bank_counts[a[0].bank_idx as int] } else { usize::MAX };
            let wanted_b = if b.len() > 0 { bank_counts[b[0].bank_idx as int] } else { usize::MAX };
            &&& count_a <= count_b
            &&& count_a == count_b ==> score_a >= score_b
            &&& count_a == count_b && score_a == score_b ==> lead_a >= lead_b
            &&& count_a == count_b && score_a == score_b && lead_a == lead_b ==> gap_a <= gap_b
            &&& count_a == count_b && score_a == score_b && lead_a == lead_b && gap_a == gap_b
                ==> wanted_a <= wanted_b
            &&& count_a == count_b && score_a == score_b && lead_a == lead_b && gap_a == gap_b
                && wanted_a == wanted_b ==> g <= h
        }),
{
    let key = entry_order_key(lists, gl_counts, bank_counts);
    let leq = not_after(key);
    let all = Seq::new(lists.len(), |g: int| g as usize);
    let sorted = entry_order(lists, gl_counts, bank_counts);
    lemma_entry_order(lists, gl_counts, bank_counts);
    all.lemma_sort_by_ensures(leq);
    vstd::seq_lib::to_multiset_len(all);
    vstd::seq_lib::to_multiset_len(sorted);
    let g = sorted[i];
    let h = sorted[j];
    assert(leq(g, h));
    reveal_with_fuel(before_from, 7);
    let a = key(g);
    let b = key(h);
    assert(!before(b, a));
    let x = lists[g as int];
    let y = lists[h as int];
    assert(a[0] == gl_counts[g as int] && b[0] == gl_counts[h as int]);
    assert(a[1] == -top_score(x) && b[1] == -top_score(y));
    assert(a[2] == -margin(x) && b[2] == -margin(y));
    assert(a[3] == top_gap(x) && b[3] == top_gap(y));
    assert(a[4] == pressure(x, bank_counts) && b[4] == pressure(y, bank_counts));
    assert(a[5] == g && b[5] == h);
}

/// Of two entries a transaction prefers the one with the higher score, then the nearer, then the
/// one with fewer candidates, then the earlier. (How many want the transaction is asked before
/// that, but is the same for both where they want the same one.)
pub proof fn lemma_bank_preference(
    g: usize,
    a: Assignment,
    h: usize,
    b: Assignment,
    gl_counts: Seq<usize>,
    bank_counts: Seq<usize>,
)
    ensures
        ({
            let first = before(
                edge_key(g, a, gl_counts, bank_counts),
                edge_key(h, b, gl_counts, bank_counts),
            );
            let count_a = gl_counts[g as int];
            let count_b = gl_counts[h as int];
            let wanted_a = bank_counts[a.bank_idx as int];
            let wanted_b = bank_counts[b.bank_idx as int];
            let level = a.score_ppm == b.score_ppm && a.minute_gap == b.minute_gap;
            &&& a.score_ppm > b.score_ppm ==> first
            &&& a.score_ppm < b.score_ppm ==> !first
            &&& a.score_ppm == b.score_ppm && a.minute_gap < b.minute_gap ==> first
            &&& a.score_ppm == b.score_ppm && a.minute_gap > b.minute_gap ==> !first
            &&& level && count_a < count_b ==> first
            &&& level && count_a > count_b ==> !first
            &&& level && count_a == count_b && wanted_a < wanted_b ==> first
            &&& level && count_a == count_b && wanted_a > wanted_b ==> !first
            &&& level && count_a == count_b && wanted_a == wanted_b ==> (first <==> g < h)
        }),
{
    reveal_with_fuel(before_from, 6);
}

} // verus!
