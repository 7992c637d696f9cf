//! Candidates for matching a journal entry with a bank transaction.
use vstd::prelude::*;

verus! {

/// The best score, in millionths.
pub const MAX_SCORE_PPM: i64 = 1_000_000;
/// What each millionth of a score that is missing costs.
pub const SCORE_COST_WEIGHT: i64 = 100_000;
/// What each minute of a gap costs.
pub const GAP_COST_WEIGHT: i64 = 1;

/// A bank transaction that a journal entry may be matched with.
#[derive(Clone, Copy, Debug, PartialEq, Eq, Structural)]
pub struct Candidate {
    pub bank_idx: usize,
    pub score_ppm: u32,
    pub minute_gap: i64,
}

/// The bank transaction that a journal entry is matched with.
#[derive(Clone, Copy, Debug, PartialEq, Eq, Structural)]
pub struct Assignment {
    pub bank_idx: usize,
    pub score_ppm: u32,
    pub minute_gap: i64,
}

impl Candidate {
    /// The assignment that takes this candidate.
    pub open spec fn taken(self) -> Assignment {
        Assignment {
            bank_idx: self.bank_idx,
            score_ppm: self.score_ppm,
            minute_gap: self.minute_gap,
        }
    }

    /// A better score costs less; among equal scores a smaller gap does, then a smaller index.
    pub open spec fn cost(self) -> int {
        self.taken().cost()
    }
}

impl Assignment {
    /// What the assignment costs.
    pub open spec fn cost(self) -> int {
        (MAX_SCORE_PPM - self.score_ppm) * SCORE_COST_WEIGHT + self.minute_gap * GAP_COST_WEIGHT
            + self.bank_idx
    }
}

/// The assignment that takes `candidate`.
pub fn assign(candidate: &Candidate) -> (assignment: Assignment)
    ensures
        assignment == candidate.taken(),
{
    Assignment {
        bank_idx: candidate.bank_idx,
        score_ppm: candidate.score_ppm,
        minute_gap: candidate.minute_gap,
    }
}

/// What choosing `candidate` costs.
pub fn candidate_cost(candidate: Candidate) -> (cost: i64)
    requires
        candidate.bank_idx <= i64::MAX,
        i64::MIN <= candidate.cost() - candidate.bank_idx <= i64::MAX,
        i64::MIN <= candidate.cost() <= i64::MAX,
    ensures
        cost == candidate.cost(),
{
    (MAX_SCORE_PPM - candidate.score_ppm as i64) * SCORE_COST_WEIGHT + candidate.minute_gap
        * GAP_COST_WEIGHT + candidate.bank_idx as i64
}

/// The candidates of each journal entry, as mathematical sequences.
pub open spec fn lists(gl_candidates: Seq<Vec<Candidate>>) -> Seq<Seq<Candidate>> {
    Seq::new(gl_candidates.len(), |g: int| gl_candidates[g]@)
}

/// Every candidate names one of `bank_count` bank transactions.
pub open spec fn banks_in_range(cands: Seq<Seq<Candidate>>, bank_count: int) -> bool {
    forall|g: int, k: int|
        #![trigger cands[g][k]]
        0 <= g < cands.len() && 0 <= k < cands[g].len() ==> cands[g][k].bank_idx < bank_count
}

/// How two candidates differ in cost: a millionth of the score counts for 100,000, a minute of the
/// gap and a place in the list of transactions for one each. A perfect score on the same minute
/// for the first transaction costs nothing.
pub proof fn lemma_costs_differ_by_fields(c: Candidate, d: Candidate)
    ensures
        d.cost() - c.cost() == (c.score_ppm - d.score_ppm) * 100_000 + (d.minute_gap - c.minute_gap)
            + (d.bank_idx - c.bank_idx),
        c.score_ppm == 1_000_000 && c.minute_gap == 0 && c.bank_idx == 0 ==> c.cost() == 0,
        c.taken().cost() == c.cost(),
        c.taken().bank_idx == c.bank_idx,
        c.taken().score_ppm == c.score_ppm,
        c.taken().minute_gap == c.minute_gap,
{
}

/// Of two candidates with the same score the nearer one is the cheaper one, by one for each
/// minute, where they are the same transaction; and on the same minute the earlier transaction is.
pub proof fn lemma_nearer_is_cheaper(c: Candidate, d: Candidate)
    requires
        c.score_ppm == d.score_ppm,
    ensures
        c.bank_idx == d.bank_idx ==> d.cost() - c.cost() == d.minute_gap - c.minute_gap,
        c.minute_gap == d.minute_gap ==> d.cost() - c.cost() == d.bank_idx - c.bank_idx,
        c.bank_idx == d.bank_idx ==> (c.cost() < d.cost() <==> c.minute_gap < d.minute_gap),
        c.minute_gap == d.minute_gap ==> (c.cost() < d.cost() <==> c.bank_idx < d.bank_idx),
{
}

/// A better score outweighs any gap within fifteen days, among up to 78,400 transactions.
pub proof fn lemma_better_score_is_cheaper(c: Candidate, d: Candidate)
    requires
        c.score_ppm > d.score_ppm,
        0 <= c.minute_gap <= 21_600,
        0 <= d.minute_gap,
        c.bank_idx < 78_400,
    ensures
        c.cost() < d.cost(),
{
}

/// The lists of candidates are taken as they are.
pub proof fn lemma_lists(gl_candidates: Seq<Vec<Candidate>>)
    ensures
        lists(gl_candidates).len() == gl_candidates.len(),
        forall|g: int|
            0 <= g < gl_candidates.len() ==> #[trigger] lists(gl_candidates)[g]
                == gl_candidates[g]@,
{
}

} // verus!
