//! What is written about the matches.
use vstd::prelude::*;

use crate::candidate::{banks_in_range, lists, Assignment, Candidate};
use crate::matching::{matched_count, valid_matching};
use crate::records::{BankTransaction, JournalEntry};
use crate::sums::{lemma_sum_eq, sum};

verus! {

/// A journal entry and the bank transaction that it is matched with.
#[derive(Debug)]
pub struct MatchRecord<'a> {
    pub journal_entry_id: &'a str,
    pub gl_datetime: &'a str,
    pub gl_amount_cents: i64,
    pub gl_description: &'a str,
    pub num_lines: usize,
    pub bank_index: usize,
    pub bank_datetime: &'a str,
    pub bank_amount_cents: i64,
    pub bank_description: &'a str,
    pub score_ppm: u32,
}

impl<'a> MatchRecord<'a> {
    /// The record says that `entry` is matched with `bank` as `assignment` says.
    pub open spec fn tells(
        self,
        entry: JournalEntry,
        bank: BankTransaction,
        assignment: Assignment,
    ) -> bool {
        &&& self.journal_entry_id@ == entry.journal_entry_id@
        &&& self.gl_datetime@ == entry.datetime_raw@
        &&& self.gl_amount_cents == entry.amount_cents
        &&& self.gl_description@ == entry.description_raw@
        &&& self.num_lines == entry.num_lines
        &&& self.bank_index == bank.index
        &&& self.bank_datetime@ == bank.datetime_raw@
        &&& self.bank_amount_cents == bank.amount_cents
        &&& self.bank_description@ == bank.description_raw@
        &&& self.score_ppm == assignment.score_ppm
    }
}

/// The entries that are matched, in order.
pub open spec fn matched_entries(a: Seq<Option<Assignment>>) -> Seq<int>
    decreases a.len(),
{
    if a.len() == 0 {
        Seq::empty()
    } else if a.last() is Some {
        matched_entries(a.drop_last()).push(a.len() - 1)
    } else {
        matched_entries(a.drop_last())
    }
}

/// Every matched entry is one of `entries`, and so is its bank transaction one of `banks`.
pub open spec fn places_exist(a: Seq<Option<Assignment>>, entries: int, banks: int) -> bool {
    forall|g: int|
        0 <= g < a.len() && #[trigger] a[g] is Some ==> g < entries && a[g]->0.bank_idx < banks
}

/// A record for each matched entry, in the order of the entries.
pub fn build_match_records<'a>(
    assignments: &[Option<Assignment>],
    bank_transactions: &'a [BankTransaction],
    journal_entries: &'a [JournalEntry],
) -> (matches: Vec<MatchRecord<'a>>)
    requires
        places_exist(
            assignments@,
            journal_entries@.len() as int,
            bank_transactions@.len() as int,
        ),
    ensures
        matches@.len() == matched_entries(assignments@).len(),
        forall|k: int|
            0 <= k < matches@.len() ==> {
                let g = matched_entries(assignments@)[k];
                (#[trigger] matches@[k]).tells(
                    journal_entries@[g],
                    bank_transactions@[assignments@[g]->0.bank_idx as int],
                    assignments@[g]->0,
                )
            },
{
    let mut matches: Vec<MatchRecord<'a>> = Vec::new();
    for gl_idx in 0..assignments.len()
        invariant
            places_exist(
                assignments@,
                journal_entries@.len() as int,
                bank_transactions@.len() as int,
            ),
            matches@.len() == matched_entries(assignments@.take(gl_idx as int)).len(),
            forall|k: int|
                0 <= k < matches@.len() ==> {
                    let g = matched_entries(assignments@.take(gl_idx as int))[k];
                    (#[trigger] matches@[k]).tells(
                        journal_entries@[g],
                        bank_transactions@[assignments@[g]->0.bank_idx as int],
                        assignments@[g]->0,
                    )
                },
    {
        proof {
            let more = assignments@.take(gl_idx + 1);
            assert(more.drop_last() =~= assignments@.take(gl_idx as int));
            assert(more.last() == assignments@[gl_idx as int]);
        }
        if let Some(assignment) = &assignments[gl_idx] {
            assert(assignments@[gl_idx as int] is Some);
            let gl = &journal_entries[gl_idx];
            let bank = &bank_transactions[assignment.bank_idx];
            matches.push(
                MatchRecord {
                    journal_entry_id: gl.journal_entry_id.as_str(),
                    gl_datetime: gl.datetime_raw.as_str(),
                    gl_amount_cents: gl.amount_cents,
                    gl_description: gl.description_raw.as_str(),
                    num_lines: gl.num_lines,
                    bank_index: bank.index,
                    bank_datetime: bank.datetime_raw.as_str(),
                    bank_amount_cents: bank.amount_cents,
                    bank_description: bank.description_raw.as_str(),
                    score_ppm: assignment.score_ppm,
                },
            );
        }
    }
    assert(assignments@.take(assignments@.len() as int) =~= assignments@);
    matches
}

/// There is a record for each matched entry and for no other, and none twice.
pub proof fn lemma_one_record_per_match(a: Seq<Option<Assignment>>)
    ensures
        matched_entries(a).len() == matched_count(a),
        forall|k: int|
            0 <= k < matched_entries(a).len() ==> 0 <= #[trigger] matched_entries(a)[k] < a.len()
                && a[matched_entries(a)[k]] is Some,
        forall|k: int, m: int|
            0 <= k < m < matched_entries(a).len() ==> #[trigger] matched_entries(a)[k]
                < #[trigger] matched_entries(a)[m],
        forall|g: int|
            0 <= g < a.len() && #[trigger] a[g] is Some ==> matched_entries(a).contains(g),
    decreases a.len(),
{
    if a.len() > 0 {
        let init = a.drop_last();
        lemma_one_record_per_match(init);
        let n = init.len() as int;
        let all = |g: int|
            if a[g] is Some {
                1int
            } else {
                0int
            };
        let less = |g: int|
            if init[g] is Some {
                1int
            } else {
                0int
            };
        lemma_sum_eq(n, all, less);
        assert(sum(a.len() as int, all) == sum(n, all) + all(n));
        let out = matched_entries(a);
        let before = matched_entries(init);
        assert forall|k: int| 0 <= k < out.len() implies 0 <= #[trigger] out[k] < a.len()
            && a[out[k]] is Some by {
            if k < before.len() {
                assert(out[k] == before[k]);
                assert(init[before[k]] is Some);
            }
        }
        assert forall|k: int, m: int| 0 <= k < m < out.len() implies #[trigger] out[k]
            < #[trigger] out[m] by {
            assert(out[k] == before[k]);
            if m < before.len() {
                assert(out[m] == before[m]);
            }
        }
        assert forall|g: int| 0 <= g < a.len() && #[trigger] a[g] is Some implies out.contains(
            g,
        ) by {
            if g < n {
                assert(init[g] is Some);
                let k = choose|k: int| 0 <= k < before.len() && before[k] == g;
                assert(out[k] == g);
            } else {
                assert(out[before.len() as int] == g);
            }
        }
    }
}

/// Every matching can be recorded.
pub proof fn lemma_matchings_can_be_recorded(
    cands: Seq<Seq<Candidate>>,
    banks: int,
    a: Seq<Option<Assignment>>,
)
    requires
        banks_in_range(cands, banks),
        valid_matching(cands, a),
    ensures
        places_exist(a, cands.len() as int, banks),
{
    assert forall|g: int| 0 <= g < a.len() && #[trigger] a[g] is Some implies g < cands.len()
        && a[g]->0.bank_idx < banks by {
        let k = choose|k: int|
            0 <= k < cands[g].len() && #[trigger] cands[g][k].taken() == a[g]->0;
        assert(cands[g][k].bank_idx < banks);
    }
}

/// How many of the first `n` entries have no candidates.
pub open spec fn candidate_free(cands: Seq<Seq<Candidate>>, n: int) -> int {
    sum(
        n,
        |g: int|
            if cands[g].len() == 0 {
                1
            } else {
                0
            },
    )
}

/// How many entries have no candidates.
pub fn count_candidate_free(gl_candidates: &[Vec<Candidate>]) -> (count: usize)
    ensures
        count == candidate_free(lists(gl_candidates@), gl_candidates@.len() as int),
{
    let mut count: usize = 0;
    for g in 0..gl_candidates.len()
        invariant
            count <= g,
            count == candidate_free(lists(gl_candidates@), g as int),
    {
        if gl_candidates[g].len() == 0 {
            count += 1;
        }
    }
    count
}

/// A record holds what its entry and its transaction say of themselves, each under its own name,
/// and the score of the match.
pub proof fn lemma_record_by_fields<'a>(
    record: MatchRecord<'a>,
    entry: JournalEntry,
    bank: BankTransaction,
    assignment: Assignment,
)
    requires
        record.tells(entry, bank, assignment),
    ensures
        record.journal_entry_id@ == entry.journal_entry_id@ && record.num_lines == entry.num_lines,
        record.gl_datetime@ == entry.datetime_raw@ && record.bank_datetime@ == bank.datetime_raw@,
        record.gl_amount_cents == entry.amount_cents && record.bank_amount_cents
            == bank.amount_cents,
        record.gl_description@ == entry.description_raw@ && record.bank_description@
            == bank.description_raw@,
        record.bank_index == bank.index,
        record.score_ppm == assignment.score_ppm,
{
}

/// The number of entries without candidates is that of the empty lists.
pub proof fn lemma_candidate_free(cands: Seq<Seq<Candidate>>)
    ensures
        candidate_free(cands, cands.len() as int) == cands.filter(
            |list: Seq<Candidate>| list.len() == 0,
        ).len(),
    decreases cands.len(),
{
    reveal(Seq::filter);
    if cands.len() > 0 {
        let init = cands.drop_last();
        lemma_candidate_free(init);
        let f = |g: int|
            if cands[g].len() == 0 {
                1int
            } else {
                0int
            };
        let h = |g: int|
            if init[g].len() == 0 {
                1int
            } else {
                0int
            };
        assert forall|g: int| 0 <= g < init.len() implies #[trigger] f(g) == h(g) by {}
        lemma_sum_eq(init.len() as int, f, h);
    }
}

} // verus!
