use reconcile::candidate::{candidate_cost, Assignment, Candidate};
use reconcile::cli::Algorithm;
use reconcile::heuristic::match_heuristic;
use reconcile::ledger::load_journal_entries;
use reconcile::listing::{build_candidates, DATE_WINDOW_MINUTES};
use reconcile::load::load_bank_transactions;
use reconcile::matcher::match_entries;
use reconcile::maxflow::{match_maxflow, max_cardinality_flow};
use reconcile::records::HasTokens;
use reconcile::report::build_match_records;
use reconcile::token::TokenInterner;
use reconcile::weights::shared_tokens;

struct Numbers(u64);

impl Numbers {
    fn below(&mut self, limit: u64) -> u64 {
        self.0 = self
            .0
            .wrapping_mul(6_364_136_223_846_793_005)
            .wrapping_add(1_442_695_040_888_963_407);
        (self.0 >> 33) % limit
    }
}

fn some_lists(numbers: &mut Numbers, entries: usize, banks: usize) -> Vec<Vec<Candidate>> {
    (0..entries)
        .map(|_| {
            let mut list = Vec::new();
            for bank_idx in 0..banks {
                if numbers.below(2) == 0 {
                    list.push(Candidate {
                        bank_idx,
                        score_ppm: (numbers.below(5) * 250_000) as u32,
                        minute_gap: numbers.below(4) as i64 * 1_000,
                    });
                }
            }
            list
        })
        .collect()
}

/// The size and the least cost of the largest matchings, found by trying all.
fn best(lists: &[Vec<Candidate>], entry: usize, taken: &mut Vec<bool>) -> (usize, i64) {
    if entry == lists.len() {
        return (0, 0);
    }
    let (mut size, mut cost) = best(lists, entry + 1, taken);
    for candidate in &lists[entry] {
        if taken[candidate.bank_idx] {
            continue;
        }
        taken[candidate.bank_idx] = true;
        let (rest, rest_cost) = best(lists, entry + 1, taken);
        taken[candidate.bank_idx] = false;
        let this_cost = rest_cost + candidate_cost(*candidate);
        if rest + 1 > size || (rest + 1 == size && this_cost < cost) {
            size = rest + 1;
            cost = this_cost;
        }
    }
    (size, cost)
}

fn check_matching(lists: &[Vec<Candidate>], assignments: &[Option<Assignment>]) -> (usize, i64) {
    assert_eq!(lists.len(), assignments.len());
    let mut taken = Vec::new();
    let mut cost = 0;
    for (list, assignment) in lists.iter().zip(assignments) {
        if let Some(assignment) = assignment {
            let found = list.iter().find(|candidate| {
                candidate.bank_idx == assignment.bank_idx
                    && candidate.score_ppm == assignment.score_ppm
                    && candidate.minute_gap == assignment.minute_gap
            });
            cost += candidate_cost(*found.unwrap());
            assert!(!taken.contains(&assignment.bank_idx));
            taken.push(assignment.bank_idx);
        }
    }
    (taken.len(), cost)
}

#[test]
fn no_matching_is_larger_or_as_large_and_cheaper() {
    let mut numbers = Numbers(7);
    for round in 0..200 {
        let entries = round % 6;
        let banks = 1 + round % 5;
        let lists = some_lists(&mut numbers, entries, banks);
        let (size, cost) = best(&lists, 0, &mut vec![false; banks]);
        assert_eq!(max_cardinality_flow(&lists, banks), size);
        let assignments = match_maxflow(&lists, banks);
        assert_eq!(check_matching(&lists, &assignments), (size, cost));
    }
}

#[test]
fn greedy_matchings_use_no_transaction_twice() {
    let mut numbers = Numbers(11);
    for round in 0..200 {
        let entries = round % 7;
        let banks = 1 + round % 6;
        let lists = some_lists(&mut numbers, entries, banks);
        let assignments = match_heuristic(&lists, banks);
        check_matching(&lists, &assignments);
        // strong candidates are always admitted, so an unmatched entry finds them taken
        for (list, assignment) in lists.iter().zip(&assignments) {
            if assignment.is_none() {
                for candidate in list.iter().filter(|candidate| candidate.score_ppm >= 200_000) {
                    assert!(assignments
                        .iter()
                        .flatten()
                        .any(|other| other.bank_idx == candidate.bank_idx));
                }
            }
        }
    }
}

#[test]
fn matches_of_whole_files_follow_the_rules() {
    let bank = b"datetime,amount,description\n\
        3/14/23 0:00,-120.50,ACH DEBIT Acme Supplies\n\
        3/15/23 0:00,900,INTUIT 40442204 DEPOSIT\n\
        3/16/23 0:00,900.01,Mobile deposit\n\
        5/1/23 0:00,120.50,Acme Supplies\n";
    let ledger = b"datetime,amount,description,journal_entry_id\n\
        3/13/23 0:00,100.00,Acme,1\n\
        3/13/23 0:00,20.50,supplies,1\n\
        3/20/23 0:00,900.00,QuickBooks payments,2\n\
        3/20/23 0:00,55.00,nothing like it,3\n";
    let mut interner = TokenInterner::default();
    let banks = load_bank_transactions(bank, &mut interner).unwrap();
    let entries = load_journal_entries(ledger, &mut interner).unwrap();
    let lists = build_candidates(&banks, &entries, |g: usize, x: usize| {
        let shared = shared_tokens(entries[g].tokens(), banks[x].tokens());
        shared.len() as u32 * 100_000
    });
    for algorithm in [Algorithm::Heuristic, Algorithm::MaxFlow] {
        let assignments = match_entries(algorithm, &lists, banks.len()).unwrap();
        check_matching(&lists, &assignments);
        let matches = build_match_records(&assignments, &banks, &entries);
        assert_eq!(matches.len(), 2);
        assert_eq!(matches[0].journal_entry_id, "1");
        assert_eq!(matches[0].bank_index, 0);
        assert_eq!(matches[0].gl_description, "Acme supplies");
        assert_eq!(matches[1].journal_entry_id, "2");
        assert_eq!(matches[1].bank_index, 1);
        for (entry, assignment) in entries.iter().zip(&assignments) {
            if let Some(assignment) = assignment {
                let matched = &banks[assignment.bank_idx];
                let apart = matched.abs_amount_cents - entry.abs_amount_cents;
                assert!(apart.abs() <= 1);
                let gap = (matched.datetime_key - entry.datetime_key).abs();
                assert!(gap <= DATE_WINDOW_MINUTES);
                assert_eq!(gap, assignment.minute_gap);
            }
        }
    }
}
