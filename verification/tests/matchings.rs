use reconcile::admission::{
    compute_gap_stats, heuristic_candidate_allowed, next_best_gap, GapStats,
};
use reconcile::candidate::{candidate_cost, Assignment, Candidate};
use reconcile::cli::Algorithm;
use reconcile::heuristic::match_heuristic;
use reconcile::matcher::match_entries;
use reconcile::maxflow::{match_maxflow, max_cardinality_flow, min_cost_flow_assign};
use reconcile::search::try_assign;

fn candidate(bank_idx: usize, score_ppm: u32, minute_gap: i64) -> Candidate {
    Candidate {
        bank_idx,
        score_ppm,
        minute_gap,
    }
}

fn banks(assignments: &[Option<Assignment>]) -> Vec<Option<usize>> {
    assignments
        .iter()
        .map(|entry| entry.map(|assignment| assignment.bank_idx))
        .collect()
}

#[test]
fn maxflow_preserves_maximum_cardinality_then_optimizes_cost() {
    let candidates = vec![
        vec![
            Candidate {
                bank_idx: 0,
                score_ppm: 10,
                minute_gap: 0,
            },
            Candidate {
                bank_idx: 1,
                score_ppm: 1_000,
                minute_gap: 0,
            },
        ],
        vec![Candidate {
            bank_idx: 1,
            score_ppm: 5,
            minute_gap: 0,
        }],
    ];

    let assignments = match_maxflow(&candidates, 2);
    assert_eq!(assignments.iter().filter(|entry| entry.is_some()).count(), 2);
    assert_eq!(assignments[0].unwrap().bank_idx, 0);
    assert_eq!(assignments[1].unwrap().bank_idx, 1);
}

#[test]
fn heuristic_rejects_ambiguous_zero_score_candidates() {
    let candidates = vec![
        vec![
            Candidate {
                bank_idx: 0,
                score_ppm: 0,
                minute_gap: 0,
            },
            Candidate {
                bank_idx: 1,
                score_ppm: 0,
                minute_gap: 0,
            },
        ],
        vec![Candidate {
            bank_idx: 1,
            score_ppm: 0,
            minute_gap: 0,
        }],
    ];

    let assignments = match_heuristic(&candidates, 2);
    assert!(assignments[0].is_none());
    assert_eq!(assignments[1].unwrap().bank_idx, 1);
}

#[test]
fn costs_weigh_scores_before_gaps() {
    assert_eq!(candidate_cost(candidate(7, 1_000_000, 30)), 37);
    assert_eq!(candidate_cost(candidate(0, 999_999, 0)), 100_000);
    assert_eq!(candidate_cost(candidate(2, 0, 5)), 100_000_000_007);
}

#[test]
fn counts_how_many_can_be_matched() {
    let lists = vec![
        vec![candidate(0, 1, 0), candidate(1, 1, 0)],
        vec![candidate(0, 1, 0)],
        vec![candidate(0, 1, 0)],
        vec![],
    ];
    assert_eq!(max_cardinality_flow(&lists, 2), 2);
    assert_eq!(max_cardinality_flow(&lists, 5), 2);
    assert_eq!(max_cardinality_flow(&[], 3), 0);
}

#[test]
fn fewer_matches_are_the_cheapest() {
    let lists = vec![
        vec![candidate(0, 10, 0)],
        vec![candidate(1, 900_000, 0)],
        vec![candidate(2, 500_000, 0)],
    ];
    assert_eq!(
        banks(&min_cost_flow_assign(&lists, 3, 1)),
        vec![None, Some(1), None]
    );
    assert_eq!(
        banks(&min_cost_flow_assign(&lists, 3, 2)),
        vec![None, Some(1), Some(2)]
    );
    assert_eq!(
        banks(&min_cost_flow_assign(&lists, 3, 9)),
        vec![Some(0), Some(1), Some(2)]
    );
    assert_eq!(
        banks(&min_cost_flow_assign(&lists, 3, 0)),
        vec![None, None, None]
    );
}

#[test]
fn a_dearer_pair_is_given_up_for_a_cheaper_whole() {
    let lists = vec![
        vec![candidate(0, 900_000, 0), candidate(1, 800_000, 0)],
        vec![candidate(0, 850_000, 0), candidate(1, 100_000, 0)],
    ];
    // 900 + 100 is less than 800 + 850
    assert_eq!(banks(&match_maxflow(&lists, 2)), vec![Some(1), Some(0)]);
}

#[test]
fn the_better_score_displaces_the_weaker() {
    let lists = vec![
        vec![candidate(0, 300_000, 0)],
        vec![candidate(0, 400_000, 0)],
    ];
    assert_eq!(banks(&match_heuristic(&lists, 1)), vec![None, Some(0)]);
    let lists = vec![
        vec![candidate(0, 300_000, 0), candidate(1, 250_000, 0)],
        vec![candidate(0, 400_000, 0)],
    ];
    assert_eq!(banks(&match_heuristic(&lists, 2)), vec![Some(1), Some(0)]);
}

#[test]
fn no_free_candidate_is_left_to_an_unmatched_entry() {
    let lists = vec![
        vec![candidate(0, 900_000, 0), candidate(1, 800_000, 0)],
        vec![candidate(1, 850_000, 0), candidate(2, 300_000, 0)],
        vec![candidate(2, 700_000, 0), candidate(0, 600_000, 0)],
        vec![],
    ];
    let assignments = match_heuristic(&lists, 4);
    assert_eq!(banks(&assignments), vec![Some(0), Some(1), Some(2), None]);
    assert_eq!(assignments[1].unwrap().score_ppm, 850_000);
}

#[test]
fn a_displaced_entry_finds_another_transaction() {
    let lists = vec![
        vec![candidate(0, 700_000, 0), candidate(1, 500_000, 0)],
        vec![candidate(0, 800_000, 0)],
    ];
    let gl_counts = [2, 1];
    let bank_counts = [2, 1];
    let mut assignments = vec![
        Some(Assignment {
            bank_idx: 0,
            score_ppm: 700_000,
            minute_gap: 0,
        }),
        None,
    ];
    let mut owners = vec![Some(0), None];
    let mut seen = vec![false, false];
    assert!(try_assign(
        1,
        &lists,
        &gl_counts,
        &bank_counts,
        &mut assignments,
        &mut owners,
        &mut seen
    ));
    assert_eq!(banks(&assignments), vec![Some(1), Some(0)]);
    assert_eq!(owners, vec![Some(1), Some(0)]);
    assert_eq!(seen, vec![true, true]);
}

#[test]
fn a_search_in_vain_leaves_everything_as_it_was() {
    let lists = vec![
        vec![candidate(0, 700_000, 0)],
        vec![candidate(0, 800_000, 0)],
    ];
    let held = Some(Assignment {
        bank_idx: 0,
        score_ppm: 700_000,
        minute_gap: 0,
    });
    let mut assignments = vec![held, None];
    let mut owners = vec![Some(0)];
    let mut seen = vec![false];
    assert!(!try_assign(
        1,
        &lists,
        &[1, 1],
        &[2],
        &mut assignments,
        &mut owners,
        &mut seen
    ));
    assert_eq!(assignments, vec![held, None]);
    assert_eq!(owners, vec![Some(0)]);
    assert_eq!(seen, vec![true]);
}

#[test]
fn finds_the_two_smallest_gaps() {
    let list = [
        candidate(0, 0, 30),
        candidate(1, 0, 10),
        candidate(2, 0, 10),
        candidate(3, 0, 20),
    ];
    assert_eq!(
        compute_gap_stats(&list),
        GapStats {
            best_gap: 10,
            best_count: 2,
            second_best_gap: 20
        }
    );
    assert_eq!(
        compute_gap_stats(&[]),
        GapStats {
            best_gap: i64::MAX,
            best_count: 0,
            second_best_gap: i64::MAX
        }
    );
    let single = compute_gap_stats(&list[..2]);
    assert_eq!(next_best_gap(single, 10), 30);
    assert_eq!(next_best_gap(single, 30), 10);
    assert_eq!(next_best_gap(compute_gap_stats(&list), 10), 10);
}

#[test]
fn weak_scores_need_backing() {
    let far = GapStats {
        best_gap: 0,
        best_count: 2,
        second_best_gap: 0,
    };
    let allowed = |score: u32, gap: i64, gl: usize, bank: usize| {
        heuristic_candidate_allowed(0, candidate(0, score, gap), far, &[gl], &[bank])
    };
    assert!(allowed(200_000, 20_000, 5, 5));
    assert!(!allowed(199_999, 20_000, 1, 1));
    assert!(allowed(50_000, 0, 5, 5));
    assert!(allowed(50_000, 4_320, 1, 5));
    assert!(allowed(50_000, 4_320, 5, 1));
    assert!(!allowed(50_000, 4_321, 1, 1));
    assert!(!allowed(50_000, 4_320, 5, 5));
    assert!(allowed(1, 0, 5, 5));
    assert!(allowed(1, 1_440, 1, 5));
    assert!(!allowed(1, 1_441, 1, 1));
    assert!(allowed(0, 0, 1, 5));
    assert!(!allowed(0, 0, 5, 1));
    assert!(allowed(0, 1_440, 1, 1));
    assert!(!allowed(0, 1_440, 1, 2));
    let alone = GapStats {
        best_gap: 0,
        best_count: 1,
        second_best_gap: 1_441,
    };
    assert!(heuristic_candidate_allowed(
        0,
        candidate(0, 0, 0),
        alone,
        &[2],
        &[1]
    ));
}

#[test]
fn matches_by_the_algorithm_of_choice() {
    let lists = vec![vec![candidate(0, 300_000, 5)]];
    let expected = Some(Assignment {
        bank_idx: 0,
        score_ppm: 300_000,
        minute_gap: 5,
    });
    assert_eq!(
        match_entries(Algorithm::Heuristic, &lists, 1),
        Some(vec![expected])
    );
    assert_eq!(
        match_entries(Algorithm::MaxFlow, &lists, 1),
        Some(vec![expected])
    );
    assert_eq!(match_entries(Algorithm::Heuristic, &lists, 0), None);
    let extreme = vec![vec![candidate(0, 0, i64::MAX)]];
    assert_eq!(match_entries(Algorithm::Heuristic, &extreme, 1), None);
    assert_eq!(match_entries(Algorithm::MaxFlow, &extreme, 1), None);
}

#[test]
fn costs_need_only_fit_one_by_one() {
    let wide = vec![vec![candidate(0, 0, 1_000_000_000_000_000_000)]];
    assert_eq!(
        match_entries(Algorithm::MaxFlow, &wide, 1).map(|found| banks(&found)),
        Some(vec![Some(0)])
    );
    // the whole costs more than an i64 holds
    let gap = 9_000_000_000_000_000_000;
    let whole = vec![
        vec![candidate(0, 1_000_000, gap)],
        vec![candidate(1, 1_000_000, gap), candidate(0, 1_000_000, gap)],
    ];
    assert_eq!(
        match_entries(Algorithm::MaxFlow, &whole, 2).map(|found| banks(&found)),
        Some(vec![Some(0), Some(1)])
    );
    // many transactions for one entry
    let many = vec![vec![candidate(9_999, 0, 1_000_000_000_000_000)]];
    assert_eq!(
        match_entries(Algorithm::MaxFlow, &many, 10_000).map(|found| banks(&found)),
        Some(vec![Some(9_999)])
    );
    // one more minute and the cost no longer fits
    let most = i64::MAX - 100_000_000_000;
    let edge = vec![vec![candidate(0, 0, most)]];
    assert!(match_entries(Algorithm::MaxFlow, &edge, 1).is_some());
    let beyond = vec![vec![candidate(0, 0, most + 1)]];
    assert_eq!(match_entries(Algorithm::MaxFlow, &beyond, 1), None);
    let placed = vec![vec![candidate(1, 0, most)]];
    assert_eq!(match_entries(Algorithm::MaxFlow, &placed, 2), None);
}

#[test]
fn equally_cheap_matchings_are_told_apart() {
    // either way costs the same: the second entry is searched first, and takes the cheaper place
    let square = vec![
        vec![candidate(0, 0, 0), candidate(1, 0, 0)],
        vec![candidate(0, 0, 0), candidate(1, 0, 0)],
    ];
    for _ in 0..3 {
        assert_eq!(banks(&match_maxflow(&square, 2)), vec![Some(1), Some(0)]);
    }
    // of two equal candidates the first is taken
    let twice = vec![vec![candidate(0, 5, 5), candidate(0, 5, 5)]];
    assert_eq!(banks(&match_maxflow(&twice, 1)), vec![Some(0)]);
    // one unit only: the label of the larger node leaves first
    assert_eq!(
        banks(&min_cost_flow_assign(&square, 2, 1)),
        vec![None, Some(0)]
    );
}

#[test]
fn the_order_of_candidates_makes_no_difference() {
    let lists = vec![
        vec![
            candidate(0, 300_000, 5),
            candidate(1, 300_000, 5),
            candidate(2, 60_000, 0),
        ],
        vec![
            candidate(0, 300_000, 5),
            candidate(1, 300_000, 5),
            candidate(3, 0, 0),
        ],
        vec![candidate(1, 250_000, 5), candidate(0, 250_000, 5)],
        vec![candidate(3, 0, 0), candidate(3, 100, 4_000)],
    ];
    let expected = match_heuristic(&lists, 4);
    assert_eq!(banks(&expected), vec![Some(2), Some(0), Some(1), None]);
    let mut turned = lists.clone();
    for _ in 0..6 {
        for list in turned.iter_mut() {
            list.rotate_left(1);
        }
        assert_eq!(match_heuristic(&turned, 4), expected);
        let backwards: Vec<Vec<Candidate>> = turned
            .iter()
            .map(|list| list.iter().rev().copied().collect())
            .collect();
        assert_eq!(match_heuristic(&backwards, 4), expected);
    }
}
