use std::cmp::Ordering;

use reconcile::candidate::{Assignment, Candidate};
use reconcile::rank::{
    bank_prefers, best_gap, best_score, compare_bank_edges, compare_gl_candidates,
    compare_gl_order, score_margin,
};

fn candidate(bank_idx: usize, score_ppm: u32, minute_gap: i64) -> Candidate {
    Candidate {
        bank_idx,
        score_ppm,
        minute_gap,
    }
}

#[test]
fn candidates_rank_by_score_gap_demand_and_place() {
    let counts = [3, 1, 1];
    let order = |left: Candidate, right: Candidate| compare_gl_candidates(left, right, &counts);
    assert_eq!(order(candidate(0, 9, 50), candidate(1, 8, 0)), Ordering::Less);
    assert_eq!(order(candidate(0, 9, 50), candidate(1, 9, 0)), Ordering::Greater);
    assert_eq!(order(candidate(0, 9, 5), candidate(1, 9, 5)), Ordering::Greater);
    assert_eq!(order(candidate(1, 9, 5), candidate(2, 9, 5)), Ordering::Less);
    assert_eq!(order(candidate(2, 9, 5), candidate(2, 9, 5)), Ordering::Equal);
}

#[test]
fn entries_go_by_choice_score_margin_gap_demand_and_place() {
    let lists = vec![
        vec![candidate(0, 500, 10)],
        vec![candidate(1, 600, 90)],
        vec![candidate(0, 500, 5)],
        vec![candidate(1, 500, 10)],
        vec![candidate(0, 500, 10)],
        vec![],
        vec![candidate(0, 500, 10), candidate(1, 100, 0)],
        vec![candidate(0, 500, 10), candidate(1, 200, 0)],
    ];
    let gl_counts = [1, 1, 1, 1, 1, 0, 2, 2];
    let bank_counts = [4, 3];
    let order = |left: usize, right: usize| {
        compare_gl_order(left, right, &lists, &gl_counts, &bank_counts)
    };
    assert_eq!(order(0, 6), Ordering::Less);
    assert_eq!(order(5, 0), Ordering::Less);
    assert_eq!(order(1, 0), Ordering::Less);
    assert_eq!(order(6, 7), Ordering::Less);
    assert_eq!(order(2, 0), Ordering::Less);
    assert_eq!(order(3, 0), Ordering::Less);
    assert_eq!(order(0, 4), Ordering::Less);
    assert_eq!(order(4, 0), Ordering::Greater);
    assert_eq!(order(4, 4), Ordering::Equal);
}

#[test]
fn transactions_prefer_the_better_edge() {
    let held = Assignment {
        bank_idx: 0,
        score_ppm: 500,
        minute_gap: 10,
    };
    let gl_counts = [2, 1, 2];
    let bank_counts = [3];
    let prefers = |g: usize, c: Candidate| bank_prefers(g, c, 2, held, &gl_counts, &bank_counts);
    assert!(prefers(0, candidate(0, 501, 99)));
    assert!(!prefers(0, candidate(0, 499, 0)));
    assert!(prefers(0, candidate(0, 500, 9)));
    assert!(!prefers(0, candidate(0, 500, 11)));
    assert!(prefers(1, candidate(0, 500, 10)));
    assert!(prefers(0, candidate(0, 500, 10)));
    assert!(!prefers(2, candidate(0, 500, 10)));
    assert_eq!(
        compare_bank_edges(2, candidate(0, 500, 10), 2, held, &gl_counts, &bank_counts),
        Ordering::Equal
    );
    assert_eq!(
        compare_bank_edges(2, candidate(0, 500, 10), 0, held, &gl_counts, &bank_counts),
        Ordering::Greater
    );
}

#[test]
fn entries_without_candidates_have_defaults() {
    assert_eq!(best_score(None), 0);
    assert_eq!(best_gap(None), i64::MAX);
    assert_eq!(best_score(Some(candidate(0, 7, 3))), 7);
    assert_eq!(best_gap(Some(candidate(0, 7, 3))), 3);
    assert_eq!(score_margin(&[]), 0);
    assert_eq!(score_margin(&[candidate(0, 7, 3)]), 7);
    assert_eq!(score_margin(&[candidate(0, 7, 3), candidate(1, 10, 3)]), -3);
}
