//! Matching an entry by displacing others from the bank transactions that they hold.
use vstd::prelude::*;

use crate::candidate::{assign, banks_in_range, lists, Assignment, Candidate};
use crate::order::before;
use crate::rank::{bank_prefers, edge_key, lemma_bank_preference};

verus! {

/// The candidates of each entry in order of preference, and the numbers that preferences go by.
pub struct Ranking {
    pub candidates: Seq<Seq<Candidate>>,
    pub gl_counts: Seq<usize>,
    pub bank_counts: Seq<usize>,
}

/// Who is matched with whom, from both sides.
pub struct Pairing {
    pub assignments: Seq<Option<Assignment>>,
    pub owners: Seq<Option<usize>>,
}

impl Ranking {
    /// Every entry has been counted, and so has every bank transaction that is a candidate of one.
    pub open spec fn wf(self) -> bool {
        &&& self.candidates.len() <= self.gl_counts.len()
        &&& forall|g: int, k: int|
            #![trigger self.candidates[g][k]]
            0 <= g < self.candidates.len() && 0 <= k < self.candidates[g].len()
                ==> self.candidates[g][k].bank_idx < self.bank_counts.len()
    }

    /// The bank transaction would rather be matched with entry `g` than with entry `o`, which
    /// holds it.
    pub open spec fn prefers(self, g: usize, c: Candidate, o: usize, held: Assignment) -> bool {
        before(
            edge_key(g, c.taken(), self.gl_counts, self.bank_counts),
            edge_key(o, held, self.gl_counts, self.bank_counts),
        )
    }
}

impl Pairing {
    /// The two sides agree: an entry is matched with a bank transaction if and only if the
    /// transaction is held by that entry.
    pub open spec fn consistent(self) -> bool {
        &&& forall|x: int|
            0 <= x < self.owners.len() && #[trigger] self.owners[x] is Some ==> {
                let o = self.owners[x]->0 as int;
                &&& o < self.assignments.len()
                &&& self.assignments[o] is Some
                &&& self.assignments[o]->0.bank_idx == x
            }
        &&& forall|g: int|
            0 <= g < self.assignments.len() && #[trigger] self.assignments[g] is Some ==> {
                let x = self.assignments[g]->0.bank_idx as int;
                &&& x < self.owners.len()
                &&& self.owners[x] is Some
                &&& self.owners[x]->0 == g
            }
    }

    /// Entry `g` takes `c`, which nobody holds.
    pub open spec fn give(self, g: usize, c: Candidate) -> Pairing {
        Pairing {
            assignments: self.assignments.update(g as int, Some(c.taken())),
            owners: self.owners.update(c.bank_idx as int, Some(g)),
        }
    }

    /// Entry `g` takes `c` away from entry `o`.
    pub open spec fn displace(self, g: usize, c: Candidate, o: usize) -> Pairing {
        Pairing {
            assignments: self.assignments.update(o as int, None).update(
                g as int,
                Some(c.taken()),
            ),
            owners: self.owners.update(c.bank_idx as int, Some(g)),
        }
    }
}

/// How many bank transactions have not been looked at.
pub open spec fn unseen(seen: Seq<bool>) -> nat
    decreases seen.len(),
{
    if seen.len() == 0 {
        0
    } else if seen.last() {
        unseen(seen.drop_last())
    } else {
        unseen(seen.drop_last()) + 1
    }
}

/// The marks of both.
pub open spec fn either(a: Seq<bool>, b: Seq<bool>) -> Seq<bool> {
    Seq::new(a.len(), |x: int| a[x] || b[x])
}

/// Nothing that was marked in `a` is unmarked in `b`.
pub open spec fn marks_kept(a: Seq<bool>, b: Seq<bool>) -> bool {
    &&& a.len() == b.len()
    &&& forall|x: int| 0 <= x < a.len() && #[trigger] a[x] ==> b[x]
}

/// A mark leaves less to look at.
pub proof fn lemma_unseen_mark(seen: Seq<bool>, x: int)
    requires
        0 <= x < seen.len(),
        !seen[x],
    ensures
        unseen(seen.update(x, true)) < unseen(seen),
    decreases seen.len(),
{
    if x == seen.len() - 1 {
        assert(seen.update(x, true).drop_last() =~= seen.drop_last());
    } else {
        lemma_unseen_mark(seen.drop_last(), x);
        assert(seen.update(x, true).drop_last() =~= seen.drop_last().update(x, true));
    }
}

/// More marks leave no more to look at.
pub proof fn lemma_unseen_kept(a: Seq<bool>, b: Seq<bool>)
    requires
        marks_kept(a, b),
    ensures
        unseen(b) <= unseen(a),
    decreases a.len(),
{
    if a.len() > 0 {
        assert(marks_kept(a.drop_last(), b.drop_last())) by {
            assert forall|x: int| 0 <= x < a.len() - 1 && #[trigger] a.drop_last()[x] implies b.drop_last()[x] by {
                assert(a[x]);
            }
        }
        lemma_unseen_kept(a.drop_last(), b.drop_last());
        assert(a.last() == a[a.len() - 1] && b.last() == b[a.len() - 1]);
    }
}

proof fn lemma_marks_trans(a: Seq<bool>, b: Seq<bool>, c: Seq<bool>)
    requires
        marks_kept(a, b),
        marks_kept(b, c),
    ensures
        marks_kept(a, c),
{
    assert forall|x: int| 0 <= x < a.len() && #[trigger] a[x] implies c[x] by {
        assert(b[x]);
    }
}

/// The search for a bank transaction for entry `g` among its candidates from the `k`-th on, where
/// those marked in `seen` are passed over. A free transaction is taken. One that prefers `g` to
/// the entry that holds it is taken too, if a search finds another for that entry. The result is
/// the pairing that was found, if any, and the marks.
pub open spec fn search(r: Ranking, g: usize, k: int, p: Pairing, seen: Seq<bool>) -> (
    Option<Pairing>,
    Seq<bool>,
)
    decreases unseen(seen), r.candidates[g as int].len() - k,
{
    if k < 0 || k >= r.candidates[g as int].len() {
        (None, seen)
    } else {
        let c = r.candidates[g as int][k];
        let x = c.bank_idx as int;
        if x >= seen.len() || seen[x] {
            search(r, g, k + 1, p, seen)
        } else {
            proof {
                lemma_unseen_mark(seen, x);
            }
            let marked = seen.update(x, true);
            match p.owners[x] {
                None => (Some(p.give(g, c)), marked),
                Some(o) => {
                    if !r.prefers(g, c, o, p.assignments[o as int]->0) {
                        search(r, g, k + 1, p, marked)
                    } else {
                        let (found, after) = search(r, o, 0, p.displace(g, c, o), marked);
                        if found is Some {
                            (found, after)
                        } else {
                            proof {
                                lemma_unseen_kept(marked, either(marked, after));
                            }
                            search(r, g, k + 1, p, either(marked, after))
                        }
                    }
                },
            }
        }
    }
}

/// A search only adds marks.
pub proof fn lemma_search_keeps_marks(r: Ranking, g: usize, k: int, p: Pairing, seen: Seq<bool>)
    ensures
        marks_kept(seen, search(r, g, k, p, seen).1),
    decreases unseen(seen), r.candidates[g as int].len() - k,
{
    if 0 <= k < r.candidates[g as int].len() {
        let c = r.candidates[g as int][k];
        let x = c.bank_idx as int;
        if x >= seen.len() || seen[x] {
            lemma_search_keeps_marks(r, g, k + 1, p, seen);
        } else {
            lemma_unseen_mark(seen, x);
            let marked = seen.update(x, true);
            assert(marks_kept(seen, marked));
            let end = search(r, g, k, p, seen).1;
            if p.owners[x] is Some {
                let o = p.owners[x]->0;
                if !r.prefers(g, c, o, p.assignments[o as int]->0) {
                    lemma_search_keeps_marks(r, g, k + 1, p, marked);
                    lemma_marks_trans(seen, marked, end);
                } else {
                    lemma_search_keeps_marks(r, o, 0, p.displace(g, c, o), marked);
                    let (found, after) = search(r, o, 0, p.displace(g, c, o), marked);
                    if found is None {
                        let both = either(marked, after);
                        assert(marks_kept(marked, both));
                        lemma_unseen_kept(marked, both);
                        lemma_search_keeps_marks(r, g, k + 1, p, both);
                        lemma_marks_trans(seen, marked, both);
                        lemma_marks_trans(seen, both, end);
                    } else {
                        lemma_marks_trans(seen, marked, end);
                    }
                }
            }
        }
    }
}

/// Displacing an entry keeps the two sides in agreement.
proof fn lemma_displace(r: Ranking, p: Pairing, g: usize, k: int)
    requires
        p.consistent(),
        g < r.candidates.len(),
        0 <= k < r.candidates[g as int].len(),
        g < p.assignments.len(),
        p.assignments[g as int] is None,
        r.candidates[g as int][k].bank_idx < p.owners.len(),
    ensures
        ({
            let c = r.candidates[g as int][k];
            let x = c.bank_idx as int;
            &&& p.owners[x] is None ==> p.give(g, c).consistent()
            &&& p.owners[x] matches Some(o) ==> {
                &&& o != g
                &&& o < p.assignments.len()
                &&& p.assignments[o as int] is Some
                &&& p.assignments[o as int]->0.bank_idx == x
                &&& p.displace(g, c, o).consistent()
                &&& p.displace(g, c, o).assignments[o as int] is None
            }
        }),
{
    let c = r.candidates[g as int][k];
    let x = c.bank_idx as int;
    if p.owners[x] is None {
        let q = p.give(g, c);
        assert forall|h: int| 0 <= h < q.assignments.len() && #[trigger] q.assignments[h] is Some implies ({
            let y = q.assignments[h]->0.bank_idx as int;
            &&& y < q.owners.len()
            &&& q.owners[y] is Some
            &&& q.owners[y]->0 == h
        }) by {
            if h != g {
                assert(p.assignments[h] is Some);
            }
        }
        assert forall|y: int| 0 <= y < q.owners.len() && #[trigger] q.owners[y] is Some implies ({
            let o = q.owners[y]->0 as int;
            &&& o < q.assignments.len()
            &&& q.assignments[o] is Some
            &&& q.assignments[o]->0.bank_idx == y
        }) by {
            if y != x {
                assert(p.owners[y] is Some);
            }
        }
    } else {
        let o = p.owners[x]->0;
        let q = p.displace(g, c, o);
        assert forall|h: int| 0 <= h < q.assignments.len() && #[trigger] q.assignments[h] is Some implies ({
            let y = q.assignments[h]->0.bank_idx as int;
            &&& y < q.owners.len()
            &&& q.owners[y] is Some
            &&& q.owners[y]->0 == h
        }) by {
            if h != g {
                assert(p.assignments[h] is Some);
            }
        }
        assert forall|y: int| 0 <= y < q.owners.len() && #[trigger] q.owners[y] is Some implies ({
            let o = q.owners[y]->0 as int;
            &&& o < q.assignments.len()
            &&& q.assignments[o] is Some
            &&& q.assignments[o]->0.bank_idx == y
        }) by {
            if y != x {
                assert(p.owners[y] is Some);
            }
        }
    }
}

/// Every match is one of the entry's candidates.
pub open spec fn uses_candidates(r: Ranking, p: Pairing) -> bool {
    forall|g: int|
        0 <= g < p.assignments.len() && #[trigger] p.assignments[g] is Some ==> exists|k: int|
            0 <= k < r.candidates[g].len() && #[trigger] r.candidates[g][k].taken()
                == p.assignments[g]->0
}

/// The tables of the pairing have a place for each entry and for each bank transaction.
pub open spec fn fitting(r: Ranking, p: Pairing) -> bool {
    &&& r.wf()
    &&& p.assignments.len() == r.candidates.len()
    &&& p.owners.len() == r.bank_counts.len()
    &&& p.consistent()
    &&& uses_candidates(r, p)
}

/// Bank transaction `x`, if it was held in `p`, is held in `q` by the same entry or by one that it
/// prefers.
pub open spec fn held_no_worse(r: Ranking, p: Pairing, q: Pairing, x: int) -> bool {
    p.owners[x] matches Some(o) ==> {
        &&& q.owners[x] is Some
        &&& {
            let n = q.owners[x]->0;
            ||| n == o && q.assignments[n as int] == p.assignments[o as int]
            ||| before(
                edge_key(n, q.assignments[n as int]->0, r.gl_counts, r.bank_counts),
                edge_key(o, p.assignments[o as int]->0, r.gl_counts, r.bank_counts),
            )
        }
    }
}

/// Bank transaction `x` is held as before.
pub open spec fn held_as_before(p: Pairing, q: Pairing, x: int) -> bool {
    &&& q.owners[x] == p.owners[x]
    &&& p.owners[x] matches Some(o) ==> q.assignments[o as int] == p.assignments[o as int]
}

/// What a search that succeeds keeps and changes: the pairing still fits, the entry is matched and
/// every other entry is matched if and only if it was, and no bank transaction is held by an entry
/// that it likes less. What was marked is held as before.
pub proof fn lemma_search_extends(r: Ranking, g: usize, k: int, p: Pairing, seen: Seq<bool>)
    requires
        fitting(r, p),
        g < r.candidates.len(),
        p.assignments[g as int] is None,
        seen.len() == p.owners.len(),
    ensures
        search(r, g, k, p, seen).0 matches Some(q) ==> {
            &&& fitting(r, q)
            &&& forall|h: int|
                0 <= h < q.assignments.len() ==> (#[trigger] q.assignments[h] is Some
                    <==> p.assignments[h] is Some || h == g)
            &&& forall|x: int| 0 <= x < p.owners.len() ==> #[trigger] held_no_worse(r, p, q, x)
            &&& forall|x: int|
                0 <= x < p.owners.len() && seen[x] ==> #[trigger] held_as_before(p, q, x)
        },
    decreases unseen(seen), r.candidates[g as int].len() - k,
{
    if 0 <= k < r.candidates[g as int].len() {
        let c = r.candidates[g as int][k];
        let x = c.bank_idx as int;
        if seen[x] {
            lemma_search_extends(r, g, k + 1, p, seen);
        } else {
            lemma_unseen_mark(seen, x);
            let marked = seen.update(x, true);
            lemma_displace(r, p, g, k);
            if p.owners[x] is None {
                let q = p.give(g, c);
                assert(uses_candidates(r, q)) by {
                    assert forall|h: int| 0 <= h < q.assignments.len()
                        && #[trigger] q.assignments[h] is Some implies exists|k: int|
                        0 <= k < r.candidates[h].len() && #[trigger] r.candidates[h][k].taken()
                            == q.assignments[h]->0 by {
                        if h == g {
                            assert(r.candidates[h][k].taken() == q.assignments[h]->0);
                        } else {
                            assert(p.assignments[h] is Some);
                        }
                    }
                }
                assert forall|y: int| 0 <= y < p.owners.len() implies #[trigger] held_no_worse(
                    r,
                    p,
                    q,
                    y,
                ) by {}
            } else {
                let o = p.owners[x]->0;
                if !r.prefers(g, c, o, p.assignments[o as int]->0) {
                    lemma_search_extends(r, g, k + 1, p, marked);
                    if search(r, g, k + 1, p, marked).0 is Some {
                        let q = search(r, g, k + 1, p, marked).0->0;
                        assert forall|y: int| 0 <= y < p.owners.len() && seen[y] implies #[trigger] held_as_before(
                        p, q, y) by {
                            assert(marked[y]);
                        }
                    }
                } else {
                    let moved = p.displace(g, c, o);
                    assert(uses_candidates(r, moved)) by {
                        assert forall|h: int| 0 <= h < moved.assignments.len()
                            && #[trigger] moved.assignments[h] is Some implies exists|k: int|
                            0 <= k < r.candidates[h].len() && #[trigger] r.candidates[h][k].taken()
                                == moved.assignments[h]->0 by {
                            if h == g {
                                assert(r.candidates[h][k].taken() == moved.assignments[h]->0);
                            } else {
                                assert(p.assignments[h] is Some);
                            }
                        }
                    }
                    lemma_search_extends(r, o, 0, moved, marked);
                    let (found, after) = search(r, o, 0, moved, marked);
                    if found is Some {
                        let q = found->0;
                        lemma_search_extends_step(r, g, c, o, p, q, seen);
                    } else {
                        let both = either(marked, after);
                        lemma_unseen_kept(marked, both);
                        lemma_search_extends(r, g, k + 1, p, both);
                        if search(r, g, k + 1, p, both).0 is Some {
                            let q = search(r, g, k + 1, p, both).0->0;
                            assert forall|y: int| 0 <= y < p.owners.len() && seen[y] implies #[trigger] held_as_before(
                            p, q, y) by {
                                assert(both[y]);
                            }
                        }
                    }
                }
            }
        }
    }
}

/// The step of `lemma_search_extends` that displaces an entry.
proof fn lemma_search_extends_step(
    r: Ranking,
    g: usize,
    c: Candidate,
    o: usize,
    p: Pairing,
    q: Pairing,
    seen: Seq<bool>,
)
    requires
        fitting(r, p),
        fitting(r, q),
        g < r.candidates.len(),
        p.assignments[g as int] is None,
        seen.len() == p.owners.len(),
        c.bank_idx < p.owners.len(),
        p.owners[c.bank_idx as int] == Some(o),
        r.prefers(g, c, o, p.assignments[o as int]->0),
        ({
            let moved = p.displace(g, c, o);
            let marked = seen.update(c.bank_idx as int, true);
            &&& forall|h: int|
                0 <= h < q.assignments.len() ==> (#[trigger] q.assignments[h] is Some
                    <==> moved.assignments[h] is Some || h == o)
            &&& forall|x: int|
                0 <= x < moved.owners.len() ==> #[trigger] held_no_worse(r, moved, q, x)
            &&& forall|x: int|
                0 <= x < moved.owners.len() && marked[x] ==> #[trigger] held_as_before(
                    moved,
                    q,
                    x,
                )
        }),
        !seen[c.bank_idx as int],
    ensures
        forall|h: int|
            0 <= h < q.assignments.len() ==> (#[trigger] q.assignments[h] is Some
                <==> p.assignments[h] is Some || h == g),
        forall|x: int| 0 <= x < p.owners.len() ==> #[trigger] held_no_worse(r, p, q, x),
        forall|x: int| 0 <= x < p.owners.len() && seen[x] ==> #[trigger] held_as_before(p, q, x),
{
    let moved = p.displace(g, c, o);
    let marked = seen.update(c.bank_idx as int, true);
    let x0 = c.bank_idx as int;
    assert(p.assignments[o as int] is Some);
    assert forall|x: int| 0 <= x < p.owners.len() implies #[trigger] held_no_worse(r, p, q, x) by {
        assert(held_no_worse(r, moved, q, x));
        if x == x0 {
            assert(marked[x]);
            assert(held_as_before(moved, q, x));
            assert(moved.assignments[g as int] == Some(c.taken()));
        } else if p.owners[x] is Some {
            let h = p.owners[x]->0;
            assert(p.assignments[h as int] is Some);
            assert(h != g && h != o);
            assert(moved.owners[x] == Some(h));
            assert(moved.assignments[h as int] == p.assignments[h as int]);
        }
    }
    assert forall|x: int| 0 <= x < p.owners.len() && seen[x] implies #[trigger] held_as_before(
        p,
        q,
        x,
    ) by {
        assert(marked[x]);
        assert(held_as_before(moved, q, x));
        if p.owners[x] is Some {
            let h = p.owners[x]->0;
            assert(p.assignments[h as int] is Some);
            assert(h != g && h != o);
        }
    }
}

/// A search that fails has found no free bank transaction: each that it looked at is held, and so
/// is each of the candidates that were left for it to look at.
pub proof fn lemma_search_fails(r: Ranking, g: usize, k: int, p: Pairing, seen: Seq<bool>)
    requires
        r.wf(),
        p.consistent(),
        p.owners.len() == r.bank_counts.len(),
        p.assignments.len() == r.candidates.len(),
        seen.len() == p.owners.len(),
        g < r.candidates.len(),
        0 <= k,
        p.assignments[g as int] is None,
        search(r, g, k, p, seen).0 is None,
    ensures
        forall|x: int|
            0 <= x < seen.len() && #[trigger] search(r, g, k, p, seen).1[x] && !seen[x]
                ==> p.owners[x] is Some,
        forall|j: int|
            k <= j < r.candidates[g as int].len() ==> {
                let x = #[trigger] r.candidates[g as int][j].bank_idx as int;
                seen[x] || p.owners[x] is Some
            },
    decreases unseen(seen), r.candidates[g as int].len() - k,
{
    if k < r.candidates[g as int].len() {
        let c = r.candidates[g as int][k];
        let x = c.bank_idx as int;
        if seen[x] {
            lemma_search_fails(r, g, k + 1, p, seen);
        } else {
            lemma_unseen_mark(seen, x);
            let marked = seen.update(x, true);
            lemma_displace(r, p, g, k);
            let o = p.owners[x]->0;
            if !r.prefers(g, c, o, p.assignments[o as int]->0) {
                lemma_search_fails(r, g, k + 1, p, marked);
            } else {
                let moved = p.displace(g, c, o);
                lemma_search_fails(r, o, 0, moved, marked);
                let after = search(r, o, 0, moved, marked).1;
                let both = either(marked, after);
                lemma_unseen_kept(marked, both);
                lemma_search_keeps_marks(r, o, 0, moved, marked);
                lemma_search_fails(r, g, k + 1, p, both);
                assert forall|y: int| 0 <= y < seen.len() && both[y] && !seen[y] implies p.owners[y] is Some by {
                    if y != x {
                        assert(after[y]);
                    }
                }
                let end = search(r, g, k, p, seen).1;
                assert forall|y: int| 0 <= y < seen.len() && #[trigger] end[y] && !seen[y] implies p.owners[y] is Some by {
                    if !both[y] {
                        assert(search(r, g, k + 1, p, both).1[y]);
                    }
                }
            }
        }
    }
}

/// Finds a bank transaction for entry `gl_idx`, displacing other entries where they can be matched
/// otherwise.
pub fn try_assign(
    gl_idx: usize,
    gl_candidates: &[Vec<Candidate>],
    gl_candidate_counts: &[usize],
    bank_candidate_counts: &[usize],
    assignments: &mut [Option<Assignment>],
    bank_owners: &mut [Option<usize>],
    seen_banks: &mut [bool],
) -> (assigned: bool)
    requires
        ranking(gl_candidates@, gl_candidate_counts@, bank_candidate_counts@).wf(),
        gl_idx < old(assignments)@.len() <= gl_candidates@.len(),
        banks_in_range(lists(gl_candidates@), old(bank_owners)@.len() as int),
        banks_in_range(lists(gl_candidates@), old(seen_banks)@.len() as int),
        pairing(old(assignments)@, old(bank_owners)@).consistent(),
        old(assignments)@[gl_idx as int] is None,
    ensures
        ({
            let start = pairing(old(assignments)@, old(bank_owners)@);
            let end = pairing(final(assignments)@, final(bank_owners)@);
            let (found, after) = search(
                ranking(gl_candidates@, gl_candidate_counts@, bank_candidate_counts@),
                gl_idx,
                0,
                start,
                old(seen_banks)@,
            );
            &&& assigned == (found is Some)
            &&& found matches Some(q) ==> end == q
            &&& found is None ==> end == start
            &&& final(seen_banks)@ == after
        }),
    decreases unseen(old(seen_banks)@),
{
    let ghost r = ranking(gl_candidates@, gl_candidate_counts@, bank_candidate_counts@);
    let ghost p = pairing(assignments@, bank_owners@);
    let ghost start = seen_banks@;
    let candidates = &gl_candidates[gl_idx];
    assert(r.candidates[gl_idx as int] == candidates@);
    let mut k: usize = 0;
    while k < candidates.len()
        invariant
            k <= candidates@.len(),
            r == ranking(gl_candidates@, gl_candidate_counts@, bank_candidate_counts@),
            r.wf(),
            gl_idx < assignments@.len() <= gl_candidates@.len(),
            candidates@ == r.candidates[gl_idx as int],
            p == pairing(assignments@, bank_owners@),
            banks_in_range(r.candidates, bank_owners@.len() as int),
            banks_in_range(r.candidates, seen_banks@.len() as int),
            p.consistent(),
            p.assignments[gl_idx as int] is None,
            start == old(seen_banks)@,
            p == pairing(old(assignments)@, old(bank_owners)@),
            unseen(seen_banks@) <= unseen(start),
            search(r, gl_idx, 0, p, start) == search(r, gl_idx, k as int, p, seen_banks@),
        decreases candidates@.len() - k,
    {
        let candidate = &candidates[k];
        let bank_idx = candidate.bank_idx;
        assert(r.candidates[gl_idx as int][k as int] == *candidate);
        proof {
            if !seen_banks@[bank_idx as int] {
                lemma_unseen_mark(seen_banks@, bank_idx as int);
                lemma_displace(r, p, gl_idx, k as int);
            }
        }
        k += 1;
        if seen_banks[bank_idx] {
            continue;
        }
        seen_banks[bank_idx] = true;

        match bank_owners[bank_idx] {
            None => {
                assignments[gl_idx] = Some(assign(candidate));
                bank_owners[bank_idx] = Some(gl_idx);
                return true;
            },
            Some(owner_idx) => {
                let incumbent = match assignments[owner_idx] {
                    Some(incumbent) => incumbent,
                    None => {
                        assert(false);
                        return false;
                    },
                };
                if !bank_prefers(
                    gl_idx,
                    *candidate,
                    owner_idx,
                    incumbent,
                    gl_candidate_counts,
                    bank_candidate_counts,
                ) {
                    continue;
                }
                assignments[owner_idx] = None;
                assignments[gl_idx] = Some(assign(candidate));
                bank_owners[bank_idx] = Some(gl_idx);
                let ghost marked = seen_banks@;
                assert(pairing(assignments@, bank_owners@) == p.displace(
                    gl_idx,
                    *candidate,
                    owner_idx,
                ));

                if try_assign(
                    owner_idx,
                    gl_candidates,
                    gl_candidate_counts,
                    bank_candidate_counts,
                    assignments,
                    bank_owners,
                    seen_banks,
                ) {
                    return true;
                }
                assignments[gl_idx] = None;
                assignments[owner_idx] = Some(incumbent);
                bank_owners[bank_idx] = Some(owner_idx);
                proof {
                    let moved = p.displace(gl_idx, *candidate, owner_idx);
                    lemma_search_keeps_marks(r, owner_idx, 0, moved, marked);
                    let after = search(r, owner_idx, 0, moved, marked).1;
                    assert(either(marked, after) =~= after) by {
                        assert forall|x: int| 0 <= x < marked.len() implies (marked[x] || after[x]) == after[x] by {}
                    }
                    lemma_unseen_kept(marked, after);
                    assert(assignments@ =~= p.assignments);
                    assert(bank_owners@ =~= p.owners);
                }
            },
        }
    }
    false
}

/// The ranking that the tables hold.
pub open spec fn ranking(
    gl_candidates: Seq<Vec<Candidate>>,
    gl_counts: Seq<usize>,
    bank_counts: Seq<usize>,
) -> Ranking {
    Ranking { candidates: lists(gl_candidates), gl_counts, bank_counts }
}

/// The pairing that the tables hold.
pub open spec fn pairing(
    assignments: Seq<Option<Assignment>>,
    owners: Seq<Option<usize>>,
) -> Pairing {
    Pairing { assignments, owners }
}

/// Displacing an entry leaves a pairing that fits, and that entry without a match.
pub proof fn lemma_displaced_fits(r: Ranking, p: Pairing, g: usize, k: int)
    requires
        fitting(r, p),
        g < r.candidates.len(),
        0 <= k < r.candidates[g as int].len(),
        p.assignments[g as int] is None,
        p.owners[r.candidates[g as int][k].bank_idx as int] is Some,
    ensures
        ({
            let c = r.candidates[g as int][k];
            let o = p.owners[c.bank_idx as int]->0;
            &&& o < r.candidates.len()
            &&& o != g
            &&& p.assignments[o as int] is Some
            &&& p.assignments[o as int]->0.bank_idx == c.bank_idx
            &&& fitting(r, p.displace(g, c, o))
            &&& p.displace(g, c, o).assignments[o as int] is None
        }),
{
    let c = r.candidates[g as int][k];
    lemma_displace(r, p, g, k);
    let o = p.owners[c.bank_idx as int]->0;
    let moved = p.displace(g, c, o);
    assert forall|h: int| 0 <= h < moved.assignments.len() && #[trigger] moved.assignments[h] is Some implies exists|
        k: int,
    |
        0 <= k < r.candidates[h].len() && #[trigger] r.candidates[h][k].taken()
            == moved.assignments[h]->0 by {
        if h == g {
            assert(r.candidates[h][k].taken() == moved.assignments[h]->0);
        } else {
            assert(p.assignments[h] is Some);
        }
    }
}

/// What becomes of the `k`-th candidate of entry `g`. If its transaction has been looked at before,
/// it is passed over. If nobody holds it, `g` takes it. If an entry holds it that the transaction
/// likes less (the score is lower; or the same, and the gap is larger; or that is the same too, and
/// the entry has more candidates; or as many, and stands further down), `g` takes it, provided that
/// the entry finds another, and otherwise looks further, past all that was looked at in vain. If
/// the transaction likes the entry that holds it better, `g` looks further too.
pub proof fn lemma_how_a_candidate_is_won(
    r: Ranking,
    g: usize,
    k: int,
    p: Pairing,
    seen: Seq<bool>,
)
    requires
        fitting(r, p),
        g < r.candidates.len(),
        p.assignments[g as int] is None,
        seen.len() == p.owners.len(),
        0 <= k,
    ensures
        k >= r.candidates[g as int].len() ==> search(r, g, k, p, seen).0 is None,
        k < r.candidates[g as int].len() ==> {
            let c = r.candidates[g as int][k];
            let x = c.bank_idx as int;
            let marked = seen.update(x, true);
            let found = search(r, g, k, p, seen).0;
            if seen[x] {
                found == search(r, g, k + 1, p, seen).0
            } else {
                match p.owners[x] {
                    None => {
                        &&& found is Some
                        &&& found->0.owners == p.owners.update(x, Some(g))
                        &&& found->0.assignments == p.assignments.update(g as int, Some(c.taken()))
                    },
                    Some(o) => {
                        let held = p.assignments[o as int]->0;
                        let moved = Pairing {
                            assignments: p.assignments.update(o as int, None).update(
                                g as int,
                                Some(c.taken()),
                            ),
                            owners: p.owners.update(x, Some(g)),
                        };
                        let (other, after) = search(r, o, 0, moved, marked);
                        let all = Seq::new(seen.len(), |y: int| marked[y] || after[y]);
                        let count_g = r.gl_counts[g as int];
                        let count_o = r.gl_counts[o as int];
                        let wins = c.score_ppm > held.score_ppm || (c.score_ppm == held.score_ppm
                            && (c.minute_gap < held.minute_gap || (c.minute_gap == held.minute_gap
                            && (count_g < count_o || (count_g == count_o && g < o)))));
                        &&& wins && other is Some ==> found == other && found->0.owners[x]
                            == Some(g)
                        &&& wins && other is None ==> found == search(r, g, k + 1, p, all).0
                        &&& !wins ==> found == search(r, g, k + 1, p, marked).0
                    },
                }
            }
        },
{
    if k < r.candidates[g as int].len() {
        let c = r.candidates[g as int][k];
        let x = c.bank_idx as int;
        let marked = seen.update(x, true);
        if !seen[x] {
            lemma_unseen_mark(seen, x);
            if p.owners[x] is Some {
                let o = p.owners[x]->0;
                let held = p.assignments[o as int]->0;
                lemma_displaced_fits(r, p, g, k);
                lemma_bank_preference(g, c.taken(), o, held, r.gl_counts, r.bank_counts);
                let moved = p.displace(g, c, o);
                lemma_search_extends(r, o, 0, moved, marked);
                let (other, after) = search(r, o, 0, moved, marked);
                if other is Some {
                    assert(marked[x]);
                    assert(held_as_before(moved, other->0, x));
                }
                let all = Seq::new(seen.len(), |y: int| marked[y] || after[y]);
                assert(either(marked, after) =~= all);
            }
        }
    }
}

} // verus!
