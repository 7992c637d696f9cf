//! Matching by flows: as many entries as possible, at the least total cost.
use vstd::prelude::*;

use crate::candidate::{assign, banks_in_range, candidate_cost, lists, Assignment, Candidate};
use crate::course::course_end;
use crate::dinic::Dinic;
use crate::matching::{
    entry_cost, full_layout, is_cheapest_matching, is_maximum_matching,
    lemma_cheapest_flow_is_cheapest_matching, lemma_cost_by_entry, lemma_entry_flow,
    lemma_flow_to_matching, lemma_layout_candidate, lemma_layout_sink, lemma_layout_source,
    lemma_layout_start, lemma_maximum_flow_is_maximum_matching, link_price, matched_count, no_links,
    none_filled, partial_layout, read_off, sends, valid_matching,
};
use crate::mincost::{costs_fit, flow_costs_within, MinCostMaxFlow};
use crate::network::{feasible_prices, flow_value, has_link, is_flow, twice_flow_cost, with_edge, Link};
use crate::sums::{lemma_sum_bounds, lemma_sum_le, lemma_sum_scale, sum};

verus! {

/// The problem is small enough to be numbered: nodes by an `i32`, the cost of each candidate by an
/// `i64`.
pub open spec fn fits(cands: Seq<Seq<Candidate>>, bank_count: int) -> bool {
    &&& cands.len() + bank_count + 2 <= i32::MAX
    &&& forall|g: int, k: int|
        #![trigger cands[g][k]]
        0 <= g < cands.len() && 0 <= k < cands[g].len() ==> cost_fits(cands[g][k])
}

/// The cost of the candidate can be computed and negated in an `i64`.
pub open spec fn cost_fits(candidate: Candidate) -> bool {
    &&& i64::MIN < candidate.cost() <= i64::MAX
    &&& i64::MIN <= candidate.cost() - candidate.bank_idx
}

/// More than any candidate costs or earns whose cost fits.
spec fn cost_limit() -> int {
    0x8000_0000_0000_0000
}

/// `size` is the number of entries that can be matched at once.
pub open spec fn is_maximum_size(cands: Seq<Seq<Candidate>>, size: int) -> bool {
    exists|a: Seq<Option<Assignment>>| #[trigger]
        is_maximum_matching(cands, a) && size == matched_count(a)
}

/// The number of entries that can be matched at once.
pub open spec fn maximum_size(cands: Seq<Seq<Candidate>>) -> int {
    choose|size: int| is_maximum_size(cands, size)
}

/// `net` with links from the source to the first `g` entries.
pub open spec fn with_entries(net: Seq<Seq<Link>>, g: int) -> Seq<Seq<Link>>
    decreases g,
{
    if g <= 0 {
        net
    } else {
        with_edge(with_entries(net, g - 1), 0, g, 1, 0)
    }
}

/// `net` with links from the first `x` of `banks` transactions to the sink.
pub open spec fn with_banks(net: Seq<Seq<Link>>, entries: int, banks: int, x: int) -> Seq<Seq<Link>>
    decreases x,
{
    if x <= 0 {
        net
    } else {
        with_edge(with_banks(net, entries, banks, x - 1), entries + x, 1 + entries + banks, 1, 0)
    }
}

/// `net` with links for the first `k` candidates of entry `g`.
pub open spec fn with_some_candidates(
    net: Seq<Seq<Link>>,
    cands: Seq<Seq<Candidate>>,
    g: int,
    k: int,
) -> Seq<Seq<Link>>
    decreases k,
{
    if k <= 0 {
        net
    } else {
        with_edge(
            with_some_candidates(net, cands, g, k - 1),
            1 + g,
            1 + cands.len() + cands[g][k - 1].bank_idx,
            1,
            cands[g][k - 1].cost(),
        )
    }
}

/// `net` with links for the candidates of the first `g` entries.
pub open spec fn with_candidates(net: Seq<Seq<Link>>, cands: Seq<Seq<Candidate>>, g: int) -> Seq<
    Seq<Link>,
>
    decreases g,
{
    if g <= 0 {
        net
    } else {
        with_some_candidates(
            with_candidates(net, cands, g - 1),
            cands,
            g - 1,
            cands[g - 1].len() as int,
        )
    }
}

/// The network whose flows are the matchings: a source, a node for each entry, one for each
/// transaction, and a sink.
pub open spec fn flow_network(cands: Seq<Seq<Candidate>>, banks: int) -> Seq<Seq<Link>> {
    let n = cands.len() as int;
    with_candidates(
        with_banks(with_entries(no_links((n + banks + 2) as nat), n), n, banks, banks),
        cands,
        n,
    )
}

/// The first candidate of entry `g`, from the `k`-th on, over whose link the flow `b` goes.
pub open spec fn first_sent(
    cands: Seq<Seq<Candidate>>,
    b: Seq<Seq<Link>>,
    g: int,
    k: int,
) -> Option<Assignment>
    decreases cands[g].len() - k,
{
    if k >= cands[g].len() {
        None
    } else if sends(b, g, k) {
        Some(cands[g][k].taken())
    } else {
        first_sent(cands, b, g, k + 1)
    }
}

/// The matching that the search for a cheapest flow of `target` units comes to.
pub open spec fn flow_matching(cands: Seq<Seq<Candidate>>, banks: int, target: int) -> Seq<
    Option<Assignment>,
> {
    let end = course_end(flow_network(cands, banks), 0, 1 + cands.len() + banks, target);
    Seq::new(cands.len(), |g: int| first_sent(cands, end.net, g, 0))
}

/// The number of entries that can be matched at once.
pub fn max_cardinality_flow(gl_candidates: &[Vec<Candidate>], bank_count: usize) -> (size: usize)
    requires
        banks_in_range(lists(gl_candidates@), bank_count as int),
        gl_candidates@.len() + bank_count + 2 <= i32::MAX,
    ensures
        is_maximum_size(lists(gl_candidates@), size as int),
        size == maximum_size(lists(gl_candidates@)),
        size <= gl_candidates@.len(),
{
    let gl_count = gl_candidates.len();
    let source = 0usize;
    let gl_offset = 1usize;
    let bank_offset = gl_offset + gl_count;
    let sink = bank_offset + bank_count;
    let ghost cands = lists(gl_candidates@);
    let ghost banks = bank_count as int;
    let mut dinic = Dinic::new(sink + 1);
    proof {
        lemma_layout_start(cands, banks, false);
        assert(dinic.net() =~= no_links((cands.len() + banks + 2) as nat));
    }
    for gl_idx in 0..gl_count
        invariant
            gl_count == cands.len(),
            banks == bank_count,
            source == 0,
            gl_offset == 1,
            gl_count + bank_count + 2 <= i32::MAX,
            dinic.wf(),
            dinic.graph@.len() == gl_count + bank_count + 2,
            partial_layout(
                dinic.net(),
                cands,
                banks,
                false,
                gl_idx as int,
                0,
                none_filled(cands.len()),
            ),
    {
        proof {
            lemma_layout_source(dinic.net(), cands, banks, false, gl_idx as int);
        }
        dinic.add_edge(source, gl_offset + gl_idx, 1);
        assert(dinic.graph@.len() == dinic.net().len());
    }
    for bank_idx in 0..bank_count
        invariant
            gl_count == cands.len(),
            banks == bank_count,
            bank_offset == 1 + gl_count,
            sink == bank_offset + bank_count,
            gl_count + bank_count + 2 <= i32::MAX,
            dinic.wf(),
            dinic.graph@.len() == gl_count + bank_count + 2,
            partial_layout(
                dinic.net(),
                cands,
                banks,
                false,
                cands.len() as int,
                bank_idx as int,
                none_filled(cands.len()),
            ),
    {
        proof {
            lemma_layout_sink(dinic.net(), cands, banks, false, bank_idx as int);
        }
        dinic.add_edge(bank_offset + bank_idx, sink, 1);
        assert(dinic.graph@.len() == dinic.net().len());
    }
    let ghost mut filled = none_filled(cands.len());
    for gl_idx in 0..gl_count
        invariant
            gl_count == cands.len(),
            cands == lists(gl_candidates@),
            banks_in_range(cands, banks),
            banks == bank_count,
            gl_offset == 1,
            bank_offset == 1 + gl_count,
            gl_count + bank_count + 2 <= i32::MAX,
            dinic.wf(),
            dinic.graph@.len() == gl_count + bank_count + 2,
            partial_layout(
                dinic.net(),
                cands,
                banks,
                false,
                cands.len() as int,
                banks,
                filled,
            ),
            forall|g: int| 0 <= g < gl_idx ==> #[trigger] filled[g] == cands[g].len(),
            forall|g: int| gl_idx <= g < gl_count ==> #[trigger] filled[g] == 0,
    {
        let candidates = &gl_candidates[gl_idx];
        for k in 0..candidates.len()
            invariant
                gl_count == cands.len(),
                gl_idx < gl_count,
                cands == lists(gl_candidates@),
                candidates@ == cands[gl_idx as int],
                banks_in_range(cands, banks),
                banks == bank_count,
                gl_offset == 1,
                bank_offset == 1 + gl_count,
                gl_count + bank_count + 2 <= i32::MAX,
                dinic.wf(),
                dinic.graph@.len() == gl_count + bank_count + 2,
                partial_layout(
                    dinic.net(),
                    cands,
                    banks,
                    false,
                    cands.len() as int,
                    banks,
                    filled,
                ),
                forall|g: int| 0 <= g < gl_idx ==> #[trigger] filled[g] == cands[g].len(),
                forall|g: int| gl_idx < g < gl_count ==> #[trigger] filled[g] == 0,
                filled[gl_idx as int] == k,
        {
            let candidate = &candidates[k];
            proof {
                assert(cands[gl_idx as int][k as int] == *candidate);
                lemma_layout_candidate(dinic.net(), cands, banks, false, filled, gl_idx as int);
            }
            dinic.add_edge(gl_offset + gl_idx, bank_offset + candidate.bank_idx, 1);
            assert(dinic.graph@.len() == dinic.net().len());
            proof {
                filled = filled.update(gl_idx as int, k as int + 1);
            }
        }
    }
    let ghost net = dinic.net();
    proof {
        assert(filled =~= Seq::new(cands.len(), |g: int| cands[g].len() as int));
        assert forall|b: Seq<Seq<Link>>| #[trigger] is_flow(net, b, 0, sink as int) implies flow_value(
            net,
            b,
            0,
        ) <= i32::MAX by {
            lemma_value_at_most(net, cands, banks, false, b);
        }
    }
    let size = dinic.max_flow(source, sink);
    proof {
        let b = dinic.net();
        let a = reading(cands, b);
        lemma_reading(cands, b);
        lemma_maximum_flow_is_maximum_matching(net, cands, banks, false, b, a);
        lemma_flow_to_matching(net, cands, banks, false, b, a);
        lemma_count_bounds(a);
        lemma_maximum_size(cands, size as int);
    }
    size as usize
}

/// Only one number is the maximum size.
proof fn lemma_maximum_size(cands: Seq<Seq<Candidate>>, size: int)
    requires
        is_maximum_size(cands, size),
    ensures
        size == maximum_size(cands),
{
    let other = maximum_size(cands);
    assert(is_maximum_size(cands, other));
    let a = choose|a: Seq<Option<Assignment>>| #[trigger]
        is_maximum_matching(cands, a) && size == matched_count(a);
    let b = choose|b: Seq<Option<Assignment>>| #[trigger]
        is_maximum_matching(cands, b) && other == matched_count(b);
    assert(valid_matching(cands, a) && valid_matching(cands, b));
}

/// The matching that a flow carries out.
spec fn reading(cands: Seq<Seq<Candidate>>, b: Seq<Seq<Link>>) -> Seq<Option<Assignment>> {
    Seq::new(
        cands.len(),
        |g: int|
            if exists|k: int| 0 <= k < cands[g].len() && #[trigger] sends(b, g, k) {
                Some(
                    cands[g][choose|k: int|
                        0 <= k < cands[g].len() && #[trigger] sends(b, g, k)].taken(),
                )
            } else {
                None
            },
    )
}

proof fn lemma_reading(cands: Seq<Seq<Candidate>>, b: Seq<Seq<Link>>)
    ensures
        read_off(cands, b, reading(cands, b)),
{
    let a = reading(cands, b);
    assert forall|g: int| 0 <= g < cands.len() implies (match #[trigger] a[g] {
        Some(x) => exists|k: int|
            0 <= k < cands[g].len() && #[trigger] sends(b, g, k) && cands[g][k].taken() == x,
        None => forall|k: int| 0 <= k < cands[g].len() ==> !#[trigger] sends(b, g, k),
    }) by {}
}

proof fn lemma_count_bounds(a: Seq<Option<Assignment>>)
    ensures
        0 <= matched_count(a) <= a.len(),
{
    let f = |g: int| if a[g] is Some { 1int } else { 0int };
    lemma_sum_bounds(a.len() as int, f, 0, 1);
    let n = a.len() as int;
    assert(n * 0 == 0 && n * 1 == n) by (nonlinear_arith);
}

/// No flow has more units than there are entries.
proof fn lemma_value_at_most(
    net: Seq<Seq<Link>>,
    cands: Seq<Seq<Candidate>>,
    banks: int,
    priced: bool,
    b: Seq<Seq<Link>>,
)
    requires
        full_layout(net, cands, banks, priced),
        banks_in_range(cands, banks),
        is_flow(net, b, 0, 1 + cands.len() + banks),
    ensures
        0 <= flow_value(net, b, 0) <= cands.len(),
{
    let a = reading(cands, b);
    lemma_reading(cands, b);
    lemma_flow_to_matching(net, cands, banks, priced, b, a);
    lemma_count_bounds(a);
}

/// At most `target_flow` entries matched, as cheaply as that many can be: exactly that many where
/// so many can be matched at once, else as many as can be.
pub fn min_cost_flow_assign(
    gl_candidates: &[Vec<Candidate>],
    bank_count: usize,
    target_flow: usize,
) -> (assignments: Vec<Option<Assignment>>)
    requires
        banks_in_range(lists(gl_candidates@), bank_count as int),
        fits(lists(gl_candidates@), bank_count as int),
        target_flow <= i32::MAX,
    ensures
        is_cheapest_matching(lists(gl_candidates@), assignments@),
        matched_count(assignments@) <= target_flow,
        matched_count(assignments@) < target_flow ==> is_maximum_matching(
            lists(gl_candidates@),
            assignments@,
        ),
        assignments@ == flow_matching(
            lists(gl_candidates@),
            bank_count as int,
            target_flow as int,
        ),
{
    let gl_count = gl_candidates.len();
    let source = 0usize;
    let gl_offset = 1usize;
    let bank_offset = gl_offset + gl_count;
    let sink = bank_offset + bank_count;
    let ghost cands = lists(gl_candidates@);
    let ghost banks = bank_count as int;
    let ghost unlinked = no_links((cands.len() + banks + 2) as nat);
    let mut mcmf = MinCostMaxFlow::new(sink + 1);
    proof {
        lemma_layout_start(cands, banks, true);
        assert(mcmf.net() =~= unlinked);
    }
    for gl_idx in 0..gl_count
        invariant
            gl_count == cands.len(),
            banks == bank_count,
            source == 0,
            gl_offset == 1,
            gl_count + bank_count + 2 <= i32::MAX,
            mcmf.wf(),
            mcmf.graph@.len() == gl_count + bank_count + 2,
            mcmf.net() == with_entries(unlinked, gl_idx as int),
            partial_layout(
                mcmf.net(),
                cands,
                banks,
                true,
                gl_idx as int,
                0,
                none_filled(cands.len()),
            ),
    {
        proof {
            lemma_layout_source(mcmf.net(), cands, banks, true, gl_idx as int);
        }
        mcmf.add_edge(source, gl_offset + gl_idx, 1, 0);
        assert(mcmf.graph@.len() == mcmf.net().len());
    }
    for bank_idx in 0..bank_count
        invariant
            gl_count == cands.len(),
            banks == bank_count,
            bank_offset == 1 + gl_count,
            sink == bank_offset + bank_count,
            gl_count + bank_count + 2 <= i32::MAX,
            mcmf.wf(),
            mcmf.graph@.len() == gl_count + bank_count + 2,
            mcmf.net() == with_banks(
                with_entries(unlinked, gl_count as int),
                gl_count as int,
                banks,
                bank_idx as int,
            ),
            partial_layout(
                mcmf.net(),
                cands,
                banks,
                true,
                cands.len() as int,
                bank_idx as int,
                none_filled(cands.len()),
            ),
    {
        proof {
            lemma_layout_sink(mcmf.net(), cands, banks, true, bank_idx as int);
        }
        mcmf.add_edge(bank_offset + bank_idx, sink, 1, 0);
        assert(mcmf.graph@.len() == mcmf.net().len());
    }
    let ghost framed = mcmf.net();
    let ghost mut filled = none_filled(cands.len());
    for gl_idx in 0..gl_count
        invariant
            gl_count == cands.len(),
            cands == lists(gl_candidates@),
            banks_in_range(cands, banks),
            fits(cands, banks),
            banks == bank_count,
            mcmf.net() == with_candidates(framed, cands, gl_idx as int),
            gl_offset == 1,
            bank_offset == 1 + gl_count,
            gl_count + bank_count + 2 <= i32::MAX,
            mcmf.wf(),
            mcmf.graph@.len() == gl_count + bank_count + 2,
            partial_layout(mcmf.net(), cands, banks, true, cands.len() as int, banks, filled),
            forall|g: int| 0 <= g < gl_idx ==> #[trigger] filled[g] == cands[g].len(),
            forall|g: int| gl_idx <= g < gl_count ==> #[trigger] filled[g] == 0,
    {
        let candidates = &gl_candidates[gl_idx];
        let ghost so_far = mcmf.net();
        for k in 0..candidates.len()
            invariant
                gl_count == cands.len(),
                gl_idx < gl_count,
                cands == lists(gl_candidates@),
                candidates@ == cands[gl_idx as int],
                banks_in_range(cands, banks),
                fits(cands, banks),
                banks == bank_count,
                mcmf.net() == with_some_candidates(so_far, cands, gl_idx as int, k as int),
                gl_offset == 1,
                bank_offset == 1 + gl_count,
                gl_count + bank_count + 2 <= i32::MAX,
                mcmf.wf(),
                mcmf.graph@.len() == gl_count + bank_count + 2,
                partial_layout(mcmf.net(), cands, banks, true, cands.len() as int, banks, filled),
                forall|g: int| 0 <= g < gl_idx ==> #[trigger] filled[g] == cands[g].len(),
                forall|g: int| gl_idx < g < gl_count ==> #[trigger] filled[g] == 0,
                filled[gl_idx as int] == k,
        {
            let candidate = &candidates[k];
            proof {
                assert(cands[gl_idx as int][k as int] == *candidate);
                lemma_layout_candidate(mcmf.net(), cands, banks, true, filled, gl_idx as int);
                assert(cost_fits(*candidate));
                assert(candidate.bank_idx < banks);
            }
            let cost = candidate_cost(*candidate);
            mcmf.add_edge(gl_offset + gl_idx, bank_offset + candidate.bank_idx, 1, cost);
            assert(mcmf.graph@.len() == mcmf.net().len());
            proof {
                filled = filled.update(gl_idx as int, k as int + 1);
            }
        }
    }
    let ghost net = mcmf.net();
    proof {
        assert(filled =~= Seq::new(cands.len(), |g: int| cands[g].len() as int));
        assert(net == flow_network(cands, banks));
        lemma_layout_costs_fit(net, cands, banks);
        lemma_flow_costs_fit(net, cands, banks);
    }
    let (flow, _cost) = mcmf.push_cheapest(source, sink, target_flow as i32);
    let ghost b = mcmf.net();
    let mut assignments: Vec<Option<Assignment>> = vec![None; gl_count];
    proof {
        assert forall|g: int| 0 <= g < cands.len() implies #[trigger] b[1 + g].len() == 1 + cands[g].len() by {
            assert(net[1 + g].len() == 1 + cands[g].len());
        }
    }
    for gl_idx in 0..gl_count
        invariant
            gl_count == cands.len(),
            cands == lists(gl_candidates@),
            gl_offset == 1,
            b == mcmf.net(),
            b.len() == mcmf.graph@.len(),
            b.len() == gl_count + bank_count + 2,
            assignments@.len() == gl_count,
            gl_count + bank_count + 2 <= i32::MAX,
            forall|g: int| 0 <= g < cands.len() ==> #[trigger] b[1 + g].len() == 1 + cands[g].len(),
            forall|g: int| 0 <= g < gl_idx ==> #[trigger] assignments@[g] == first_sent(cands, b, g, 0),
            forall|g: int| gl_idx <= g < gl_count ==> #[trigger] assignments@[g] is None,
    {
        let node = gl_offset + gl_idx;
        let candidates = &gl_candidates[gl_idx];
        assert(b[1 + gl_idx].len() == 1 + cands[gl_idx as int].len());
        // link 0 of an entry leads back to the source
        let mut k: usize = 0;
        while k < candidates.len()
            invariant_except_break
                assignments@[gl_idx as int] is None,
                first_sent(cands, b, gl_idx as int, 0) == first_sent(
                    cands,
                    b,
                    gl_idx as int,
                    k as int,
                ),
            invariant
                node == 1 + gl_idx,
                gl_idx < gl_count,
                cands[gl_idx as int] == candidates@,
                b == mcmf.net(),
                b.len() == mcmf.graph@.len(),
                node < b.len(),
                b[node as int].len() == 1 + candidates@.len(),
                k <= candidates@.len(),
                assignments@.len() == gl_count,
                gl_count + bank_count + 2 <= i32::MAX,
                forall|g: int|
                    0 <= g < gl_idx ==> #[trigger] assignments@[g] == first_sent(cands, b, g, 0),
                forall|g: int| gl_idx < g < gl_count ==> #[trigger] assignments@[g] is None,
            ensures
                assignments@[gl_idx as int] == first_sent(cands, b, gl_idx as int, 0),
            decreases candidates@.len() - k,
        {
            let candidate = &candidates[k];
            assert(b[node as int][1 + k] == mcmf.graph@[node as int]@[1 + k].link());
            if mcmf.graph[node][1 + k].cap == 0 {
                assignments[gl_idx] = Some(assign(candidate));
                assert(sends(b, gl_idx as int, k as int));
                break;
            }
            k += 1;
        }
    }
    proof {
        let a = assignments@;
        assert(a =~= flow_matching(cands, banks, target_flow as int));
        assert(read_off(cands, b, a)) by {
            assert forall|g: int| 0 <= g < cands.len() implies (match #[trigger] a[g] {
                Some(x) => exists|k: int|
                    0 <= k < cands[g].len() && #[trigger] sends(b, g, k) && cands[g][k].taken() == x,
                None => forall|k: int| 0 <= k < cands[g].len() ==> !#[trigger] sends(b, g, k),
            }) by {
                lemma_first_sent(cands, b, g, 0);
            }
        }
        lemma_cheapest_flow_is_cheapest_matching(net, cands, banks, b, a);
        lemma_flow_to_matching(net, cands, banks, true, b, a);
        if matched_count(a) < target_flow {
            lemma_maximum_flow_is_maximum_matching(net, cands, banks, true, b, a);
        }
    }
    assignments
}

/// The first candidate over whose link a flow goes is one over whose link it goes.
proof fn lemma_first_sent(cands: Seq<Seq<Candidate>>, b: Seq<Seq<Link>>, g: int, k: int)
    requires
        0 <= k,
    ensures
        match first_sent(cands, b, g, k) {
            Some(x) => exists|j: int|
                k <= j < cands[g].len() && #[trigger] sends(b, g, j) && cands[g][j].taken() == x,
            None => forall|j: int| k <= j < cands[g].len() ==> !#[trigger] sends(b, g, j),
        },
    decreases cands[g].len() - k,
{
    if k < cands[g].len() && !sends(b, g, k) {
        lemma_first_sent(cands, b, g, k + 1);
    }
}

/// The network is fit for the search for cheap flows: entries can be priced at 0 and transactions
/// at the least cost of a candidate.
proof fn lemma_layout_costs_fit(net: Seq<Seq<Link>>, cands: Seq<Seq<Candidate>>, banks: int)
    requires
        full_layout(net, cands, banks, true),
        banks_in_range(cands, banks),
        fits(cands, banks),
    ensures
        costs_fit(net, 0, cost_limit()),
{
    let n = cands.len() as int;
    let c = cost_limit();
    let q = Seq::new(net.len(), |v: int| if v <= n { 0int } else { -c });
    assert forall|v: int, i: int| #![trigger net[v][i]] has_link(net, v, i) implies {
        &&& -c <= net[v][i].cost <= c
        &&& net[v][i].cap > 0 ==> net[v][i].cost + q[v] - q[net[v][i].to] >= 0
    } by {
        let l = net[v][i];
        assert(has_link(net, l.to, l.rev));
        if 1 <= v <= n {
            let g = v - 1;
            assert(net[1 + g].len() == 1 + cands[g].len());
            if i == 0 {
                assert(net[1 + g][0].cost == 0);
            } else {
                let k = i - 1;
                assert(net[1 + g][1 + k].cost == link_price(true, cands[g][k]));
                assert(cands[g][k].bank_idx < banks);
                assert(cost_fits(cands[g][k]));
            }
        } else if n < v <= n + banks {
            let x = v - 1 - n;
            assert(net[1 + n + x].len() >= 1);
            assert(net[1 + n + x][0].cost == 0);
            if i > 0 {
                assert(net[1 + n + x][i].cap == 0);
                let g = l.to - 1;
                let k = l.rev - 1;
                assert(net[1 + g].len() == 1 + cands[g].len());
                assert(net[1 + g][1 + k].cost == link_price(true, cands[g][k]));
                assert(cost_fits(cands[g][k]));
            }
        } else if v == 0 {
            assert(net[0][i].cost == 0);
        } else {
            assert(net[1 + n + banks][i].cost == 0);
        }
    }
    assert(feasible_prices(net, q));
    let m = net.len() as int;
    assert(c <= m * c <= 0x7fff_ffff * 0x8000_0000_0000_0000) by (nonlinear_arith)
        requires
            1 <= m <= 0x7fff_ffff,
            c == 0x8000_0000_0000_0000,
    ;
}

/// What a flow costs can be counted.
proof fn lemma_flow_costs_fit(net: Seq<Seq<Link>>, cands: Seq<Seq<Candidate>>, banks: int)
    requires
        full_layout(net, cands, banks, true),
        banks_in_range(cands, banks),
        fits(cands, banks),
    ensures
        flow_costs_within(net, 0, 1 + cands.len() + banks, i128::MAX / 4),
{
    let n = cands.len() as int;
    let c = cost_limit();
    assert forall|b: Seq<Seq<Link>>| #[trigger] is_flow(net, b, 0, 1 + n + banks) implies -2 * (
    i128::MAX / 4) <= twice_flow_cost(net, b) <= 2 * (i128::MAX / 4) by {
        lemma_cost_by_entry(net, cands, banks, true, b);
        let each = |g: int| entry_cost(cands, true, b, g);
        assert forall|g: int| 0 <= g < n implies -c <= #[trigger] each(g) <= c by {
            lemma_entry_cost_fits(net, cands, banks, b, g);
        }
        lemma_sum_bounds(n, each, -c, c);
        assert(n * c <= 0x7fff_ffff * 0x8000_0000_0000_0000 && n * (-c) >= -(0x7fff_ffff
            * 0x8000_0000_0000_0000)) by (nonlinear_arith)
            requires
                0 <= n <= 0x7fff_ffff,
                c == 0x8000_0000_0000_0000,
        ;
    }
}

/// At most one candidate of an entry is paid for.
proof fn lemma_entry_cost_fits(
    net: Seq<Seq<Link>>,
    cands: Seq<Seq<Candidate>>,
    banks: int,
    b: Seq<Seq<Link>>,
    g: int,
)
    requires
        full_layout(net, cands, banks, true),
        banks_in_range(cands, banks),
        fits(cands, banks),
        is_flow(net, b, 0, 1 + cands.len() + banks),
        0 <= g < cands.len(),
    ensures
        -cost_limit() <= entry_cost(cands, true, b, g) <= cost_limit(),
{
    let c = cost_limit();
    lemma_entry_flow(net, cands, banks, true, b, g);
    let m = cands[g].len() as int;
    let costs = |k: int| link_price(true, cands[g][k]) * (1 - b[1 + g][1 + k].cap);
    let units = |k: int| 1 - b[1 + g][1 + k].cap;
    let high = |k: int| c * units(k);
    let low = |k: int| (-c) * units(k);
    assert forall|k: int| 0 <= k < m implies low(k) <= #[trigger] costs(k) <= high(k) by {
        let p = cands[g][k].cost();
        let u = 1 - b[1 + g][1 + k].cap;
        assert(cost_fits(cands[g][k]));
        assert(0 <= b[1 + g][1 + k].cap <= 1);
        assert((-c) * u <= p * u <= c * u) by (nonlinear_arith)
            requires
                -c <= p <= c,
                0 <= u <= 1,
        ;
    }
    lemma_sum_le(m, low, costs);
    lemma_sum_le(m, costs, high);
    lemma_sum_scale(m, c, units);
    lemma_sum_scale(m, -c, units);
    assert(sum(m, costs) == entry_cost(cands, true, b, g));
    let u = sum(m, units);
    assert(0 <= u <= 1);
    assert(c * u <= c && (-c) * u >= -c) by (nonlinear_arith)
        requires
            0 <= u <= 1,
            c >= 0,
    ;
}

/// As many entries matched as can be, and no such matching costs less.
pub fn match_maxflow(gl_candidates: &[Vec<Candidate>], bank_count: usize) -> (assignments: Vec<
    Option<Assignment>,
>)
    requires
        banks_in_range(lists(gl_candidates@), bank_count as int),
        fits(lists(gl_candidates@), bank_count as int),
    ensures
        is_maximum_matching(lists(gl_candidates@), assignments@),
        is_cheapest_matching(lists(gl_candidates@), assignments@),
        // which of several such matchings it is
        assignments@ == flow_matching(
            lists(gl_candidates@),
            bank_count as int,
            maximum_size(lists(gl_candidates@)),
        ),
{
    let max_cardinality = max_cardinality_flow(gl_candidates, bank_count);
    min_cost_flow_assign(gl_candidates, bank_count, max_cardinality)
}

} // verus!
