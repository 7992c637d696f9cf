//! Matchings between journal entries and bank transactions, and the flow networks that
//! find them.
//!
//! Node 0 is the source; then comes a node for each journal entry, then one for each bank
//! transaction, then the sink. A unit that flows from an entry to a transaction matches the two.
use vstd::prelude::*;

use crate::candidate::{banks_in_range, Assignment, Candidate};
use crate::network::{
    flow_value, has_link, is_flow, lemma_antisymmetric_sum, lemma_with_edge, network_wf, out_cap,
    partner, row_lens, same_shape, twice_flow_cost, with_edge, Link,
};
use crate::sums::{
    lemma_sum_eq, lemma_sum_point, lemma_sum_shift, lemma_sum_single, lemma_sum_sub, lemma_sum_two,
    lemma_sum_window, lemma_sum_zero, lemma_table_add, lemma_table_eq, sum,
};

verus! {

/// Each matched entry takes one of its candidates, and no bank transaction is taken twice.
pub open spec fn valid_matching(
    cands: Seq<Seq<Candidate>>,
    a: Seq<Option<Assignment>>,
) -> bool {
    &&& a.len() == cands.len()
    &&& forall|g: int|
        0 <= g < a.len() && #[trigger] a[g] is Some ==> exists|k: int|
            0 <= k < cands[g].len() && #[trigger] cands[g][k].taken() == a[g]->0
    &&& one_to_one(a)
}

/// No bank transaction is taken twice.
pub open spec fn one_to_one(a: Seq<Option<Assignment>>) -> bool {
    forall|g: int, h: int|
        0 <= g < h < a.len() && #[trigger] a[g] is Some && #[trigger] a[h] is Some ==> a[g]->0.bank_idx
            != a[h]->0.bank_idx
}

/// How many entries are matched.
pub open spec fn matched_count(a: Seq<Option<Assignment>>) -> int {
    sum(a.len() as int, |g: int| if a[g] is Some { 1 } else { 0 })
}

/// What the matching costs in all.
pub open spec fn matched_cost(a: Seq<Option<Assignment>>) -> int {
    sum(a.len() as int, |g: int| if a[g] is Some { a[g]->0.cost() } else { 0 })
}

/// No matching matches more entries.
pub open spec fn is_maximum_matching(
    cands: Seq<Seq<Candidate>>,
    a: Seq<Option<Assignment>>,
) -> bool {
    &&& valid_matching(cands, a)
    &&& forall|b: Seq<Option<Assignment>>| #[trigger]
        valid_matching(cands, b) ==> matched_count(b) <= matched_count(a)
}

/// No matching of as many entries costs less.
pub open spec fn is_cheapest_matching(
    cands: Seq<Seq<Candidate>>,
    a: Seq<Option<Assignment>>,
) -> bool {
    &&& valid_matching(cands, a)
    &&& forall|b: Seq<Option<Assignment>>| #[trigger]
        valid_matching(cands, b) && matched_count(b) == matched_count(a) ==> matched_cost(a)
            <= matched_cost(b)
}

/// What the link for a candidate costs.
pub open spec fn link_price(priced: bool, c: Candidate) -> int {
    if priced {
        c.cost()
    } else {
        0
    }
}

/// The network for `cands`, as far as it has been built: `a` entries are linked with the source,
/// `b` transactions with the sink, and entry `g` with its first `filled[g]` candidates.
pub open spec fn partial_layout(
    net: Seq<Seq<Link>>,
    cands: Seq<Seq<Candidate>>,
    banks: int,
    priced: bool,
    a: int,
    b: int,
    filled: Seq<int>,
) -> bool {
    let n = cands.len() as int;
    let sink = 1 + n + banks;
    &&& 0 <= banks
    &&& net.len() == n + banks + 2
    &&& 0 <= a <= n
    &&& 0 <= b <= banks
    &&& filled.len() == n
    &&& network_wf(net)
    &&& net[0].len() == a
    &&& forall|g: int|
        0 <= g < a ==> #[trigger] net[0][g] == (Link { to: 1 + g, rev: 0, cap: 1, cost: 0 })
    &&& forall|g: int|
        0 <= g < n ==> #[trigger] net[1 + g].len() == (if g < a { 1 + filled[g] } else { 0 })
    &&& forall|g: int| 0 <= g < n ==> 0 <= #[trigger] filled[g] <= cands[g].len()
    &&& forall|g: int|
        0 <= g < a ==> #[trigger] net[1 + g][0] == (Link { to: 0, rev: g, cap: 0, cost: 0 })
    &&& forall|g: int, k: int|
        0 <= g < n && 0 <= k < filled[g] ==> {
            let l = #[trigger] net[1 + g][1 + k];
            &&& l.to == 1 + n + cands[g][k].bank_idx
            &&& l.rev >= 1
            &&& l.cap == 1
            &&& l.cost == link_price(priced, cands[g][k])
        }
    &&& forall|x: int| 0 <= x < b ==> #[trigger] net[1 + n + x].len() >= 1
    &&& forall|x: int| b <= x < banks ==> #[trigger] net[1 + n + x].len() == 0
    &&& forall|x: int|
        0 <= x < b ==> #[trigger] net[1 + n + x][0] == (Link { to: sink, rev: x, cap: 1, cost: 0 })
    &&& forall|x: int, j: int|
        0 <= x < b && 1 <= j < net[1 + n + x].len() ==> {
            let l = #[trigger] net[1 + n + x][j];
            &&& 1 <= l.to <= n
            &&& l.rev >= 1
            &&& l.cap == 0
        }
    &&& net[sink].len() == b
    &&& forall|x: int|
        0 <= x < b ==> #[trigger] net[sink][x] == (Link { to: 1 + n + x, rev: 0, cap: 0, cost: 0 })
}

/// The whole network for `cands`.
pub open spec fn full_layout(
    net: Seq<Seq<Link>>,
    cands: Seq<Seq<Candidate>>,
    banks: int,
    priced: bool,
) -> bool {
    partial_layout(
        net,
        cands,
        banks,
        priced,
        cands.len() as int,
        banks,
        Seq::new(cands.len(), |g: int| cands[g].len() as int),
    )
}

/// A network of `n` nodes without links.
pub open spec fn no_links(n: nat) -> Seq<Seq<Link>> {
    Seq::new(n, |v: int| Seq::<Link>::empty())
}

/// No candidate is linked.
pub open spec fn none_filled(n: nat) -> Seq<int> {
    Seq::new(n, |g: int| 0int)
}

/// Nothing is linked yet.
pub proof fn lemma_layout_start(cands: Seq<Seq<Candidate>>, banks: int, priced: bool)
    requires
        0 <= banks,
    ensures
        partial_layout(
            no_links((cands.len() + banks + 2) as nat),
            cands,
            banks,
            priced,
            0,
            0,
            none_filled(cands.len()),
        ),
{
}

/// Linking the next entry with the source.
pub proof fn lemma_layout_source(
    net: Seq<Seq<Link>>,
    cands: Seq<Seq<Candidate>>,
    banks: int,
    priced: bool,
    a: int,
)
    requires
        partial_layout(net, cands, banks, priced, a, 0, none_filled(cands.len())),
        a < cands.len(),
    ensures
        partial_layout(
            with_edge(net, 0, 1 + a, 1, 0),
            cands,
            banks,
            priced,
            a + 1,
            0,
            none_filled(cands.len()),
        ),
{
    lemma_with_edge(net, 0, 1 + a, 1, 0);
}

/// Linking the next transaction with the sink.
pub proof fn lemma_layout_sink(
    net: Seq<Seq<Link>>,
    cands: Seq<Seq<Candidate>>,
    banks: int,
    priced: bool,
    b: int,
)
    requires
        partial_layout(net, cands, banks, priced, cands.len() as int, b, none_filled(cands.len())),
        b < banks,
    ensures
        partial_layout(
            with_edge(net, 1 + cands.len() + b, 1 + cands.len() + banks, 1, 0),
            cands,
            banks,
            priced,
            cands.len() as int,
            b + 1,
            none_filled(cands.len()),
        ),
{
    let n = cands.len() as int;
    let next = with_edge(net, 1 + n + b, 1 + n + banks, 1, 0);
    lemma_with_edge(net, 1 + n + b, 1 + n + banks, 1, 0);
    assert forall|g: int| 0 <= g < n implies #[trigger] next[1 + g] == net[1 + g] by {}
}

/// Linking entry `g` with its next candidate.
pub proof fn lemma_layout_candidate(
    net: Seq<Seq<Link>>,
    cands: Seq<Seq<Candidate>>,
    banks: int,
    priced: bool,
    filled: Seq<int>,
    g: int,
)
    requires
        partial_layout(net, cands, banks, priced, cands.len() as int, banks, filled),
        banks_in_range(cands, banks),
        0 <= g < cands.len(),
        filled[g] < cands[g].len(),
    ensures
        partial_layout(
            with_edge(
                net,
                1 + g,
                1 + cands.len() + cands[g][filled[g]].bank_idx,
                1,
                link_price(priced, cands[g][filled[g]]),
            ),
            cands,
            banks,
            priced,
            cands.len() as int,
            banks,
            filled.update(g, filled[g] + 1),
        ),
        net[1 + g].len() == 1 + filled[g],
{
    let n = cands.len() as int;
    let c = cands[g][filled[g]];
    let to = 1 + n + c.bank_idx;
    let price = link_price(priced, c);
    let next = with_edge(net, 1 + g, to, 1, price);
    let filled2 = filled.update(g, filled[g] + 1);
    assert(c.bank_idx < banks);
    lemma_with_edge(net, 1 + g, to, 1, price);
    assert(net[1 + g].len() == 1 + filled[g]);
    assert(net[1 + n + c.bank_idx].len() >= 1);
    assert(next[0] == net[0]);
    assert(next[1 + n + banks] == net[1 + n + banks]);
    assert forall|h: int| 0 <= h < n implies #[trigger] next[1 + h].len() == 1 + filled2[h] by {
        assert(net[1 + h].len() == 1 + filled[h]);
    }
    assert forall|h: int| 0 <= h < n implies #[trigger] next[1 + h][0] == (Link {
        to: 0,
        rev: h,
        cap: 0,
        cost: 0,
    }) by {
        assert(net[1 + h][0] == (Link { to: 0, rev: h, cap: 0, cost: 0 }));
        assert(net[1 + h].len() == 1 + filled[h]);
    }
    assert forall|h: int, k: int| 0 <= h < n && 0 <= k < filled2[h] implies {
        let l = #[trigger] next[1 + h][1 + k];
        &&& l.to == 1 + n + cands[h][k].bank_idx
        &&& l.rev >= 1
        &&& l.cap == 1
        &&& l.cost == link_price(priced, cands[h][k])
    } by {
        assert(net[1 + h].len() == 1 + filled[h]);
        if k < filled[h] {
            assert(net[1 + h][1 + k].to == 1 + n + cands[h][k].bank_idx);
            assert(next[1 + h][1 + k] == net[1 + h][1 + k]);
        }
    }
    assert forall|x: int| 0 <= x < banks implies #[trigger] next[1 + n + x].len() >= 1 by {
        assert(net[1 + n + x].len() >= 1);
    }
    assert forall|x: int| 0 <= x < banks implies #[trigger] next[1 + n + x][0] == (Link {
        to: 1 + n + banks,
        rev: x,
        cap: 1,
        cost: 0,
    }) by {
        assert(net[1 + n + x].len() >= 1);
        assert(net[1 + n + x][0] == (Link { to: 1 + n + banks, rev: x, cap: 1, cost: 0 }));
    }
    assert forall|x: int, j: int| 0 <= x < banks && 1 <= j < next[1 + n + x].len() implies {
        let l = #[trigger] next[1 + n + x][j];
        &&& 1 <= l.to <= n
        &&& l.rev >= 1
        &&& l.cap == 0
    } by {
        if j < net[1 + n + x].len() {
            assert(net[1 + n + x][j].cap == 0);
            assert(next[1 + n + x][j] == net[1 + n + x][j]);
        }
    }
}

/// Entry `g` sends its unit to its candidate `k`.
pub open spec fn sends(b: Seq<Seq<Link>>, g: int, k: int) -> bool {
    b[1 + g][1 + k].cap == 0
}

/// `a` is the matching that can be read off the flow `b`.
pub open spec fn read_off(
    cands: Seq<Seq<Candidate>>,
    b: Seq<Seq<Link>>,
    a: Seq<Option<Assignment>>,
) -> bool {
    &&& a.len() == cands.len()
    &&& forall|g: int|
        0 <= g < cands.len() ==> (match #[trigger] a[g] {
            Some(x) => exists|k: int|
                0 <= k < cands[g].len() && #[trigger] sends(b, g, k) && cands[g][k].taken() == x,
            None => forall|k: int| 0 <= k < cands[g].len() ==> !#[trigger] sends(b, g, k),
        })
}

/// In a flow, what an entry receives from the source it sends on, one unit at most.
pub proof fn lemma_entry_flow(
    net: Seq<Seq<Link>>,
    cands: Seq<Seq<Candidate>>,
    banks: int,
    priced: bool,
    b: Seq<Seq<Link>>,
    g: int,
)
    requires
        full_layout(net, cands, banks, priced),
        banks_in_range(cands, banks),
        is_flow(net, b, 0, 1 + cands.len() + banks),
        0 <= g < cands.len(),
    ensures
        0 <= b[0][g].cap <= 1,
        b[1 + g].len() == 1 + cands[g].len(),
        forall|k: int| 0 <= k < cands[g].len() ==> 0 <= #[trigger] b[1 + g][1 + k].cap <= 1,
        sum(cands[g].len() as int, |k: int| 1 - b[1 + g][1 + k].cap) == 1 - b[0][g].cap,
{
    let n = cands.len() as int;
    let m = cands[g].len() as int;
    assert(net[1 + g].len() == 1 + m);
    assert(net[0][g] == (Link { to: 1 + g, rev: 0, cap: 1, cost: 0 }));
    assert(net[1 + g][0] == (Link { to: 0, rev: g, cap: 0, cost: 0 }));
    assert(net[0].len() == b[0].len());
    assert(net[1 + g].len() == b[1 + g].len());
    assert(has_link(net, 0, g));
    assert(has_link(net, 1 + g, 0));
    assert(net[0][g].cap + partner(net, 0, g).cap == b[0][g].cap + partner(b, 0, g).cap);
    assert(b[0][g].to == 1 + g && b[0][g].rev == 0);
    assert(b[0][g].cap + b[1 + g][0].cap == 1);
    assert forall|k: int| 0 <= k < m implies 0 <= #[trigger] b[1 + g][1 + k].cap <= 1 by {
        let l = net[1 + g][1 + k];
        assert(has_link(net, 1 + g, 1 + k));
        assert(l.cap == 1);
        assert(b[1 + g][1 + k].to == l.to && b[1 + g][1 + k].rev == l.rev);
        let x = cands[g][k].bank_idx as int;
        assert(cands[g][k].bank_idx < banks);
        assert(l.to == 1 + n + x);
        assert(has_link(net, l.to, l.rev));
        assert(net[1 + n + x][l.rev].cap == 0);
        assert(net[l.to].len() == b[l.to].len());
        assert(b[l.to][l.rev].cap >= 0);
    }
    let fa = |i: int| net[1 + g][i].cap;
    let fb = |i: int| b[1 + g][i].cap;
    lemma_sum_shift(m, fa);
    lemma_sum_shift(m, fb);
    let ga = |k: int| fa(1 + k);
    let gb = |k: int| fb(1 + k);
    lemma_sum_sub(m, ga, gb);
    assert(out_cap(net, 1 + g) == out_cap(b, 1 + g));
    let diff = |k: int| ga(k) - gb(k);
    let want = |k: int| 1 - b[1 + g][1 + k].cap;
    assert forall|k: int| 0 <= k < m implies #[trigger] diff(k) == want(k) by {
        assert(net[1 + g][1 + k].cap == 1);
    }
    lemma_sum_eq(m, diff, want);
}

/// An entry that receives nothing sends nothing; one that receives a unit sends it to exactly
/// one candidate.
proof fn lemma_entry_sends_once(
    net: Seq<Seq<Link>>,
    cands: Seq<Seq<Candidate>>,
    banks: int,
    priced: bool,
    b: Seq<Seq<Link>>,
    g: int,
    k: int,
    j: int,
)
    requires
        full_layout(net, cands, banks, priced),
        banks_in_range(cands, banks),
        is_flow(net, b, 0, 1 + cands.len() + banks),
        0 <= g < cands.len(),
        0 <= k < cands[g].len(),
        0 <= j < cands[g].len(),
        sends(b, g, k),
        sends(b, g, j),
    ensures
        k == j,
{
    lemma_entry_flow(net, cands, banks, priced, b, g);
    if k != j {
        let want = |k: int| 1 - b[1 + g][1 + k].cap;
        assert forall|i: int| 0 <= i < cands[g].len() implies #[trigger] want(i) >= 0 by {
            assert(b[1 + g][1 + i].cap <= 1);
        }
        lemma_sum_two(cands[g].len() as int, want, k, j);
    }
}

/// No transaction receives from two entries.
proof fn lemma_bank_receives_once(
    net: Seq<Seq<Link>>,
    cands: Seq<Seq<Candidate>>,
    banks: int,
    priced: bool,
    b: Seq<Seq<Link>>,
    g: int,
    k: int,
    h: int,
    j: int,
)
    requires
        full_layout(net, cands, banks, priced),
        banks_in_range(cands, banks),
        is_flow(net, b, 0, 1 + cands.len() + banks),
        0 <= g < cands.len(),
        0 <= h < cands.len(),
        g != h,
        0 <= k < cands[g].len(),
        0 <= j < cands[h].len(),
        sends(b, g, k),
        sends(b, h, j),
    ensures
        cands[g][k].bank_idx != cands[h][j].bank_idx,
{
    if cands[g][k].bank_idx == cands[h][j].bank_idx {
        let n = cands.len() as int;
        let x = cands[g][k].bank_idx as int;
        assert(cands[g][k].bank_idx < banks);
        let node = 1 + n + x;
        assert(net[1 + g].len() == 1 + cands[g].len());
        assert(net[1 + h].len() == 1 + cands[h].len());
        assert(has_link(net, 1 + g, 1 + k));
        assert(has_link(net, 1 + h, 1 + j));
        let p = net[1 + g][1 + k].rev;
        let r = net[1 + h][1 + j].rev;
        assert(net[1 + g][1 + k].to == node && net[1 + h][1 + j].to == node);
        assert(has_link(net, node, p) && has_link(net, node, r));
        assert(net[node][p].to == 1 + g);
        assert(net[node][r].to == 1 + h);
        assert(p != r);
        lemma_received(net, cands, banks, priced, b, g, k);
        lemma_received(net, cands, banks, priced, b, h, j);
        let m = net[node].len() as int;
        assert(net[node].len() == b[node].len());
        let fb = |i: int| b[node][i].cap;
        assert forall|i: int| 0 <= i < m implies #[trigger] fb(i) >= 0 by {
            assert(has_link(b, node, i));
            assert(b[node][i].cap >= 0);
        }
        lemma_sum_two(m, fb, p, r);
        assert(out_cap(net, node) == out_cap(b, node));
        let fa = |i: int| net[node][i].cap;
        assert(net[1 + n + x][0].cap == 1);
        assert forall|i: int| 0 <= i < m && i != 0 implies #[trigger] fa(i) == 0 by {
            assert(net[1 + n + x][i].cap == 0);
        }
        lemma_sum_single(m, fa, 0);
    }
}

/// What entry `g` sends to its candidate `k` arrives there.
proof fn lemma_received(
    net: Seq<Seq<Link>>,
    cands: Seq<Seq<Candidate>>,
    banks: int,
    priced: bool,
    b: Seq<Seq<Link>>,
    g: int,
    k: int,
)
    requires
        full_layout(net, cands, banks, priced),
        banks_in_range(cands, banks),
        is_flow(net, b, 0, 1 + cands.len() + banks),
        0 <= g < cands.len(),
        0 <= k < cands[g].len(),
    ensures
        has_link(net, 1 + g, 1 + k),
        has_link(net, net[1 + g][1 + k].to, net[1 + g][1 + k].rev),
        b[net[1 + g][1 + k].to][net[1 + g][1 + k].rev].cap == 1 - b[1 + g][1 + k].cap,
{
    let n = cands.len() as int;
    assert(net[1 + g].len() == 1 + cands[g].len());
    let l = net[1 + g][1 + k];
    assert(has_link(net, 1 + g, 1 + k));
    assert(l.cap == 1);
    let x = cands[g][k].bank_idx as int;
    assert(cands[g][k].bank_idx < banks);
    assert(l.to == 1 + n + x);
    assert(has_link(net, l.to, l.rev));
    assert(net[1 + n + x][l.rev].cap == 0);
    assert(b[1 + g][1 + k].to == l.to && b[1 + g][1 + k].rev == l.rev);
    assert(l.cap + partner(net, 1 + g, 1 + k).cap == b[1 + g][1 + k].cap + partner(
        b,
        1 + g,
        1 + k,
    ).cap);
}

/// The value of a flow counts the entries that receive a unit.
pub proof fn lemma_value_counts(
    net: Seq<Seq<Link>>,
    cands: Seq<Seq<Candidate>>,
    banks: int,
    priced: bool,
    b: Seq<Seq<Link>>,
)
    requires
        full_layout(net, cands, banks, priced),
        same_shape(net, b),
    ensures
        flow_value(net, b, 0) == sum(cands.len() as int, |g: int| 1 - b[0][g].cap),
{
    let n = cands.len() as int;
    assert(net[0].len() == b[0].len());
    let fa = |g: int| net[0][g].cap;
    let fb = |g: int| b[0][g].cap;
    lemma_sum_sub(n, fa, fb);
    let diff = |g: int| fa(g) - fb(g);
    let want = |g: int| 1 - b[0][g].cap;
    assert forall|g: int| 0 <= g < n implies #[trigger] diff(g) == want(g) by {
        assert(net[0][g].cap == 1);
    }
    lemma_sum_eq(n, diff, want);
}

/// The cost of a flow is what the entries spend on the candidates they send to.
pub proof fn lemma_cost_by_entry(
    net: Seq<Seq<Link>>,
    cands: Seq<Seq<Candidate>>,
    banks: int,
    priced: bool,
    b: Seq<Seq<Link>>,
)
    requires
        full_layout(net, cands, banks, priced),
        banks_in_range(cands, banks),
        is_flow(net, b, 0, 1 + cands.len() + banks),
    ensures
        twice_flow_cost(net, b) == 2 * sum(cands.len() as int, |g: int| entry_cost(cands, priced, b, g)),
{
    let n = cands.len() as int;
    let sink = 1 + n + banks;
    let lens = row_lens(net);
    let all = |v: int, i: int| net[v][i].cost * (net[v][i].cap - b[v][i].cap);
    let there = |v: int, i: int| if 1 <= v <= n { all(v, i) } else { 0 };
    let d = |v: int, i: int| if 1 <= v <= n { all(v, i) } else { -all(v, i) };
    assert forall|v: int, i: int| #![trigger d(v, i)] has_link(net, v, i) implies d(
        net[v][i].to,
        net[v][i].rev,
    ) == -d(v, i) by {
        let l = net[v][i];
        assert(has_link(net, l.to, l.rev));
        assert(net[l.to][l.rev].to == v && net[l.to][l.rev].cost == -l.cost);
        assert(l.cap + partner(net, v, i).cap == b[v][i].cap + partner(b, v, i).cap);
        assert(b[v][i].to == l.to && b[v][i].rev == l.rev);
        let c = l.cost;
        let z = l.cap - b[v][i].cap;
        assert(net[l.to][l.rev].cap - b[l.to][l.rev].cap == -z);
        assert((-c) * (-z) == c * z) by (nonlinear_arith);
        assert(all(l.to, l.rev) == all(v, i));
        lemma_layout_links(net, cands, banks, priced, v, i);
        if !((1 <= v <= n) != (1 <= l.to <= n)) {
            assert(c == 0);
            assert(c * z == 0) by (nonlinear_arith)
                requires
                    c == 0,
            ;
        }
    }
    lemma_antisymmetric_sum(net, d);
    // all + d = 2 * there
    lemma_table_add(lens, all, d);
    lemma_table_add(lens, there, there);
    lemma_table_eq(
        lens,
        |v: int, i: int| all(v, i) + d(v, i),
        |v: int, i: int| there(v, i) + there(v, i),
    );
    // there, row by row
    let rows = |v: int| sum(lens[v], |i: int| there(v, i));
    assert forall|v: int| 0 <= v < net.len() && !(1 <= v < 1 + n) implies #[trigger] rows(v) == 0 by {
        lemma_sum_zero(lens[v], |i: int| there(v, i));
    }
    lemma_sum_window(net.len() as int, rows, 1, n);
    let shifted = |g: int| rows(1 + g);
    let want = |g: int| entry_cost(cands, priced, b, g);
    assert forall|g: int| 0 <= g < n implies #[trigger] shifted(g) == want(g) by {
        let m = cands[g].len() as int;
        assert(net[1 + g].len() == 1 + m);
        assert(lens[1 + g] == 1 + m);
        let row = |i: int| there(1 + g, i);
        lemma_sum_shift(m, row);
        assert(net[1 + g][0].cost == 0);
        let z = net[1 + g][0].cap - b[1 + g][0].cap;
        assert(0 * z == 0) by (nonlinear_arith);
        assert(row(0) == 0);
        let tail = |k: int| row(1 + k);
        let spent = |k: int| link_price(priced, cands[g][k]) * (1 - b[1 + g][1 + k].cap);
        assert forall|k: int| 0 <= k < m implies #[trigger] tail(k) == spent(k) by {
            assert(net[1 + g][1 + k].cap == 1);
        }
        lemma_sum_eq(m, tail, spent);
    }
    lemma_sum_eq(n, shifted, want);
}

/// What entry `g` spends.
pub open spec fn entry_cost(
    cands: Seq<Seq<Candidate>>,
    priced: bool,
    b: Seq<Seq<Link>>,
    g: int,
) -> int {
    sum(
        cands[g].len() as int,
        |k: int| link_price(priced, cands[g][k]) * (1 - b[1 + g][1 + k].cap),
    )
}

/// A link either joins an entry with a node that is none, or is free of cost.
proof fn lemma_layout_links(
    net: Seq<Seq<Link>>,
    cands: Seq<Seq<Candidate>>,
    banks: int,
    priced: bool,
    v: int,
    i: int,
)
    requires
        full_layout(net, cands, banks, priced),
        banks_in_range(cands, banks),
        has_link(net, v, i),
    ensures
        ({
            let n = cands.len() as int;
            let l = net[v][i];
            (1 <= v <= n) != (1 <= l.to <= n) || l.cost == 0
        }),
{
    let n = cands.len() as int;
    if v == 0 {
        assert(net[0][i].cost == 0);
    } else if v <= n {
        let g = v - 1;
        assert(net[1 + g].len() == 1 + cands[g].len());
        if i == 0 {
            assert(net[1 + g][0].cost == 0);
        } else {
            let k = i - 1;
            assert(net[1 + g][1 + k].to == 1 + n + cands[g][k].bank_idx);
        }
    } else if v < 1 + n + banks {
        let x = v - 1 - n;
        if i == 0 {
            assert(net[1 + n + x][0].cost == 0);
        } else {
            assert(1 <= net[1 + n + x][i].to <= n);
        }
    } else {
        assert(net[1 + n + banks][i].cost == 0);
    }
}

/// The matching that is read off a flow matches as many entries as the flow has units, and
/// costs as much.
pub proof fn lemma_flow_to_matching(
    net: Seq<Seq<Link>>,
    cands: Seq<Seq<Candidate>>,
    banks: int,
    priced: bool,
    b: Seq<Seq<Link>>,
    a: Seq<Option<Assignment>>,
)
    requires
        full_layout(net, cands, banks, priced),
        banks_in_range(cands, banks),
        is_flow(net, b, 0, 1 + cands.len() + banks),
        read_off(cands, b, a),
    ensures
        valid_matching(cands, a),
        matched_count(a) == flow_value(net, b, 0),
        priced ==> 2 * matched_cost(a) == twice_flow_cost(net, b),
{
    let n = cands.len() as int;
    assert(one_to_one(a)) by {
        assert forall|g: int, h: int|
            0 <= g < h < a.len() && #[trigger] a[g] is Some && #[trigger] a[h] is Some implies a[g]->0.bank_idx
            != a[h]->0.bank_idx by {
            let k = choose|k: int|
                0 <= k < cands[g].len() && #[trigger] sends(b, g, k) && cands[g][k].taken() == a[g]->0;
            let j = choose|k: int|
                0 <= k < cands[h].len() && #[trigger] sends(b, h, k) && cands[h][k].taken() == a[h]->0;
            lemma_bank_receives_once(net, cands, banks, priced, b, g, k, h, j);
        }
    }
    assert forall|g: int| 0 <= g < a.len() && #[trigger] a[g] is Some implies exists|k: int|
        0 <= k < cands[g].len() && #[trigger] cands[g][k].taken() == a[g]->0 by {
        let k = choose|k: int|
            0 <= k < cands[g].len() && #[trigger] sends(b, g, k) && cands[g][k].taken() == a[g]->0;
        assert(cands[g][k].taken() == a[g]->0);
    }
    lemma_value_counts(net, cands, banks, priced, b);
    lemma_cost_by_entry(net, cands, banks, priced, b);
    let counted = |g: int| if a[g] is Some { 1int } else { 0int };
    let received = |g: int| 1 - b[0][g].cap;
    let spent = |g: int| entry_cost(cands, priced, b, g);
    let priced_at = |g: int| if a[g] is Some { a[g]->0.cost() } else { 0 };
    assert forall|g: int| 0 <= g < n implies #[trigger] counted(g) == received(g) && (priced ==> spent(g)
        == priced_at(g)) by {
        lemma_entry_flow(net, cands, banks, priced, b, g);
        let m = cands[g].len() as int;
        let units = |k: int| 1 - b[1 + g][1 + k].cap;
        let costs = |k: int| link_price(priced, cands[g][k]) * (1 - b[1 + g][1 + k].cap);
        if a[g] is Some {
            let k0 = choose|k: int|
                0 <= k < cands[g].len() && #[trigger] sends(b, g, k) && cands[g][k].taken() == a[g]->0;
            assert forall|k: int| 0 <= k < m && k != k0 implies #[trigger] units(k) == 0 && costs(k) == 0 by {
                if b[1 + g][1 + k].cap != 1 {
                    assert(0 <= b[1 + g][1 + k].cap <= 1);
                    assert(sends(b, g, k));
                    lemma_entry_sends_once(net, cands, banks, priced, b, g, k, k0);
                }
                let c = link_price(priced, cands[g][k]);
                assert(c * 0 == 0) by (nonlinear_arith);
            }
            lemma_sum_single(m, units, k0);
            assert forall|k: int| 0 <= k < m && k != k0 implies #[trigger] costs(k) == 0 by {
                assert(units(k) == 0);
            }
            lemma_sum_single(m, costs, k0);
            let c = link_price(priced, cands[g][k0]);
            assert(c * 1 == c) by (nonlinear_arith);
        } else {
            assert forall|k: int| 0 <= k < m implies #[trigger] units(k) == 0 && costs(k) == 0 by {
                assert(!sends(b, g, k));
                assert(0 <= b[1 + g][1 + k].cap <= 1);
                let c = link_price(priced, cands[g][k]);
                assert(c * 0 == 0) by (nonlinear_arith);
            }
            lemma_sum_zero(m, units);
            assert forall|k: int| 0 <= k < m implies #[trigger] costs(k) == 0 by {
                assert(units(k) == 0);
            }
            lemma_sum_zero(m, costs);
        }
    }
    lemma_sum_eq(n, counted, received);
    if priced {
        assert forall|g: int| 0 <= g < n implies #[trigger] spent(g) == priced_at(g) by {
            assert(counted(g) == received(g));
        }
        lemma_sum_eq(n, spent, priced_at);
    }
}

/// The candidate that entry `g` takes in `a`.
spec fn pick(cands: Seq<Seq<Candidate>>, a: Seq<Option<Assignment>>, g: int) -> int {
    choose|k: int| 0 <= k < cands[g].len() && #[trigger] cands[g][k].taken() == a[g]->0
}

spec fn is_taken(a: Seq<Option<Assignment>>, x: int) -> bool {
    exists|g: int| 0 <= g < a.len() && #[trigger] a[g] is Some && a[g]->0.bank_idx == x
}

/// What `a` sends over the links of entry `g`.
spec fn entry_units(
    cands: Seq<Seq<Candidate>>,
    a: Seq<Option<Assignment>>,
    g: int,
    i: int,
) -> int {
    if a[g] is None {
        0
    } else if i == 0 {
        -1
    } else if i - 1 == pick(cands, a, g) {
        1
    } else {
        0
    }
}

/// What `a` sends over link `(v, i)`.
spec fn link_units(
    net: Seq<Seq<Link>>,
    cands: Seq<Seq<Candidate>>,
    banks: int,
    a: Seq<Option<Assignment>>,
    v: int,
    i: int,
) -> int {
    let n = cands.len() as int;
    if v == 0 {
        if a[i] is Some { 1 } else { 0 }
    } else if v <= n {
        entry_units(cands, a, v - 1, i)
    } else if v < 1 + n + banks {
        if i == 0 {
            if is_taken(a, v - 1 - n) { 1 } else { 0 }
        } else {
            -entry_units(cands, a, net[v][i].to - 1, net[v][i].rev)
        }
    } else {
        if is_taken(a, i) { -1 } else { 0 }
    }
}

/// The flow that carries out `a`.
spec fn matching_flow(
    net: Seq<Seq<Link>>,
    cands: Seq<Seq<Candidate>>,
    banks: int,
    a: Seq<Option<Assignment>>,
) -> Seq<Seq<Link>> {
    Seq::new(
        net.len(),
        |v: int|
            Seq::new(
                net[v].len(),
                |i: int|
                    Link {
                        cap: net[v][i].cap - link_units(net, cands, banks, a, v, i),
                        ..net[v][i]
                    },
            ),
    )
}

proof fn lemma_pick(cands: Seq<Seq<Candidate>>, a: Seq<Option<Assignment>>, g: int)
    requires
        valid_matching(cands, a),
        0 <= g < a.len(),
        a[g] is Some,
    ensures
        0 <= pick(cands, a, g) < cands[g].len(),
        cands[g][pick(cands, a, g)].taken() == a[g]->0,
        is_taken(a, a[g]->0.bank_idx as int),
{
    let k = choose|k: int| 0 <= k < cands[g].len() && #[trigger] cands[g][k].taken() == a[g]->0;
    assert(cands[g][k].taken() == a[g]->0);
}

/// The flow that carries out `a` moves what it takes from a link to the partner, and asks no more
/// of a link than it holds.
proof fn lemma_matching_flow_links(
    net: Seq<Seq<Link>>,
    cands: Seq<Seq<Candidate>>,
    banks: int,
    priced: bool,
    a: Seq<Option<Assignment>>,
    v: int,
    i: int,
)
    requires
        full_layout(net, cands, banks, priced),
        banks_in_range(cands, banks),
        valid_matching(cands, a),
        has_link(net, v, i),
    ensures
        link_units(net, cands, banks, a, net[v][i].to, net[v][i].rev) == -link_units(
            net,
            cands,
            banks,
            a,
            v,
            i,
        ),
        link_units(net, cands, banks, a, v, i) <= net[v][i].cap,
{
    let n = cands.len() as int;
    let l = net[v][i];
    assert(has_link(net, l.to, l.rev));
    assert(net[l.to][l.rev].to == v && net[l.to][l.rev].rev == i);
    if v == 0 {
        assert(l == (Link { to: 1 + i, rev: 0, cap: 1, cost: 0 }));
    } else if v <= n {
        let g = v - 1;
        assert(net[1 + g].len() == 1 + cands[g].len());
        if i == 0 {
            assert(net[1 + g][0] == (Link { to: 0, rev: g, cap: 0, cost: 0 }));
        } else {
            let k = i - 1;
            assert(net[1 + g][1 + k].cap == 1);
            assert(cands[g][k].bank_idx < banks);
        }
    } else if v < 1 + n + banks {
        let x = v - 1 - n;
        if i == 0 {
            assert(net[1 + n + x][0] == (Link { to: 1 + n + banks, rev: x, cap: 1, cost: 0 }));
        } else {
            assert(net[1 + n + x][i].cap == 0);
            assert(1 <= l.to <= n && l.rev >= 1);
        }
    } else {
        assert(net[1 + n + banks][i] == (Link { to: 1 + n + i, rev: 0, cap: 0, cost: 0 }));
    }
}

/// What a node sends over all its links, when its links are those of `net`.
proof fn lemma_units_conserve(
    net: Seq<Seq<Link>>,
    cands: Seq<Seq<Candidate>>,
    banks: int,
    a: Seq<Option<Assignment>>,
    v: int,
)
    requires
        0 <= v < net.len(),
        sum(net[v].len() as int, |i: int| link_units(net, cands, banks, a, v, i)) == 0,
    ensures
        out_cap(net, v) == out_cap(matching_flow(net, cands, banks, a), v),
{
    let b = matching_flow(net, cands, banks, a);
    let m = net[v].len() as int;
    let fa = |i: int| net[v][i].cap;
    let fu = |i: int| link_units(net, cands, banks, a, v, i);
    let fb = |i: int| b[v][i].cap;
    lemma_sum_sub(m, fa, fu);
    lemma_sum_eq(m, |i: int| fa(i) - fu(i), fb);
}

/// Every matching is carried out by a flow of its size and cost.
pub proof fn lemma_matching_to_flow(
    net: Seq<Seq<Link>>,
    cands: Seq<Seq<Candidate>>,
    banks: int,
    priced: bool,
    a: Seq<Option<Assignment>>,
) -> (b: Seq<Seq<Link>>)
    requires
        full_layout(net, cands, banks, priced),
        banks_in_range(cands, banks),
        valid_matching(cands, a),
    ensures
        is_flow(net, b, 0, 1 + cands.len() + banks),
        flow_value(net, b, 0) == matched_count(a),
        priced ==> twice_flow_cost(net, b) == 2 * matched_cost(a),
{
    let n = cands.len() as int;
    let sink = 1 + n + banks;
    let b = matching_flow(net, cands, banks, a);
    assert(same_shape(net, b));
    assert forall|v: int, i: int| #![trigger net[v][i]] #![trigger b[v][i]] has_link(net, v, i) implies net[v][i].cap
        + partner(net, v, i).cap == b[v][i].cap + partner(b, v, i).cap by {
        lemma_matching_flow_links(net, cands, banks, priced, a, v, i);
        assert(has_link(net, net[v][i].to, net[v][i].rev));
    }
    assert forall|v: int, i: int| #![trigger b[v][i]] has_link(b, v, i) implies b[v][i].cap >= 0 by {
        assert(net[v].len() == b[v].len());
        lemma_matching_flow_links(net, cands, banks, priced, a, v, i);
    }
    assert forall|v: int|
        #![trigger out_cap(net, v)]
        #![trigger out_cap(b, v)]
        0 <= v < net.len() && v != 0 && v != sink implies out_cap(net, v) == out_cap(b, v) by {
        let m = net[v].len() as int;
        let fu = |i: int| link_units(net, cands, banks, a, v, i);
        if v <= n {
            let g = v - 1;
            assert(net[1 + g].len() == 1 + cands[g].len());
            if a[g] is Some {
                lemma_pick(cands, a, g);
                let k = pick(cands, a, g);
                lemma_sum_shift(m - 1, fu);
                let tail = |j: int| fu(1 + j);
                lemma_sum_single(m - 1, tail, k);
            } else {
                lemma_sum_zero(m, fu);
            }
        } else {
            lemma_bank_units(net, cands, banks, priced, a, v - 1 - n);
        }
        lemma_units_conserve(net, cands, banks, a, v);
    }
    assert(read_off(cands, b, a)) by {
        assert forall|g: int| 0 <= g < n implies (match #[trigger] a[g] {
            Some(x) => exists|k: int|
                0 <= k < cands[g].len() && #[trigger] sends(b, g, k) && cands[g][k].taken() == x,
            None => forall|k: int| 0 <= k < cands[g].len() ==> !#[trigger] sends(b, g, k),
        }) by {
            assert(net[1 + g].len() == 1 + cands[g].len());
            if a[g] is Some {
                lemma_pick(cands, a, g);
                let k = pick(cands, a, g);
                assert(net[1 + g][1 + k].cap == 1);
                assert(sends(b, g, k));
            } else {
                assert forall|k: int| 0 <= k < cands[g].len() implies !#[trigger] sends(b, g, k) by {
                    assert(net[1 + g][1 + k].cap == 1);
                }
            }
        }
    }
    lemma_flow_to_matching(net, cands, banks, priced, b, a);
    b
}

/// A transaction sends on what it receives: one unit if it is taken, else none.
proof fn lemma_bank_units(
    net: Seq<Seq<Link>>,
    cands: Seq<Seq<Candidate>>,
    banks: int,
    priced: bool,
    a: Seq<Option<Assignment>>,
    x: int,
)
    requires
        full_layout(net, cands, banks, priced),
        banks_in_range(cands, banks),
        valid_matching(cands, a),
        0 <= x < banks,
    ensures
        ({
            let v = 1 + cands.len() + x;
            sum(net[v].len() as int, |i: int| link_units(net, cands, banks, a, v, i)) == 0
        }),
{
    let n = cands.len() as int;
    let v = 1 + n + x;
    let m = net[v].len() as int;
    assert(net[1 + n + x].len() >= 1);
    let fu = |i: int| link_units(net, cands, banks, a, v, i);
    lemma_sum_shift(m - 1, fu);
    let tail = |j: int| fu(1 + j);
    // which links carry a unit
    assert forall|i: int| 1 <= i < m && #[trigger] fu(i) != 0 implies {
        let g = net[v][i].to - 1;
        &&& 0 <= g < n
        &&& a[g] is Some
        &&& a[g]->0.bank_idx == x
        &&& net[v][i].rev - 1 == pick(cands, a, g)
        &&& fu(i) == -1
    } by {
        let l = net[1 + n + x][i];
        assert(1 <= l.to <= n && l.rev >= 1);
        let g = l.to - 1;
        assert(has_link(net, v, i));
        assert(has_link(net, l.to, l.rev));
        assert(net[l.to][l.rev].to == v);
        lemma_pick(cands, a, g);
        let k = pick(cands, a, g);
        assert(net[1 + g][1 + k].to == 1 + n + cands[g][k].bank_idx);
    }
    if is_taken(a, x) {
        let g = choose|g: int| 0 <= g < a.len() && #[trigger] a[g] is Some && a[g]->0.bank_idx == x;
        lemma_pick(cands, a, g);
        let k = pick(cands, a, g);
        assert(net[1 + g].len() == 1 + cands[g].len());
        let l = net[1 + g][1 + k];
        assert(has_link(net, 1 + g, 1 + k));
        assert(l.to == v);
        assert(has_link(net, v, l.rev));
        assert(net[v][l.rev].to == 1 + g && net[v][l.rev].rev == 1 + k);
        let j0 = l.rev - 1;
        assert(l.rev >= 1);
        assert(fu(l.rev) == -1);
        assert forall|j: int| 0 <= j < m - 1 && j != j0 implies #[trigger] tail(j) == 0 by {
            let i = 1 + j;
            if fu(i) != 0 {
                let h = net[v][i].to - 1;
                assert(a[h]->0.bank_idx == x);
                assert(h == g);
                assert(net[v][i].rev == 1 + k);
                assert(has_link(net, v, i));
                assert(net[net[v][i].to][net[v][i].rev].rev == i);
            }
        }
        lemma_sum_single(m - 1, tail, j0);
    } else {
        assert forall|j: int| 0 <= j < m - 1 implies #[trigger] tail(j) == 0 by {
            let i = 1 + j;
            if fu(i) != 0 {
                let h = net[v][i].to - 1;
                assert(a[h] is Some);
            }
        }
        lemma_sum_zero(m - 1, tail);
    }
}

/// A maximum flow reads off as a maximum matching.
pub proof fn lemma_maximum_flow_is_maximum_matching(
    net: Seq<Seq<Link>>,
    cands: Seq<Seq<Candidate>>,
    banks: int,
    priced: bool,
    b: Seq<Seq<Link>>,
    a: Seq<Option<Assignment>>,
)
    requires
        full_layout(net, cands, banks, priced),
        banks_in_range(cands, banks),
        crate::dinic::is_maximum_flow(net, b, 0, 1 + cands.len() + banks),
        read_off(cands, b, a),
    ensures
        is_maximum_matching(cands, a),
{
    lemma_flow_to_matching(net, cands, banks, priced, b, a);
    assert forall|c: Seq<Option<Assignment>>| #[trigger] valid_matching(cands, c) implies matched_count(c)
        <= matched_count(a) by {
        let f = lemma_matching_to_flow(net, cands, banks, priced, c);
        assert(is_flow(net, f, 0, 1 + cands.len() + banks));
    }
}

/// A cheapest flow reads off as a cheapest matching.
pub proof fn lemma_cheapest_flow_is_cheapest_matching(
    net: Seq<Seq<Link>>,
    cands: Seq<Seq<Candidate>>,
    banks: int,
    b: Seq<Seq<Link>>,
    a: Seq<Option<Assignment>>,
)
    requires
        full_layout(net, cands, banks, true),
        banks_in_range(cands, banks),
        crate::mincost::is_cheapest_flow(net, b, 0, 1 + cands.len() + banks),
        read_off(cands, b, a),
    ensures
        is_cheapest_matching(cands, a),
{
    lemma_flow_to_matching(net, cands, banks, true, b, a);
    assert forall|c: Seq<Option<Assignment>>| #[trigger]
        valid_matching(cands, c) && matched_count(c) == matched_count(a) implies matched_cost(a)
        <= matched_cost(c) by {
        let f = lemma_matching_to_flow(net, cands, banks, true, c);
        assert(is_flow(net, f, 0, 1 + cands.len() + banks));
    }
}

/// A matching gives some entries one of their candidates, with its transaction, score and gap, and
/// no two entries the same transaction; nothing else is asked of it.
pub proof fn lemma_matchings_by_fields(cands: Seq<Seq<Candidate>>, a: Seq<Option<Assignment>>)
    ensures
        valid_matching(cands, a) <==> {
            &&& a.len() == cands.len()
            &&& forall|g: int|
                0 <= g < cands.len() && #[trigger] a[g] is Some ==> exists|k: int|
                    {
                        &&& 0 <= k < cands[g].len()
                        &&& (#[trigger] cands[g][k]).bank_idx == a[g]->0.bank_idx
                        &&& cands[g][k].score_ppm == a[g]->0.score_ppm
                        &&& cands[g][k].minute_gap == a[g]->0.minute_gap
                    }
            &&& forall|g: int, h: int|
                0 <= g < cands.len() && 0 <= h < cands.len() && g != h && #[trigger] a[g] is Some
                    && #[trigger] a[h] is Some ==> a[g]->0.bank_idx != a[h]->0.bank_idx
        },
{
    if valid_matching(cands, a) {
        assert forall|g: int| 0 <= g < cands.len() && #[trigger] a[g] is Some implies exists|k: int|
            {
                &&& 0 <= k < cands[g].len()
                &&& (#[trigger] cands[g][k]).bank_idx == a[g]->0.bank_idx
                &&& cands[g][k].score_ppm == a[g]->0.score_ppm
                &&& cands[g][k].minute_gap == a[g]->0.minute_gap
            } by {
            let k = choose|k: int|
                0 <= k < cands[g].len() && #[trigger] cands[g][k].taken() == a[g]->0;
            assert(cands[g][k].bank_idx == a[g]->0.bank_idx);
        }
        assert forall|g: int, h: int|
            0 <= g < cands.len() && 0 <= h < cands.len() && g != h && #[trigger] a[g] is Some
                && #[trigger] a[h] is Some implies a[g]->0.bank_idx != a[h]->0.bank_idx by {
            if g > h {
                assert(a[h]->0.bank_idx != a[g]->0.bank_idx);
            }
        }
    } else if a.len() == cands.len() && one_to_one(a) {
        let g = choose|g: int|
            0 <= g < a.len() && #[trigger] a[g] is Some && !(exists|k: int|
                0 <= k < cands[g].len() && #[trigger] cands[g][k].taken() == a[g]->0);
        assert forall|k: int| 0 <= k < cands[g].len() implies !({
            &&& (#[trigger] cands[g][k]).bank_idx == a[g]->0.bank_idx
            &&& cands[g][k].score_ppm == a[g]->0.score_ppm
            &&& cands[g][k].minute_gap == a[g]->0.minute_gap
        }) by {
            assert(cands[g][k].taken() != a[g]->0);
        }
    }
}

/// The number of matches is the number of entries that are matched.
pub proof fn lemma_count_of_matches(a: Seq<Option<Assignment>>)
    ensures
        matched_count(a) == a.filter(|x: Option<Assignment>| x is Some).len(),
    decreases a.len(),
{
    reveal(Seq::filter);
    if a.len() > 0 {
        let init = a.drop_last();
        lemma_count_of_matches(init);
        let f = |g: int| if a[g] is Some { 1int } else { 0int };
        let h = |g: int| if init[g] is Some { 1int } else { 0int };
        lemma_sum_eq(init.len() as int, f, h);
    }
}

/// The cost of a matching is that of its matches together; so no other matching of as many entries
/// has better scores for the gaps and places that it takes.
pub proof fn lemma_cheapest_by_fields(
    cands: Seq<Seq<Candidate>>,
    a: Seq<Option<Assignment>>,
    b: Seq<Option<Assignment>>,
)
    requires
        is_cheapest_matching(cands, a),
        valid_matching(cands, b),
        a.filter(|x: Option<Assignment>| x is Some).len() == b.filter(
            |x: Option<Assignment>| x is Some,
        ).len(),
    ensures
        sum(
            a.len() as int,
            |g: int|
                if a[g] is Some {
                    (1_000_000 - a[g]->0.score_ppm) * 100_000 + a[g]->0.minute_gap
                        + a[g]->0.bank_idx
                } else {
                    0
                },
        ) <= sum(
            b.len() as int,
            |g: int|
                if b[g] is Some {
                    (1_000_000 - b[g]->0.score_ppm) * 100_000 + b[g]->0.minute_gap
                        + b[g]->0.bank_idx
                } else {
                    0
                },
        ),
{
    lemma_count_of_matches(a);
    lemma_count_of_matches(b);
    lemma_cost_by_fields(a);
    lemma_cost_by_fields(b);
}

proof fn lemma_cost_by_fields(a: Seq<Option<Assignment>>)
    ensures
        matched_cost(a) == sum(
            a.len() as int,
            |g: int|
                if a[g] is Some {
                    (1_000_000 - a[g]->0.score_ppm) * 100_000 + a[g]->0.minute_gap
                        + a[g]->0.bank_idx
                } else {
                    0
                },
        ),
{
    lemma_sum_eq(
        a.len() as int,
        |g: int| if a[g] is Some { a[g]->0.cost() } else { 0 },
        |g: int|
            if a[g] is Some {
                (1_000_000 - a[g]->0.score_ppm) * 100_000 + a[g]->0.minute_gap + a[g]->0.bank_idx
            } else {
                0
            },
    );
}

/// In a cheapest matching no entry would do better with another of its candidates that nobody else
/// has. With equal scores the one that it has is the nearer one, where places do not decide; and a
/// better score is passed over only for a gap or a place that makes up for it.
pub proof fn lemma_no_free_candidate_is_better(
    cands: Seq<Seq<Candidate>>,
    a: Seq<Option<Assignment>>,
    g: int,
    k: int,
)
    requires
        is_cheapest_matching(cands, a),
        0 <= g < cands.len(),
        0 <= k < cands[g].len(),
        a[g] is Some,
        forall|h: int|
            0 <= h < a.len() && h != g && #[trigger] a[h] is Some ==> a[h]->0.bank_idx
                != cands[g][k].bank_idx,
    ensures
        ({
            let x = a[g]->0;
            let c = cands[g][k];
            &&& (x.minute_gap - c.minute_gap) + (x.bank_idx - c.bank_idx) <= (x.score_ppm
                - c.score_ppm) * 100_000
            &&& x.score_ppm == c.score_ppm && c.minute_gap < x.minute_gap ==> c.bank_idx
                - x.bank_idx >= x.minute_gap - c.minute_gap
        }),
{
    let c = cands[g][k];
    let b = a.update(g, Some(c.taken()));
    assert(valid_matching(cands, b)) by {
        assert forall|h: int| 0 <= h < b.len() && #[trigger] b[h] is Some implies exists|k: int|
            0 <= k < cands[h].len() && #[trigger] cands[h][k].taken() == b[h]->0 by {
            if h == g {
                assert(cands[g][k].taken() == b[h]->0);
            } else {
                assert(a[h] is Some);
            }
        }
        assert forall|h: int, i: int|
            0 <= h < i < b.len() && #[trigger] b[h] is Some && #[trigger] b[i] is Some implies b[h]->0.bank_idx
            != b[i]->0.bank_idx by {
            if h != g {
                assert(a[h] is Some);
            }
            if i != g {
                assert(a[i] is Some);
            }
        }
    }
    let n = a.len() as int;
    let fa = |h: int| if a[h] is Some { 1int } else { 0int };
    let fb = |h: int| if b[h] is Some { 1int } else { 0int };
    assert forall|h: int| 0 <= h < n implies #[trigger] fa(h) == fb(h) by {}
    lemma_sum_eq(n, fa, fb);
    let ca = |h: int| if a[h] is Some { a[h]->0.cost() } else { 0 };
    let cb = |h: int| if b[h] is Some { b[h]->0.cost() } else { 0 };
    assert forall|h: int| 0 <= h < n && h != g implies #[trigger] ca(h) == cb(h) by {}
    lemma_sum_point(n, ca, cb, g);
    assert(matched_cost(a) <= matched_cost(b));
}

/// In a cheapest matching no two entries would do better by exchanging their transactions.
pub proof fn lemma_no_exchange_is_better(
    cands: Seq<Seq<Candidate>>,
    a: Seq<Option<Assignment>>,
    g: int,
    k: int,
    h: int,
    m: int,
)
    requires
        is_cheapest_matching(cands, a),
        0 <= g < cands.len(),
        0 <= h < cands.len(),
        g != h,
        0 <= k < cands[g].len(),
        0 <= m < cands[h].len(),
        a[g] is Some,
        a[h] is Some,
        cands[g][k].bank_idx == a[h]->0.bank_idx,
        cands[h][m].bank_idx == a[g]->0.bank_idx,
    ensures
        ({
            let x = a[g]->0;
            let y = a[h]->0;
            let c = cands[g][k];
            let d = cands[h][m];
            (x.minute_gap + y.minute_gap) - (c.minute_gap + d.minute_gap) <= ((x.score_ppm
                + y.score_ppm) - (c.score_ppm + d.score_ppm)) * 100_000
        }),
{
    let c = cands[g][k];
    let d = cands[h][m];
    let b1 = a.update(g, Some(c.taken()));
    let b = b1.update(h, Some(d.taken()));
    assert(valid_matching(cands, b)) by {
        assert forall|i: int| 0 <= i < b.len() && #[trigger] b[i] is Some implies exists|k: int|
            0 <= k < cands[i].len() && #[trigger] cands[i][k].taken() == b[i]->0 by {
            if i == g {
                assert(cands[g][k].taken() == b[i]->0);
            } else if i == h {
                assert(cands[h][m].taken() == b[i]->0);
            } else {
                assert(a[i] is Some);
            }
        }
        assert forall|i: int, j: int|
            0 <= i < j < b.len() && #[trigger] b[i] is Some && #[trigger] b[j] is Some implies b[i]->0.bank_idx
            != b[j]->0.bank_idx by {
            assert(a[i] is Some && a[j] is Some);
            lemma_matchings_by_fields(cands, a);
        }
    }
    let n = a.len() as int;
    let fa = |i: int| if a[i] is Some { 1int } else { 0int };
    let fb = |i: int| if b[i] is Some { 1int } else { 0int };
    assert forall|i: int| 0 <= i < n implies #[trigger] fa(i) == fb(i) by {}
    lemma_sum_eq(n, fa, fb);
    let ca = |i: int| if a[i] is Some { a[i]->0.cost() } else { 0 };
    let c1 = |i: int| if b1[i] is Some { b1[i]->0.cost() } else { 0 };
    let cb = |i: int| if b[i] is Some { b[i]->0.cost() } else { 0 };
    assert forall|i: int| 0 <= i < n && i != g implies #[trigger] ca(i) == c1(i) by {}
    lemma_sum_point(n, ca, c1, g);
    assert forall|i: int| 0 <= i < n && i != h implies #[trigger] c1(i) == cb(i) by {}
    lemma_sum_point(n, c1, cb, h);
    assert(matched_cost(a) <= matched_cost(b));
}

/// In a maximum matching an entry that is left over has no candidate that nobody else has.
pub proof fn lemma_no_free_candidate_is_left(
    cands: Seq<Seq<Candidate>>,
    a: Seq<Option<Assignment>>,
    g: int,
    k: int,
)
    requires
        is_maximum_matching(cands, a),
        0 <= g < cands.len(),
        0 <= k < cands[g].len(),
        a[g] is None,
    ensures
        exists|h: int|
            0 <= h < a.len() && #[trigger] a[h] is Some && a[h]->0.bank_idx
                == cands[g][k].bank_idx,
{
    if forall|h: int|
        0 <= h < a.len() && #[trigger] a[h] is Some ==> a[h]->0.bank_idx != cands[g][k].bank_idx {
        let b = a.update(g, Some(cands[g][k].taken()));
        assert(valid_matching(cands, b)) by {
            assert forall|h: int| 0 <= h < b.len() && #[trigger] b[h] is Some implies exists|k: int|
                0 <= k < cands[h].len() && #[trigger] cands[h][k].taken() == b[h]->0 by {
                if h == g {
                    assert(cands[g][k].taken() == b[h]->0);
                } else {
                    assert(a[h] is Some);
                }
            }
            assert forall|h: int, i: int|
                0 <= h < i < b.len() && #[trigger] b[h] is Some && #[trigger] b[i] is Some implies b[h]->0.bank_idx
                != b[i]->0.bank_idx by {
                if h != g {
                    assert(a[h] is Some);
                }
                if i != g {
                    assert(a[i] is Some);
                }
            }
        }
        let n = a.len() as int;
        let fa = |h: int| if a[h] is Some { 1int } else { 0int };
        let fb = |h: int| if b[h] is Some { 1int } else { 0int };
        assert forall|h: int| 0 <= h < n && h != g implies #[trigger] fa(h) == fb(h) by {}
        lemma_sum_point(n, fa, fb, g);
        assert(matched_count(b) == matched_count(a) + 1);
    }
}

/// A maximum matching has at least as many matches as any other.
pub proof fn lemma_maximum_by_fields(
    cands: Seq<Seq<Candidate>>,
    a: Seq<Option<Assignment>>,
    b: Seq<Option<Assignment>>,
)
    requires
        is_maximum_matching(cands, a),
        valid_matching(cands, b),
    ensures
        b.filter(|x: Option<Assignment>| x is Some).len() <= a.filter(
            |x: Option<Assignment>| x is Some,
        ).len(),
{
    lemma_count_of_matches(a);
    lemma_count_of_matches(b);
}

} // verus!
