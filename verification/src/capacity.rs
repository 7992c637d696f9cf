//! The total capacity of a network: pushing keeps it, and it limits what can be pushed and how
//! many nodes can be reached.
use vstd::prelude::*;

use crate::network::{
    antisymmetric, flow_value, has_link, is_flow, lemma_antisymmetric_sum,
    lemma_flow_difference_antisymmetric, lemma_row_differences, network_wf, out_cap, paired,
    pairs_balanced, partner, row_lens, same_shape, with_edge, Link,
};
use crate::sums::{
    lemma_sum_eq, lemma_sum_le, lemma_sum_point, lemma_sum_single, lemma_sum_sub, lemma_sum_zero,
    lemma_table_eq, sum,
};

verus! {

/// The capacities of all the links together.
pub open spec fn total_cap(net: Seq<Seq<Link>>) -> int {
    sum(net.len() as int, |v: int| out_cap(net, v))
}

/// The capacities of the links that lead to `v` together.
spec fn in_cap(net: Seq<Seq<Link>>, v: int) -> int {
    sum(net[v].len() as int, |i: int| partner(net, v, i).cap)
}

/// Pushing keeps the total capacity.
pub proof fn lemma_total_is_kept(a: Seq<Seq<Link>>, b: Seq<Seq<Link>>)
    requires
        paired(a),
        same_shape(a, b),
        pairs_balanced(a, b),
    ensures
        total_cap(a) == total_cap(b),
{
    let n = a.len() as int;
    let one = |v: int| 1int;
    let diff = |v: int, i: int| a[v][i].cap - b[v][i].cap;
    lemma_flow_difference_antisymmetric(a, a, b, 0, 0);
    lemma_antisymmetric_sum(a, diff);
    lemma_row_differences(a, b, one);
    lemma_table_eq(
        row_lens(a),
        diff,
        |v: int, i: int| one(v) * (a[v][i].cap - b[v][i].cap),
    );
    let fa = |v: int| out_cap(a, v);
    let fb = |v: int| out_cap(b, v);
    lemma_sum_sub(n, fa, fb);
    lemma_sum_eq(
        n,
        |v: int| fa(v) - fb(v),
        |v: int| one(v) * (out_cap(a, v) - out_cap(b, v)),
    );
}

proof fn lemma_out_cap_valid(net: Seq<Seq<Link>>, v: int)
    requires
        network_wf(net),
        0 <= v < net.len(),
    ensures
        out_cap(net, v) >= 0,
{
    let n = net[v].len() as int;
    let zero = |i: int| 0int;
    let caps = |i: int| net[v][i].cap;
    assert forall|i: int| 0 <= i < n implies #[trigger] zero(i) <= caps(i) by {
        assert(has_link(net, v, i));
        assert(net[v][i].cap >= 0);
    }
    lemma_sum_le(n, zero, caps);
    lemma_sum_zero(n, zero);
}

/// No flow carries more than the total capacity.
pub proof fn lemma_total_bounds_flow(a: Seq<Seq<Link>>, b: Seq<Seq<Link>>, s: int, t: int)
    requires
        network_wf(a),
        0 <= s < a.len(),
        is_flow(a, b, s, t),
    ensures
        flow_value(a, b, s) <= total_cap(a),
{
    crate::network::lemma_shape_keeps_pairs(a, b);
    lemma_out_cap_valid(b, s);
    let n = a.len() as int;
    let fa = |v: int| out_cap(a, v);
    let only = |v: int| if v == s { out_cap(a, s) } else { 0int };
    assert forall|v: int| 0 <= v < n implies #[trigger] only(v) <= fa(v) by {
        lemma_out_cap_valid(a, v);
    }
    lemma_sum_le(n, only, fa);
    lemma_sum_single(n, only, s);
}

/// An empty network has no capacity.
pub proof fn lemma_total_of_none(n: nat)
    ensures
        total_cap(Seq::new(n, |v: int| Seq::<Link>::empty())) == 0,
{
    let net = Seq::new(n, |v: int| Seq::<Link>::empty());
    let f = |v: int| out_cap(net, v);
    assert forall|v: int| 0 <= v < n implies #[trigger] f(v) == 0 by {}
    lemma_sum_zero(n as int, f);
}

proof fn lemma_push_to_row(row: Seq<Link>, link: Link)
    ensures
        sum((row.len() + 1) as int, |i: int| row.push(link)[i].cap) == sum(
            row.len() as int,
            |i: int| row[i].cap,
        ) + link.cap,
{
    let longer = |i: int| row.push(link)[i].cap;
    let caps = |i: int| row[i].cap;
    lemma_sum_eq(row.len() as int, longer, caps);
}

/// A new link adds its capacity.
pub proof fn lemma_total_with_edge(net: Seq<Seq<Link>>, from: int, to: int, cap: int, cost: int)
    requires
        0 <= from < net.len(),
        0 <= to < net.len(),
        from != to,
    ensures
        total_cap(with_edge(net, from, to, cap, cost)) == total_cap(net) + cap,
{
    let b = with_edge(net, from, to, cap, cost);
    let n = net.len() as int;
    let there = Link { to, rev: net[to].len() as int, cap, cost };
    let back = Link { to: from, rev: net[from].len() as int, cap: 0, cost: -cost };
    lemma_push_to_row(net[from], there);
    lemma_push_to_row(net[to], back);
    assert(b[from] == net[from].push(there));
    assert(b[to] == net[to].push(back));
    assert(out_cap(b, from) == out_cap(net, from) + cap);
    assert(out_cap(b, to) == out_cap(net, to));
    let f = |v: int| out_cap(net, v);
    let g = |v: int| out_cap(b, v);
    assert forall|v: int| 0 <= v < n && v != from implies #[trigger] f(v) == g(v) by {
        if v != to {
            assert(b[v] == net[v]);
        }
    }
    lemma_sum_point(n, f, g, from);
}

/// What leads into nodes is what leads out of nodes.
proof fn lemma_total_leads_in(net: Seq<Seq<Link>>)
    requires
        paired(net),
    ensures
        sum(net.len() as int, |v: int| in_cap(net, v)) == total_cap(net),
{
    let n = net.len() as int;
    let lens = row_lens(net);
    let diff = |v: int, i: int| net[v][i].cap - partner(net, v, i).cap;
    assert forall|v: int, i: int| #![trigger diff(v, i)] has_link(net, v, i) implies diff(
        net[v][i].to,
        net[v][i].rev,
    ) == -diff(v, i) by {
        let l = net[v][i];
        assert(has_link(net, l.to, l.rev));
        assert(net[l.to][l.rev].to == v && net[l.to][l.rev].rev == i);
    }
    assert(antisymmetric(net, diff));
    lemma_antisymmetric_sum(net, diff);
    let f = |v: int| out_cap(net, v);
    let g = |v: int| in_cap(net, v);
    let rows = |v: int| sum(lens[v], |i: int| diff(v, i));
    assert forall|v: int| 0 <= v < n implies #[trigger] rows(v) == f(v) - g(v) by {
        let m = net[v].len() as int;
        let outs = |i: int| net[v][i].cap;
        let ins = |i: int| partner(net, v, i).cap;
        lemma_sum_sub(m, outs, ins);
        lemma_sum_eq(m, |i: int| outs(i) - ins(i), |i: int| diff(v, i));
    }
    lemma_sum_sub(n, f, g);
    lemma_sum_eq(n, rows, |v: int| f(v) - g(v));
}

/// A link with capacity leads to `v`.
pub open spec fn is_entered(net: Seq<Seq<Link>>, v: int) -> bool {
    exists|u: int, i: int|
        has_link(net, u, i) && #[trigger] net[u][i].cap > 0 && net[u][i].to == v
}

proof fn lemma_in_cap(net: Seq<Seq<Link>>, v: int)
    requires
        network_wf(net),
        0 <= v < net.len(),
    ensures
        in_cap(net, v) >= 0,
        is_entered(net, v) ==> in_cap(net, v) >= 1,
{
    let n = net[v].len() as int;
    let zero = |i: int| 0int;
    let caps = |i: int| partner(net, v, i).cap;
    assert forall|i: int| 0 <= i < n implies #[trigger] caps(i) >= 0 by {
        assert(has_link(net, v, i));
        assert(has_link(net, net[v][i].to, net[v][i].rev));
        assert(net[net[v][i].to][net[v][i].rev].cap >= 0);
    }
    lemma_sum_le(n, zero, caps);
    lemma_sum_zero(n, zero);
    if is_entered(net, v) {
        let (u, i) = choose|u: int, i: int|
            has_link(net, u, i) && #[trigger] net[u][i].cap > 0 && net[u][i].to == v;
        let r = net[u][i].rev;
        assert(has_link(net, v, r));
        assert(net[v][r].to == u && net[v][r].rev == i);
        assert(caps(r) == net[u][i].cap);
        let only = |j: int| if j == r { 1int } else { 0int };
        assert forall|j: int| 0 <= j < n implies #[trigger] only(j) <= caps(j) by {}
        lemma_sum_le(n, only, caps);
        lemma_sum_single(n, only, r);
    }
}

/// Different numbers below `n` are counted one by one.
proof fn lemma_count_distinct(n: int, nodes: Seq<int>)
    requires
        0 <= n,
        nodes.no_duplicates(),
        forall|j: int| 0 <= j < nodes.len() ==> 0 <= #[trigger] nodes[j] < n,
    ensures
        sum(n, |v: int| if nodes.contains(v) { 1int } else { 0int }) == nodes.len(),
    decreases nodes.len(),
{
    let f = |v: int| if nodes.contains(v) { 1int } else { 0int };
    if nodes.len() == 0 {
        lemma_sum_zero(n, f);
    } else {
        let rest = nodes.drop_last();
        let g = |v: int| if rest.contains(v) { 1int } else { 0int };
        let x = nodes.last();
        assert forall|j: int| 0 <= j < rest.len() implies 0 <= #[trigger] rest[j] < n by {
            assert(rest[j] == nodes[j]);
        }
        lemma_count_distinct(n, rest);
        assert(!rest.contains(x));
        assert(nodes.contains(x)) by {
            assert(nodes[nodes.len() - 1] == x);
        }
        assert forall|v: int| 0 <= v < n && v != x implies #[trigger] g(v) == f(v) by {
            if nodes.contains(v) {
                let j = choose|j: int| 0 <= j < nodes.len() && nodes[j] == v;
                assert(rest[j] == v);
            }
            if rest.contains(v) {
                let j = choose|j: int| 0 <= j < rest.len() && rest[j] == v;
                assert(nodes[j] == v);
            }
        }
        lemma_sum_point(n, g, f, x);
    }
}

/// No more nodes have a link with capacity leading to them than there is capacity.
pub proof fn lemma_total_bounds_nodes(net: Seq<Seq<Link>>, nodes: Seq<int>)
    requires
        network_wf(net),
        nodes.no_duplicates(),
        forall|j: int| 0 <= j < nodes.len() ==> 0 <= #[trigger] nodes[j] < net.len(),
        forall|j: int| 0 <= j < nodes.len() ==> is_entered(net, #[trigger] nodes[j]),
    ensures
        nodes.len() <= total_cap(net),
{
    let n = net.len() as int;
    let f = |v: int| if nodes.contains(v) { 1int } else { 0int };
    let g = |v: int| in_cap(net, v);
    lemma_count_distinct(n, nodes);
    assert forall|v: int| 0 <= v < n implies #[trigger] f(v) <= g(v) by {
        lemma_in_cap(net, v);
    }
    lemma_sum_le(n, f, g);
    lemma_total_leads_in(net);
}

} // verus!
