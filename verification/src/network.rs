//! The mathematics of flow networks kept as residual adjacency lists.
//!
//! Every link has a partner that runs the other way; moving a unit of flow
//! over a link takes it from the link's capacity and gives it to the partner's.
//! A flow is therefore described by two networks: the one before and the one
//! after it was pushed.
use vstd::prelude::*;

use crate::sums::{
    lemma_sum_eq, lemma_sum_point, lemma_sum_scale, lemma_sum_single, lemma_sum_sub,
    lemma_sum_zero, lemma_table_add, lemma_table_eq, lemma_table_le, lemma_table_point,
    lemma_table_zero, sum, table_sum,
};

verus! {

/// One residual link, as a mathematical value.
pub struct Link {
    pub to: int,
    pub rev: int,
    pub cap: int,
    pub cost: int,
}

/// `(v, i)` names a link of `net`: the `i`-th link that leaves node `v`.
pub open spec fn has_link(net: Seq<Seq<Link>>, v: int, i: int) -> bool {
    0 <= v < net.len() && 0 <= i < net[v].len()
}

/// The partner of link `(v, i)`.
pub open spec fn partner(net: Seq<Seq<Link>>, v: int, i: int) -> Link {
    net[net[v][i].to][net[v][i].rev]
}

/// Each link leads to another node of the network and is the partner of its partner;
/// going back costs what going there earned.
pub open spec fn paired(net: Seq<Seq<Link>>) -> bool {
    forall|v: int, i: int|
        #![trigger net[v][i]]
        has_link(net, v, i) ==> {
            let l = net[v][i];
            &&& has_link(net, l.to, l.rev)
            &&& l.to != v
            &&& net[l.to][l.rev].to == v
            &&& net[l.to][l.rev].rev == i
            &&& net[l.to][l.rev].cost == -l.cost
        }
}

/// No capacity is negative.
pub open spec fn capacities_valid(net: Seq<Seq<Link>>) -> bool {
    forall|v: int, i: int| #![trigger net[v][i]] has_link(net, v, i) ==> net[v][i].cap >= 0
}

/// A network that flow can be pushed through.
pub open spec fn network_wf(net: Seq<Seq<Link>>) -> bool {
    paired(net) && capacities_valid(net)
}

/// The two networks differ in capacities only.
pub open spec fn same_shape(a: Seq<Seq<Link>>, b: Seq<Seq<Link>>) -> bool {
    &&& a.len() == b.len()
    &&& forall|v: int| #![trigger a[v]] #![trigger b[v]] 0 <= v < a.len() ==> a[v].len() == b[v].len()
    &&& forall|v: int, i: int|
        #![trigger a[v][i]]
        #![trigger b[v][i]]
        has_link(a, v, i) ==> {
            &&& a[v][i].to == b[v][i].to
            &&& a[v][i].rev == b[v][i].rev
            &&& a[v][i].cost == b[v][i].cost
        }
}

/// What was taken from a link was given to its partner.
pub open spec fn pairs_balanced(a: Seq<Seq<Link>>, b: Seq<Seq<Link>>) -> bool {
    forall|v: int, i: int|
        #![trigger a[v][i]]
        #![trigger b[v][i]]
        has_link(a, v, i) ==> a[v][i].cap + partner(a, v, i).cap == b[v][i].cap + partner(b, v, i).cap
}

/// The capacity that leaves node `v`.
pub open spec fn out_cap(net: Seq<Seq<Link>>, v: int) -> int {
    sum(net[v].len() as int, |i: int| net[v][i].cap)
}

/// `b` is what is left of `a` once a flow from `s` to `t` has been pushed.
pub open spec fn is_flow(a: Seq<Seq<Link>>, b: Seq<Seq<Link>>, s: int, t: int) -> bool {
    &&& same_shape(a, b)
    &&& pairs_balanced(a, b)
    &&& capacities_valid(b)
    &&& forall|v: int|
        #![trigger out_cap(a, v)]
        #![trigger out_cap(b, v)]
        0 <= v < a.len() && v != s && v != t ==> out_cap(a, v) == out_cap(b, v)
}

/// The amount that leaves `s` in the flow from `a` to `b`.
pub open spec fn flow_value(a: Seq<Seq<Link>>, b: Seq<Seq<Link>>, s: int) -> int {
    out_cap(a, s) - out_cap(b, s)
}

/// Twice the cost of the flow from `a` to `b`: each unit that moves is counted on the
/// link it runs over and, with the sign of both cost and amount turned, on its partner.
pub open spec fn twice_flow_cost(a: Seq<Seq<Link>>, b: Seq<Seq<Link>>) -> int {
    table_sum(row_lens(a), |v: int, i: int| a[v][i].cost * (a[v][i].cap - b[v][i].cap))
}

/// How many links each node has.
pub open spec fn row_lens(net: Seq<Seq<Link>>) -> Seq<int> {
    Seq::new(net.len(), |v: int| net[v].len() as int)
}

/// `q` prices the nodes so that no link with capacity left is cheaper than the
/// difference of its ends; such prices exist exactly when no cycle has negative cost.
pub open spec fn feasible_prices(net: Seq<Seq<Link>>, q: Seq<int>) -> bool {
    &&& q.len() == net.len()
    &&& forall|v: int, i: int|
        #![trigger net[v][i]]
        has_link(net, v, i) && net[v][i].cap > 0 ==> net[v][i].cost + q[v] - q[net[v][i].to] >= 0
}

/// `inside` marks a set of nodes that no link with capacity left leaves.
pub open spec fn closed_set(net: Seq<Seq<Link>>, inside: spec_fn(int) -> bool) -> bool {
    forall|v: int, i: int|
        #![trigger net[v][i]]
        has_link(net, v, i) && inside(v) && net[v][i].cap > 0 ==> inside(net[v][i].to)
}

/// `d` changes its sign from a link to its partner.
pub open spec fn antisymmetric(net: Seq<Seq<Link>>, d: spec_fn(int, int) -> int) -> bool {
    forall|v: int, i: int|
        #![trigger d(v, i)]
        has_link(net, v, i) ==> d(net[v][i].to, net[v][i].rev) == -d(v, i)
}

/// What is antisymmetric under exchanging a link with its partner sums to zero.
pub proof fn lemma_antisymmetric_sum(net: Seq<Seq<Link>>, d: spec_fn(int, int) -> int)
    requires
        paired(net),
        antisymmetric(net, d),
    ensures
        table_sum(row_lens(net), d) == 0,
{
    let n = net.len() as int;
    lemma_antisymmetric_sum_from(net, d, n, 0);
}

/// The same, of a `d` that is zero behind column `i` of row `v`.
proof fn lemma_antisymmetric_sum_from(
    net: Seq<Seq<Link>>,
    d: spec_fn(int, int) -> int,
    v: int,
    i: int,
)
    requires
        paired(net),
        antisymmetric(net, d),
        0 <= v <= net.len(),
        0 <= i,
        v == net.len() ==> i == 0,
        v < net.len() ==> i <= net[v].len(),
        forall|w: int, j: int|
            has_link(net, w, j) && (w > v || (w == v && j >= i)) ==> #[trigger] d(w, j) == 0,
    ensures
        table_sum(row_lens(net), d) == 0,
    decreases v, i,
{
    let lens = row_lens(net);
    if i > 0 {
        let k = i - 1;
        let l = net[v][k];
        assert(has_link(net, v, k));
        let p = l.to;
        let r = l.rev;
        let d1 = |w: int, j: int| if w == v && j == k { 0 } else { d(w, j) };
        let d2 = |w: int, j: int| if w == p && j == r { 0 } else { d1(w, j) };
        lemma_table_point(lens, d, d1, v, k);
        lemma_table_point(lens, d1, d2, p, r);
        assert(d(p, r) == -d(v, k));
        assert forall|w: int, j: int| #![trigger d2(w, j)] has_link(net, w, j) implies d2(
            net[w][j].to,
            net[w][j].rev,
        ) == -d2(w, j) by {
            let m = net[w][j];
            assert(d(m.to, m.rev) == -d(w, j));
            assert(net[m.to][m.rev].to == w && net[m.to][m.rev].rev == j);
        }
        lemma_antisymmetric_sum_from(net, d2, v, k);
    } else if v > 0 {
        lemma_antisymmetric_sum_from(net, d, v - 1, net[v - 1].len() as int);
    } else {
        lemma_table_zero(lens, d);
    }
}

/// Sums over rows of a table whose entries are differences of capacities.
pub proof fn lemma_row_differences(
    a: Seq<Seq<Link>>,
    b: Seq<Seq<Link>>,
    weight: spec_fn(int) -> int,
)
    requires
        same_shape(a, b),
    ensures
        table_sum(row_lens(a), |v: int, i: int| weight(v) * (a[v][i].cap - b[v][i].cap)) == sum(
            a.len() as int,
            |v: int| weight(v) * (out_cap(a, v) - out_cap(b, v)),
        ),
{
    let lens = row_lens(a);
    let d = |v: int, i: int| weight(v) * (a[v][i].cap - b[v][i].cap);
    let rows = |v: int| sum(lens[v], |i: int| d(v, i));
    let want = |v: int| weight(v) * (out_cap(a, v) - out_cap(b, v));
    assert forall|v: int| 0 <= v < a.len() implies #[trigger] rows(v) == want(v) by {
        let n = a[v].len() as int;
        let fa = |i: int| a[v][i].cap;
        let fb = |i: int| b[v][i].cap;
        let diff = |i: int| fa(i) - fb(i);
        lemma_sum_sub(n, fa, fb);
        lemma_sum_scale(n, weight(v), diff);
        lemma_sum_eq(n, |i: int| weight(v) * diff(i), |i: int| d(v, i));
    }
    lemma_sum_eq(a.len() as int, rows, want);
}

/// `net` once `amount` has moved over link `(v, i)`.
pub open spec fn push_link(net: Seq<Seq<Link>>, v: int, i: int, amount: int) -> Seq<Seq<Link>> {
    let l = net[v][i];
    let taken = net.update(v, net[v].update(i, Link { cap: l.cap - amount, ..l }));
    let p = taken[l.to][l.rev];
    taken.update(l.to, taken[l.to].update(l.rev, Link { cap: p.cap + amount, ..p }))
}

/// Moving flow over one link shifts capacity from the node it leaves to the node it
/// enters and touches nothing else.
pub proof fn lemma_push_link(net: Seq<Seq<Link>>, v: int, i: int, amount: int)
    requires
        paired(net),
        has_link(net, v, i),
    ensures
        same_shape(net, push_link(net, v, i, amount)),
        pairs_balanced(net, push_link(net, v, i, amount)),
        paired(push_link(net, v, i, amount)),
        capacities_valid(net) && 0 <= amount <= net[v][i].cap ==> capacities_valid(
            push_link(net, v, i, amount),
        ),
        forall|w: int|
            0 <= w < net.len() ==> #[trigger] out_cap(push_link(net, v, i, amount), w) == out_cap(net, w)
                - (if w == v { amount } else { 0 }) + (if w == net[v][i].to { amount } else { 0 }),
        forall|w: int, j: int|
            #![trigger push_link(net, v, i, amount)[w][j]]
            has_link(net, w, j) ==> push_link(net, v, i, amount)[w][j].cap == net[w][j].cap - (if w
                == v && j == i { amount } else { 0 }) + (if w == net[v][i].to && j == net[v][i].rev {
                amount
            } else {
                0
            }),
        twice_flow_cost(net, push_link(net, v, i, amount)) == 2 * (net[v][i].cost * amount),
{
    let l = net[v][i];
    let b = push_link(net, v, i, amount);
    assert(has_link(net, l.to, l.rev) && l.to != v);
    assert(net[l.to][l.rev].to == v && net[l.to][l.rev].rev == i);
    assert forall|w: int, j: int| #![trigger b[w][j]] has_link(net, w, j) implies {
        &&& b[w][j].to == net[w][j].to
        &&& b[w][j].rev == net[w][j].rev
        &&& b[w][j].cost == net[w][j].cost
        &&& b[w][j].cap == net[w][j].cap - (if w == v && j == i { amount } else { 0 }) + (if w == l.to
            && j == l.rev { amount } else { 0 })
    } by {}
    assert(same_shape(net, b));
    lemma_shape_keeps_pairs(net, b);
    assert forall|w: int, j: int| #![trigger net[w][j]] #![trigger b[w][j]] has_link(net, w, j) implies net[w][j].cap
        + partner(net, w, j).cap == b[w][j].cap + partner(b, w, j).cap by {
        let m = net[w][j];
        assert(has_link(net, m.to, m.rev));
        assert(net[m.to][m.rev].to == w && net[m.to][m.rev].rev == j);
        assert(b[w][j].to == m.to);
        assert(b[m.to][m.rev].to == w);
    }
    assert forall|w: int| 0 <= w < net.len() implies #[trigger] out_cap(b, w) == out_cap(net, w) - (if w
        == v { amount } else { 0 }) + (if w == l.to { amount } else { 0 }) by {
        let n = net[w].len() as int;
        let f = |j: int| net[w][j].cap;
        let g = |j: int| b[w][j].cap;
        if w == v {
            lemma_sum_point(n, f, g, i);
        } else if w == l.to {
            lemma_sum_point(n, f, g, l.rev);
        } else {
            lemma_sum_eq(n, f, g);
        }
    }
    let lens = row_lens(net);
    let d = |w: int, j: int| net[w][j].cost * (net[w][j].cap - b[w][j].cap);
    let zero = |w: int, j: int| 0int;
    let half = |w: int, j: int| if w == v && j == i { l.cost * amount } else { 0 };
    lemma_table_zero(lens, zero);
    lemma_table_point(lens, zero, half, v, i);
    assert forall|w: int, j: int|
        0 <= w < lens.len() && 0 <= j < lens[w] && !(w == l.to && j == l.rev) implies #[trigger] half(
        w,
        j,
    ) == d(w, j) by {
        assert(has_link(net, w, j));
        assert(net[w][j].cost * 0 == 0) by (nonlinear_arith);
    }
    lemma_table_point(lens, half, d, l.to, l.rev);
    let k = l.cost;
    assert((-k) * (-amount) == k * amount) by (nonlinear_arith);
}

/// Pushing nothing is a flow.
pub proof fn lemma_flow_refl(a: Seq<Seq<Link>>, s: int, t: int)
    requires
        network_wf(a),
    ensures
        is_flow(a, a, s, t),
        flow_value(a, a, s) == 0,
        twice_flow_cost(a, a) == 0,
{
    lemma_table_zero(row_lens(a), |v: int, i: int| a[v][i].cost * (a[v][i].cap - a[v][i].cap));
}

/// What has the shape of a network of partners is one.
pub proof fn lemma_shape_keeps_pairs(a: Seq<Seq<Link>>, b: Seq<Seq<Link>>)
    requires
        paired(a),
        same_shape(a, b),
    ensures
        paired(b),
{
    assert forall|v: int, i: int| #![trigger b[v][i]] has_link(b, v, i) implies {
        let l = b[v][i];
        &&& has_link(b, l.to, l.rev)
        &&& l.to != v
        &&& b[l.to][l.rev].to == v
        &&& b[l.to][l.rev].rev == i
        &&& b[l.to][l.rev].cost == -l.cost
    } by {
        assert(a[v].len() == b[v].len());
        let l = a[v][i];
        assert(has_link(a, l.to, l.rev));
        assert(a[l.to].len() == b[l.to].len());
        assert(a[l.to][l.rev].to == v);
    }
}

/// A flow and then another one are a flow.
pub proof fn lemma_flow_trans(
    a: Seq<Seq<Link>>,
    b: Seq<Seq<Link>>,
    c: Seq<Seq<Link>>,
    s: int,
    t: int,
)
    requires
        network_wf(a),
        is_flow(a, b, s, t),
        is_flow(b, c, s, t),
    ensures
        is_flow(a, c, s, t),
        flow_value(a, c, s) == flow_value(a, b, s) + flow_value(b, c, s),
        twice_flow_cost(a, c) == twice_flow_cost(a, b) + twice_flow_cost(b, c),
{
    lemma_shape_trans(a, b, c);
    assert(pairs_balanced(a, c)) by {
        assert forall|v: int, i: int| #![trigger a[v][i]] #![trigger c[v][i]] has_link(a, v, i) implies a[v][i].cap
            + partner(a, v, i).cap == c[v][i].cap + partner(c, v, i).cap by {
            assert(a[v].len() == b[v].len());
            assert(b[v][i].cap + partner(b, v, i).cap == c[v][i].cap + partner(c, v, i).cap);
        }
    }
    assert forall|v: int|
        #![trigger out_cap(a, v)]
        #![trigger out_cap(c, v)]
        0 <= v < a.len() && v != s && v != t implies out_cap(a, v) == out_cap(c, v) by {
        assert(out_cap(a, v) == out_cap(b, v));
        assert(out_cap(b, v) == out_cap(c, v));
    }
    lemma_cost_trans(a, b, c);
}

/// Costs of successive changes add up.
pub proof fn lemma_cost_trans(a: Seq<Seq<Link>>, b: Seq<Seq<Link>>, c: Seq<Seq<Link>>)
    requires
        same_shape(a, b),
    ensures
        twice_flow_cost(a, c) == twice_flow_cost(a, b) + twice_flow_cost(b, c),
{
    let lens = row_lens(a);
    assert(row_lens(b) =~= lens) by {
        assert forall|v: int| 0 <= v < a.len() implies #[trigger] row_lens(b)[v] == lens[v] by {
            assert(a[v].len() == b[v].len());
        }
    }
    let ab = |v: int, i: int| a[v][i].cost * (a[v][i].cap - b[v][i].cap);
    let bc = |v: int, i: int| b[v][i].cost * (b[v][i].cap - c[v][i].cap);
    let ac = |v: int, i: int| a[v][i].cost * (a[v][i].cap - c[v][i].cap);
    lemma_table_add(lens, ab, bc);
    let both = |v: int, i: int| ab(v, i) + bc(v, i);
    assert forall|v: int, i: int| 0 <= v < lens.len() && 0 <= i < lens[v] implies #[trigger] both(v, i)
        == ac(v, i) by {
        assert(a[v][i].cost == b[v][i].cost);
        let k = a[v][i].cost;
        let x = a[v][i].cap;
        let y = b[v][i].cap;
        let z = c[v][i].cap;
        assert(k * (x - y) + k * (y - z) == k * (x - z)) by (nonlinear_arith);
    }
    lemma_table_eq(lens, both, ac);
}

/// What leaves `s` arrives at `t`.
pub proof fn lemma_value_arrives(a: Seq<Seq<Link>>, b: Seq<Seq<Link>>, s: int, t: int)
    requires
        network_wf(a),
        is_flow(a, b, s, t),
        0 <= s < a.len(),
        0 <= t < a.len(),
        s != t,
    ensures
        out_cap(b, t) - out_cap(a, t) == flow_value(a, b, s),
{
    let d = |v: int, i: int| a[v][i].cap - b[v][i].cap;
    lemma_flow_difference_antisymmetric(a, a, b, s, t);
    lemma_antisymmetric_sum(a, d);
    let one = |v: int| 1int;
    lemma_row_differences(a, b, one);
    lemma_table_eq(row_lens(a), d, |v: int, i: int| one(v) * (a[v][i].cap - b[v][i].cap));
    let f = |v: int| one(v) * (out_cap(a, v) - out_cap(b, v));
    let g = |v: int| if v == t { 0 } else { f(v) };
    lemma_sum_point(a.len() as int, f, g, t);
    lemma_sum_single(a.len() as int, g, s);
}

/// The difference of two flows of the same network is antisymmetric.
pub proof fn lemma_flow_difference_antisymmetric(
    a: Seq<Seq<Link>>,
    b: Seq<Seq<Link>>,
    c: Seq<Seq<Link>>,
    s: int,
    t: int,
)
    requires
        paired(a),
        same_shape(a, b),
        pairs_balanced(a, b),
        same_shape(a, c),
        pairs_balanced(a, c),
    ensures
        antisymmetric(a, |v: int, i: int| b[v][i].cap - c[v][i].cap),
{
    let d = |v: int, i: int| b[v][i].cap - c[v][i].cap;
    assert forall|v: int, i: int| #![trigger d(v, i)] has_link(a, v, i) implies d(
        a[v][i].to,
        a[v][i].rev,
    ) == -d(v, i) by {
        assert(b[v][i].to == a[v][i].to && c[v][i].to == a[v][i].to);
        assert(a[v][i].cap + partner(a, v, i).cap == b[v][i].cap + partner(b, v, i).cap);
        assert(a[v][i].cap + partner(a, v, i).cap == c[v][i].cap + partner(c, v, i).cap);
    }
}

/// A flow that saturates every link out of a set with `s` in it and `t` not is a
/// maximum flow: no flow of the same network has a larger value.
pub proof fn lemma_saturated_cut_is_maximum(
    a: Seq<Seq<Link>>,
    b: Seq<Seq<Link>>,
    c: Seq<Seq<Link>>,
    s: int,
    t: int,
    inside: spec_fn(int) -> bool,
)
    requires
        network_wf(a),
        0 <= s < a.len(),
        0 <= t < a.len(),
        is_flow(a, b, s, t),
        is_flow(a, c, s, t),
        inside(s),
        !inside(t),
        closed_set(b, inside),
    ensures
        flow_value(a, c, s) <= flow_value(a, b, s),
{
    let lens = row_lens(a);
    let n = a.len() as int;
    let diff = |v: int, i: int| b[v][i].cap - c[v][i].cap;
    lemma_flow_difference_antisymmetric(a, b, c, s, t);
    let within = |v: int, i: int|
        if inside(v) && inside(a[v][i].to) {
            b[v][i].cap - c[v][i].cap
        } else {
            0
        };
    assert forall|v: int, i: int| #![trigger within(v, i)] has_link(a, v, i) implies within(
        a[v][i].to,
        a[v][i].rev,
    ) == -within(v, i) by {
        let l = a[v][i];
        assert(a[l.to][l.rev].to == v);
        assert(diff(l.to, l.rev) == -diff(v, i));
    }
    lemma_antisymmetric_sum(a, within);
    let weight = |v: int| if inside(v) { 1int } else { 0int };
    lemma_shape_between(a, b, c);
    lemma_row_differences(b, c, weight);
    let e = |v: int, i: int| weight(v) * (b[v][i].cap - c[v][i].cap);
    assert(row_lens(b) =~= lens) by {
        assert forall|v: int| 0 <= v < a.len() implies #[trigger] row_lens(b)[v] == lens[v] by {
            assert(a[v].len() == b[v].len());
        }
    }
    assert forall|v: int, i: int| 0 <= v < lens.len() && 0 <= i < lens[v] implies #[trigger] e(v, i)
        <= within(v, i) by {
        assert(b[v][i].to == a[v][i].to);
        assert(a[v].len() == b[v].len());
        assert(a[v].len() == c[v].len());
        assert(c[v][i].cap >= 0);
        assert(b[v][i].cap >= 0);
        if inside(v) {
            assert(weight(v) == 1);
            if b[v][i].cap > 0 {
                assert(inside(b[v][i].to));
            }
        } else {
            assert(weight(v) == 0);
        }
    }
    lemma_table_le(lens, e, within);
    let rows = |v: int| weight(v) * (out_cap(b, v) - out_cap(c, v));
    assert forall|v: int| 0 <= v < n && v != s implies #[trigger] rows(v) == 0 by {
        if v != t {
            assert(out_cap(a, v) == out_cap(b, v));
            assert(out_cap(a, v) == out_cap(c, v));
        }
    }
    lemma_sum_single(n, rows, s);
}

/// Having the same shape carries over.
pub proof fn lemma_shape_trans(a: Seq<Seq<Link>>, b: Seq<Seq<Link>>, c: Seq<Seq<Link>>)
    requires
        same_shape(a, b),
        same_shape(b, c),
    ensures
        same_shape(a, c),
{
    assert forall|v: int| #![trigger a[v]] #![trigger c[v]] 0 <= v < a.len() implies a[v].len()
        == c[v].len() by {
        assert(a[v].len() == b[v].len());
    }
    assert forall|v: int, i: int| #![trigger a[v][i]] #![trigger c[v][i]] has_link(a, v, i) implies {
        &&& a[v][i].to == c[v][i].to
        &&& a[v][i].rev == c[v][i].rev
        &&& a[v][i].cost == c[v][i].cost
    } by {
        assert(a[v].len() == b[v].len());
        assert(b[v][i].to == c[v][i].to);
    }
}

proof fn lemma_shape_between(a: Seq<Seq<Link>>, b: Seq<Seq<Link>>, c: Seq<Seq<Link>>)
    requires
        same_shape(a, b),
        same_shape(a, c),
    ensures
        same_shape(b, c),
{
    assert forall|v: int| #![trigger b[v]] #![trigger c[v]] 0 <= v < b.len() implies b[v].len()
        == c[v].len() by {
        assert(a[v].len() == b[v].len());
        assert(a[v].len() == c[v].len());
    }
    assert forall|v: int, i: int| #![trigger b[v][i]] #![trigger c[v][i]] has_link(b, v, i) implies {
        &&& b[v][i].to == c[v][i].to
        &&& b[v][i].rev == c[v][i].rev
        &&& b[v][i].cost == c[v][i].cost
    } by {
        assert(a[v].len() == b[v].len());
        assert(a[v][i].to == b[v][i].to);
        assert(a[v][i].to == c[v][i].to);
    }
}

/// A flow whose residual network admits feasible prices is cheapest among the flows
/// of its value.
pub proof fn lemma_feasible_prices_are_cheapest(
    a: Seq<Seq<Link>>,
    b: Seq<Seq<Link>>,
    c: Seq<Seq<Link>>,
    s: int,
    t: int,
    q: Seq<int>,
)
    requires
        network_wf(a),
        0 <= s < a.len(),
        0 <= t < a.len(),
        s != t,
        is_flow(a, b, s, t),
        is_flow(a, c, s, t),
        flow_value(a, b, s) == flow_value(a, c, s),
        feasible_prices(b, q),
    ensures
        twice_flow_cost(a, b) <= twice_flow_cost(a, c),
{
    let lens = row_lens(a);
    let n = a.len() as int;
    let diff = |v: int, i: int| b[v][i].cap - c[v][i].cap;
    lemma_flow_difference_antisymmetric(a, b, c, s, t);
    lemma_shape_between(a, b, c);
    lemma_value_arrives(a, b, s, t);
    lemma_value_arrives(a, c, s, t);
    assert(row_lens(b) =~= lens) by {
        assert forall|v: int| 0 <= v < a.len() implies #[trigger] row_lens(b)[v] == lens[v] by {
            assert(a[v].len() == b[v].len());
        }
    }
    // The prices of the tails, weighed by the difference, cancel row by row.
    let price = |v: int| q[v];
    lemma_row_differences(b, c, price);
    let tails = |v: int, i: int| price(v) * (b[v][i].cap - c[v][i].cap);
    let rows = |v: int| price(v) * (out_cap(b, v) - out_cap(c, v));
    assert forall|v: int| 0 <= v < n implies #[trigger] rows(v) == 0 by {
        if v != s && v != t {
            assert(out_cap(a, v) == out_cap(b, v));
            assert(out_cap(a, v) == out_cap(c, v));
        }
        assert(out_cap(b, v) - out_cap(c, v) == 0);
        assert(price(v) * 0 == 0) by (nonlinear_arith);
    }
    lemma_sum_zero(n, rows);
    assert(table_sum(lens, tails) == 0);
    // Tails and heads together are antisymmetric.
    let ends = |v: int, i: int| (q[v] + q[a[v][i].to]) * diff(v, i);
    assert forall|v: int, i: int| #![trigger ends(v, i)] has_link(a, v, i) implies ends(
        a[v][i].to,
        a[v][i].rev,
    ) == -ends(v, i) by {
        let l = a[v][i];
        assert(a[l.to][l.rev].to == v);
        assert(diff(l.to, l.rev) == -diff(v, i));
        let x = q[v];
        let y = q[l.to];
        let z = diff(v, i);
        assert((y + x) * (-z) == -((x + y) * z)) by (nonlinear_arith);
    }
    lemma_antisymmetric_sum(a, ends);
    // Reduced costs times difference are nowhere negative.
    let reduced = |v: int, i: int| (a[v][i].cost + q[v] - q[a[v][i].to]) * diff(v, i);
    let zero = |v: int, i: int| 0int;
    lemma_table_zero(lens, zero);
    assert forall|v: int, i: int| 0 <= v < lens.len() && 0 <= i < lens[v] implies #[trigger] zero(v, i)
        <= reduced(v, i) by {
        let l = a[v][i];
        assert(has_link(a, v, i));
        assert(a[v].len() == b[v].len() && a[v].len() == c[v].len());
        assert(b[v][i].to == l.to && b[v][i].rev == l.rev && b[v][i].cost == l.cost);
        assert(a[l.to].len() == b[l.to].len() && a[l.to].len() == c[l.to].len());
        assert(a[l.to][l.rev].to == v);
        assert(b[l.to][l.rev].to == v && b[l.to][l.rev].cost == -l.cost);
        assert(diff(l.to, l.rev) == -diff(v, i));
        assert(c[v][i].cap >= 0 && c[l.to][l.rev].cap >= 0);
        let w = l.cost + q[v] - q[l.to];
        let z = diff(v, i);
        if z > 0 {
            assert(b[v][i].cap > 0);
            assert(w >= 0);
        }
        if z < 0 {
            assert(b[l.to][l.rev].cap > 0);
            assert(w <= 0);
        }
        assert(w * z >= 0) by (nonlinear_arith)
            requires
                z > 0 ==> w >= 0,
                z < 0 ==> w <= 0,
        ;
    }
    lemma_table_le(lens, zero, reduced);
    // costs + 2 * tails = reduced + ends
    let costs = |v: int, i: int| a[v][i].cost * diff(v, i);
    let left = |v: int, i: int| costs(v, i) + tails(v, i);
    let left2 = |v: int, i: int| left(v, i) + tails(v, i);
    let right = |v: int, i: int| reduced(v, i) + ends(v, i);
    lemma_table_add(lens, costs, tails);
    lemma_table_add(lens, left, tails);
    lemma_table_add(lens, reduced, ends);
    assert forall|v: int, i: int| 0 <= v < lens.len() && 0 <= i < lens[v] implies #[trigger] left2(v, i)
        == right(v, i) by {
        let k = a[v][i].cost;
        let x = q[v];
        let y = q[a[v][i].to];
        let z = diff(v, i);
        assert(k * z + x * z + x * z == (k + x - y) * z + (x + y) * z) by (nonlinear_arith);
    }
    lemma_table_eq(lens, left2, right);
    assert(table_sum(lens, costs) >= 0);
    let cb = |v: int, i: int| a[v][i].cost * (a[v][i].cap - b[v][i].cap);
    let cc = |v: int, i: int| a[v][i].cost * (a[v][i].cap - c[v][i].cap);
    lemma_table_add(lens, cb, costs);
    let both = |v: int, i: int| cb(v, i) + costs(v, i);
    assert forall|v: int, i: int| 0 <= v < lens.len() && 0 <= i < lens[v] implies #[trigger] both(v, i)
        == cc(v, i) by {
        let k = a[v][i].cost;
        let x = a[v][i].cap;
        let y = b[v][i].cap;
        let z = c[v][i].cap;
        assert(k * (x - y) + k * (y - z) == k * (x - z)) by (nonlinear_arith);
    }
    lemma_table_eq(lens, both, cc);
}

/// `net` with a link of capacity `cap` and cost `cost` between `from` and `to` added, and its
/// partner.
pub open spec fn with_edge(
    net: Seq<Seq<Link>>,
    from: int,
    to: int,
    cap: int,
    cost: int,
) -> Seq<Seq<Link>> {
    let there = Link { to, rev: net[to].len() as int, cap, cost };
    let back = Link { to: from, rev: net[from].len() as int, cap: 0, cost: -cost };
    let half = net.update(from, net[from].push(there));
    half.update(to, half[to].push(back))
}

/// A link together with its partner never holds more than fits an `i32`.
pub open spec fn pairs_fit(net: Seq<Seq<Link>>) -> bool {
    forall|v: int, i: int|
        #![trigger net[v][i]]
        has_link(net, v, i) ==> net[v][i].cap + partner(net, v, i).cap <= i32::MAX
}

/// Distinct numbers below `n` are at most `n` many.
pub proof fn lemma_distinct_below(s: Seq<int>, n: int)
    requires
        0 <= n,
        s.no_duplicates(),
        forall|i: int| 0 <= i < s.len() ==> 0 <= #[trigger] s[i] < n,
    ensures
        s.len() <= n,
{
    s.unique_seq_to_set();
    vstd::set_lib::lemma_int_range(0, n);
    assert(s.to_set().subset_of(vstd::set_lib::set_int_range(0, n)));
    vstd::set_lib::lemma_len_subset(s.to_set(), vstd::set_lib::set_int_range(0, n));
}

/// Adding a link between two different nodes keeps links paired.
pub proof fn lemma_with_edge(net: Seq<Seq<Link>>, from: int, to: int, cap: int, cost: int)
    requires
        paired(net),
        0 <= from < net.len(),
        0 <= to < net.len(),
        from != to,
    ensures
        paired(with_edge(net, from, to, cap, cost)),
        capacities_valid(net) && cap >= 0 ==> capacities_valid(with_edge(net, from, to, cap, cost)),
        pairs_fit(net) && cap <= i32::MAX ==> pairs_fit(with_edge(net, from, to, cap, cost)),
{
    let b = with_edge(net, from, to, cap, cost);
    assert forall|v: int, i: int| #![trigger b[v][i]] has_link(b, v, i) implies {
        let l = b[v][i];
        &&& has_link(b, l.to, l.rev)
        &&& l.to != v
        &&& b[l.to][l.rev].to == v
        &&& b[l.to][l.rev].rev == i
        &&& b[l.to][l.rev].cost == -l.cost
    } by {
        if has_link(net, v, i) {
            let l = net[v][i];
            assert(has_link(net, l.to, l.rev));
            assert(net[l.to][l.rev].to == v);
            assert(b[v][i] == l);
            assert(b[l.to][l.rev] == net[l.to][l.rev]);
        }
    }
    if capacities_valid(net) && cap >= 0 {
        assert forall|v: int, i: int| #![trigger b[v][i]] has_link(b, v, i) implies b[v][i].cap >= 0 by {
            if has_link(net, v, i) {
                assert(b[v][i] == net[v][i]);
            }
        }
    }
    if pairs_fit(net) && cap <= i32::MAX {
        assert forall|v: int, i: int| #![trigger b[v][i]] has_link(b, v, i) implies b[v][i].cap + partner(
            b,
            v,
            i,
        ).cap <= i32::MAX by {
            if has_link(net, v, i) {
                let l = net[v][i];
                assert(has_link(net, l.to, l.rev));
                assert(b[v][i] == l);
                assert(b[l.to][l.rev] == net[l.to][l.rev]);
            }
        }
    }
}

} // verus!
