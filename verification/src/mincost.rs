//! Cheapest flow of a given value by successive shortest paths.
use vstd::multiset::Multiset;
use vstd::prelude::*;

use crate::course::{
    advanced, course_after, course_end, course_is_over, course_start, is_complete, is_first,
    lemma_course_end, lemma_first_label, lemma_search_end, lemma_way_back, looked_over,
    next_search, raised, room, search_end, search_is_over, search_start, search_step, searched,
    sent_over, way_back, Course, Search, FAR,
};
use crate::dinic::{is_maximum_flow, lemma_no_walk_is_maximum, walk};
use crate::heap::LabelHeap;
use crate::network::{
    capacities_valid, closed_set, feasible_prices, flow_value, has_link, is_flow, lemma_cost_trans,
    lemma_distinct_below, lemma_feasible_prices_are_cheapest, lemma_flow_refl, lemma_flow_trans,
    lemma_push_link, lemma_saturated_cut_is_maximum, lemma_shape_trans, lemma_with_edge, network_wf,
    out_cap, paired, pairs_balanced, pairs_fit, partner, push_link, same_shape, twice_flow_cost,
    with_edge, Link,
};
use crate::sums::{lemma_sum_bounds, lemma_sum_point, sum};

verus! {

/// A link of the network: where it leads, the place of its partner there, the capacity left, and
/// what a unit costs.
#[derive(Clone, Copy)]
pub struct CostEdge {
    pub to: usize,
    pub rev: usize,
    pub cap: i32,
    pub cost: i64,
}

/// A flow network with costs.
pub struct MinCostMaxFlow {
    pub graph: Vec<Vec<CostEdge>>,
}

impl CostEdge {
    /// The link that the edge is.
    pub open spec fn link(self) -> Link {
        Link {
            to: self.to as int,
            rev: self.rev as int,
            cap: self.cap as int,
            cost: self.cost as int,
        }
    }
}

/// No link of `net` costs or earns more than `c`, no cycle of links with capacity left has
/// negative cost, and the length of a path fits in an `i128` with room to spare.
pub open spec fn costs_fit(net: Seq<Seq<Link>>, s: int, c: int) -> bool {
    &&& 0 <= c
    &&& 8 * (net.len() * c) < i128::MAX
    &&& forall|v: int, i: int|
        #![trigger net[v][i]]
        has_link(net, v, i) ==> -c <= net[v][i].cost <= c
    &&& exists|q: Seq<int>| #[trigger]
        feasible_prices(net, q) && forall|v: int|
            0 <= v < net.len() ==> #[trigger] q[v] - q[s] >= -(net.len() * c)
}

/// What a shortest path search works on: the network, the source, prices that show that
/// there is no cycle of negative cost, the potentials, and the bound on the cost of a link.
pub struct Terrain {
    pub net: Seq<Seq<Link>>,
    pub s: int,
    pub q: Seq<int>,
    pub pot: Seq<i128>,
    pub c: int,
}

/// What a shortest path search has found out: distances reduced by the potentials, the link over
/// which each node was last reached and when, and the nodes in the order in which they were
/// first reached.
pub struct Labels {
    pub dist: Seq<i128>,
    pub prev_node: Seq<usize>,
    pub prev_edge: Seq<usize>,
    pub stamp: Seq<int>,
    pub clock: int,
    pub order: Seq<int>,
}

impl Terrain {
    /// What a path costs at most.
    pub open spec fn bound(self) -> int {
        self.net.len() * self.c
    }

    /// The prices and potentials suit the network.
    pub open spec fn wf(self) -> bool {
        let n = self.net.len();
        &&& network_wf(self.net)
        &&& 0 <= self.s < n
        &&& self.pot.len() == n
        &&& self.pot[self.s] == 0
        &&& feasible_prices(self.net, self.q)
        &&& 0 <= self.c
        &&& 8 * self.bound() < i128::MAX
        &&& forall|v: int| 0 <= v < n ==> -self.bound() <= #[trigger] self.pot[v] <= self.bound()
        &&& forall|v: int| 0 <= v < n ==> #[trigger] self.q[v] - self.q[self.s] >= -self.bound()
        &&& forall|v: int, i: int|
            #![trigger self.net[v][i]]
            has_link(self.net, v, i) ==> -self.c <= self.net[v][i].cost <= self.c
    }
}

impl Labels {
    /// The search has come to `v`.
    pub open spec fn reached(self, v: int) -> bool {
        self.dist[v] < FAR
    }
}

/// The cost of the path over which `v` was reached.
pub open spec fn label(e: Terrain, l: Labels, v: int) -> int {
    l.dist[v] + e.pot[v]
}

/// By how much that cost exceeds what the prices ask for.
pub open spec fn excess(e: Terrain, l: Labels, v: int) -> int {
    label(e, l, v) - e.q[v] + e.q[e.s]
}

/// Node `u` comes before `v` on every recorded path.
pub open spec fn earlier(e: Terrain, l: Labels, u: int, v: int) -> bool {
    ||| excess(e, l, u) < excess(e, l, v)
    ||| excess(e, l, u) == excess(e, l, v) && l.stamp[u] < l.stamp[v]
}

/// Every recorded link leads from a reached node, has capacity, and does not promise more than
/// the label of the node it leads to.
pub open spec fn recorded_link_ok(e: Terrain, l: Labels, v: int) -> bool {
    let u = l.prev_node[v] as int;
    let i = l.prev_edge[v] as int;
    &&& has_link(e.net, u, i)
    &&& e.net[u][i].to == v
    &&& e.net[u][i].cap > 0
    &&& l.reached(u)
    &&& label(e, l, v) >= label(e, l, u) + e.net[u][i].cost
    &&& earlier(e, l, u, v)
}

/// What has been found out is true of the network.
pub open spec fn labels_ok(e: Terrain, l: Labels) -> bool {
    let n = e.net.len();
    &&& l.dist.len() == n
    &&& l.prev_node.len() == n
    &&& l.prev_edge.len() == n
    &&& l.stamp.len() == n
    &&& l.dist[e.s] == 0
    &&& forall|v: int| 0 <= v < n ==> #[trigger] l.dist[v] <= FAR
    &&& forall|v: int| 0 <= v < n ==> 0 <= #[trigger] l.stamp[v] < l.clock
    &&& l.order.no_duplicates()
    &&& forall|j: int| 0 <= j < l.order.len() ==> 0 <= #[trigger] l.order[j] < n
    &&& forall|v: int| 0 <= v < n && #[trigger] l.reached(v) ==> l.order.contains(v)
    &&& forall|j: int| 0 <= j < l.order.len() ==> l.reached(#[trigger] l.order[j])
    &&& forall|j: int| 0 <= j < l.order.len() ==> label(e, l, #[trigger] l.order[j]) <= j * e.c
    &&& forall|v: int| 0 <= v < n && #[trigger] l.reached(v) ==> excess(e, l, v) >= 0
    &&& forall|v: int| 0 <= v < n && #[trigger] l.reached(v) && v != e.s ==> recorded_link_ok(e, l, v)
}

/// The first `k` links of `u` lead nowhere at less cost than is known.
pub open spec fn relaxed_upto(e: Terrain, l: Labels, u: int, k: int) -> bool {
    forall|i: int|
        #![trigger e.net[u][i]]
        0 <= i < k && i < e.net[u].len() && e.net[u][i].cap > 0 ==> l.reached(e.net[u][i].to) && label(
            e,
            l,
            e.net[u][i].to,
        ) <= label(e, l, u) + e.net[u][i].cost
}

/// The links of `u` lead nowhere at less cost than is known.
pub open spec fn relaxed(e: Terrain, l: Labels, u: int) -> bool {
    relaxed_upto(e, l, u, e.net[u].len() as int)
}

/// Every reached node either waits in the queue or has all its links relaxed; `but` is the
/// node under way.
pub open spec fn queue_ok(e: Terrain, l: Labels, queue: Multiset<(i128, usize)>, but: int) -> bool {
    &&& forall|v: int|
        0 <= v < e.net.len() && #[trigger] l.reached(v) && v != but ==> queue.count(
            (l.dist[v], v as usize),
        ) > 0 || relaxed(e, l, v)
    &&& forall|d: i128, x: usize| #[trigger] queue.count((d, x)) > 0 ==> x < e.net.len() && d < FAR
}

/// How far the labels may still fall.
pub open spec fn slack(e: Terrain, l: Labels) -> int {
    sum(
        e.net.len() as int,
        |v: int| if l.reached(v) { excess(e, l, v) } else { 2 * e.bound() + 1 },
    )
}

proof fn lemma_order_bound(e: Terrain, l: Labels, j: int)
    requires
        e.wf(),
        labels_ok(e, l),
        0 <= j < l.order.len(),
    ensures
        l.order.len() <= e.net.len(),
        j * e.c + e.c <= e.bound(),
{
    lemma_distinct_below(l.order, e.net.len() as int);
    let n = e.net.len() as int;
    let c = e.c;
    assert(j * c + c <= n * c) by (nonlinear_arith)
        requires
            0 <= j,
            j + 1 <= n,
            0 <= c,
    ;
}

proof fn lemma_label_bounds(e: Terrain, l: Labels, v: int)
    requires
        e.wf(),
        labels_ok(e, l),
        0 <= v < e.net.len(),
        l.reached(v),
    ensures
        -e.bound() <= label(e, l, v) <= e.bound(),
        0 <= excess(e, l, v) <= 2 * e.bound(),
        l.order.len() <= e.net.len(),
        exists|j: int| 0 <= j < l.order.len() && l.order[j] == v,
{
    assert(l.order.contains(v));
    let j = choose|j: int| 0 <= j < l.order.len() && l.order[j] == v;
    lemma_order_bound(e, l, j);
    assert(label(e, l, l.order[j]) <= j * e.c);
    assert(e.q[v] - e.q[e.s] >= -e.bound());
}

proof fn lemma_slack_nonnegative(e: Terrain, l: Labels)
    requires
        e.wf(),
        labels_ok(e, l),
    ensures
        slack(e, l) >= 0,
{
    let f = |v: int| if l.reached(v) { excess(e, l, v) } else { 2 * e.bound() + 1 };
    let n = e.net.len() as int;
    assert(e.bound() >= 0) by {
        let c = e.c;
        assert(n * c >= 0) by (nonlinear_arith)
            requires
                n >= 0,
                c >= 0,
        ;
    }
    assert forall|v: int| 0 <= v < n implies 0 <= #[trigger] f(v) <= 2 * e.bound() + 1 by {
        if l.reached(v) {
            lemma_label_bounds(e, l, v);
        }
    }
    lemma_sum_bounds(n, f, 0, 2 * e.bound() + 1);
}

/// The labels after node `w` was reached at less cost over link `(u, k)`.
pub open spec fn improved(l: Labels, u: int, k: int, w: int, next: int) -> Labels {
    Labels {
        dist: l.dist.update(w, next as i128),
        prev_node: l.prev_node.update(w, u as usize),
        prev_edge: l.prev_edge.update(w, k as usize),
        stamp: l.stamp.update(w, l.clock),
        clock: l.clock + 1,
        order: if l.reached(w) { l.order } else { l.order.push(w) },
    }
}

/// What changes when node `w` is reached at less cost over link `(u, k)`.
spec fn improves(e: Terrain, l: Labels, u: int, k: int, w: int, l2: Labels) -> bool {
    &&& 0 <= w < e.net.len()
    &&& w != u
    &&& w != e.s
    &&& l2.reached(w)
    &&& label(e, l2, w) == label(e, l, u) + e.net[u][k].cost
    &&& label(e, l2, w) < label(e, l, w)
    &&& forall|v: int|
        #![trigger l2.dist[v]]
        #![trigger l.dist[v]]
        0 <= v < e.net.len() && v != w ==> l2.dist[v] == l.dist[v]
}

/// Recording a cheaper way to reach a node keeps the labels sound.
proof fn lemma_improve_labels(e: Terrain, l: Labels, u: int, k: int)
    requires
        e.wf(),
        e.net.len() <= usize::MAX,
        labels_ok(e, l),
        has_link(e.net, u, k),
        k <= usize::MAX,
        e.net[u][k].cap > 0,
        l.reached(u),
        l.dist[u] + e.net[u][k].cost + e.pot[u] - e.pot[e.net[u][k].to] < l.dist[e.net[u][k].to],
    ensures
        ({
            let w = e.net[u][k].to;
            let next = l.dist[u] + e.net[u][k].cost + e.pot[u] - e.pot[w];
            let l2 = improved(l, u, k, w, next);
            &&& i128::MIN <= next <= i128::MAX
            &&& labels_ok(e, l2)
            &&& improves(e, l, u, k, w, l2)
        }),
{
    let n = e.net.len() as int;
    let m = e.net[u][k];
    let w = m.to;
    let next = l.dist[u] + m.cost + e.pot[u] - e.pot[w];
    let l2 = improved(l, u, k, w, next);
    let b = e.bound();
    assert(has_link(e.net, w, m.rev));
    lemma_label_bounds(e, l, u);
    let ju = choose|j: int| 0 <= j < l.order.len() && l.order[j] == u;
    assert(label(e, l, l.order[ju]) <= ju * e.c);
    lemma_order_bound(e, l, ju);
    assert(l.dist[w] <= FAR);
    assert(-b <= e.pot[w] <= b && -b <= e.pot[u] <= b);
    // the label of w falls to that of u plus the cost of the link
    assert(label(e, l2, w) == label(e, l, u) + m.cost);
    assert(m.cost + e.q[u] - e.q[w] >= 0);
    assert(excess(e, l2, w) == excess(e, l, u) + (m.cost + e.q[u] - e.q[w]));
    if w == e.s {
        assert(excess(e, l, w) == 0);
        assert(false);
    }
    assert(w != u);
    assert forall|v: int| 0 <= v < n && v != w implies #[trigger] label(e, l2, v) == label(e, l, v)
        && excess(e, l2, v) == excess(e, l, v) && l2.reached(v) == l.reached(v) by {}
    // order
    if !l.reached(w) {
        assert(!l.order.contains(w)) by {
            if l.order.contains(w) {
                let j = choose|j: int| 0 <= j < l.order.len() && l.order[j] == w;
                assert(l.reached(l.order[j]));
            }
        }
    }
    assert(l2.order.no_duplicates());
    assert forall|v: int| 0 <= v < n && #[trigger] l2.reached(v) implies l2.order.contains(v) by {
        if v == w && !l.reached(w) {
            assert(l2.order[l.order.len() as int] == w);
        } else {
            assert(l.reached(v));
            assert(l.order.contains(v));
            let j = choose|j: int| 0 <= j < l.order.len() && l.order[j] == v;
            assert(l2.order[j] == v);
        }
    }
    assert forall|j: int| 0 <= j < l2.order.len() implies l2.reached(#[trigger] l2.order[j]) by {
        if j < l.order.len() {
            assert(l2.order[j] == l.order[j]);
            assert(l.reached(l.order[j]));
        }
    }
    assert forall|j: int| 0 <= j < l2.order.len() implies label(e, l2, #[trigger] l2.order[j]) <= j
        * e.c by {
        if j < l.order.len() {
            assert(l2.order[j] == l.order[j]);
            assert(label(e, l, l.order[j]) <= j * e.c);
        } else {
            let c = e.c;
            assert(ju * c + c <= j * c) by (nonlinear_arith)
                requires
                    ju + 1 <= j,
                    0 <= c,
            ;
        }
    }
    assert forall|v: int| 0 <= v < n && #[trigger] l2.reached(v) implies excess(e, l2, v) >= 0 by {
        if v != w {
            assert(l.reached(v));
            assert(label(e, l2, v) == label(e, l, v));
        }
    }
    assert forall|v: int| 0 <= v < n && #[trigger] l2.reached(v) && v != e.s implies recorded_link_ok(
        e,
        l2,
        v,
    ) by {
        if v == w {
            assert(label(e, l2, u) == label(e, l, u));
            assert(l.stamp[u] < l.clock);
        } else {
            assert(l.reached(v));
            assert(recorded_link_ok(e, l, v));
            let x = l.prev_node[v] as int;
            let i = l.prev_edge[v] as int;
            assert(label(e, l2, v) == label(e, l, v));
            if x == w {
                assert(l.reached(w));
                assert(excess(e, l2, w) < excess(e, l, w));
            } else {
                assert(label(e, l2, x) == label(e, l, x));
            }
        }
    }
    assert(labels_ok(e, l2));
}

/// Recording a cheaper way to reach a node keeps the labels sound, puts the node into the queue,
/// and uses up slack.
proof fn lemma_improve(e: Terrain, l: Labels, queue: Multiset<(i128, usize)>, u: int, k: int)
    requires
        e.wf(),
        e.net.len() <= usize::MAX,
        labels_ok(e, l),
        queue_ok(e, l, queue, u),
        has_link(e.net, u, k),
        k <= usize::MAX,
        e.net[u][k].cap > 0,
        l.reached(u),
        relaxed_upto(e, l, u, k),
        l.dist[u] + e.net[u][k].cost + e.pot[u] - e.pot[e.net[u][k].to] < l.dist[e.net[u][k].to],
    ensures
        ({
            let w = e.net[u][k].to;
            let next = l.dist[u] + e.net[u][k].cost + e.pot[u] - e.pot[w];
            let l2 = improved(l, u, k, w, next);
            &&& i128::MIN <= next <= i128::MAX
            &&& labels_ok(e, l2)
            &&& queue_ok(e, l2, queue.insert((next as i128, w as usize)), u)
            &&& l2.reached(u)
            &&& l2.dist[u] == l.dist[u]
            &&& relaxed_upto(e, l2, u, k + 1)
            &&& slack(e, l2) < slack(e, l)
        }),
{
    let n = e.net.len() as int;
    let m = e.net[u][k];
    let w = m.to;
    let next = l.dist[u] + m.cost + e.pot[u] - e.pot[w];
    let l2 = improved(l, u, k, w, next);
    let b = e.bound();
    lemma_improve_labels(e, l, u, k);
    lemma_improve_queue(e, l, l2, queue, u, k);
    // slack
    let f = |v: int| if l.reached(v) { excess(e, l, v) } else { 2 * b + 1 };
    let g = |v: int| if l2.reached(v) { excess(e, l2, v) } else { 2 * b + 1 };
    assert forall|v: int| 0 <= v < n && v != w implies #[trigger] f(v) == g(v) by {
        assert(l2.dist[v] == l.dist[v]);
    }
    lemma_sum_point(n, f, g, w);
    lemma_label_bounds(e, l2, w);
}

proof fn lemma_improve_queue(
    e: Terrain,
    l: Labels,
    l2: Labels,
    queue: Multiset<(i128, usize)>,
    u: int,
    k: int,
)
    requires
        paired(e.net),
        e.net.len() <= usize::MAX,
        has_link(e.net, u, k),
        l.reached(u),
        queue_ok(e, l, queue, u),
        relaxed_upto(e, l, u, k),
        improves(e, l, u, k, e.net[u][k].to, l2),
    ensures
        queue_ok(
            e,
            l2,
            queue.insert((l2.dist[e.net[u][k].to], e.net[u][k].to as usize)),
            u,
        ),
        relaxed_upto(e, l2, u, k + 1),
{
    let n = e.net.len() as int;
    let m = e.net[u][k];
    let w = m.to;
    let next = l2.dist[w];
    // queue
    let queue2 = queue.insert((next, w as usize));
    assert forall|v: int| 0 <= v < n && #[trigger] l2.reached(v) && v != u implies queue2.count(
        (l2.dist[v], v as usize),
    ) > 0 || relaxed(e, l2, v) by {
        if v != w {
            assert(l.reached(v));
            assert(l2.dist[v] == l.dist[v]);
            if queue.count((l.dist[v], v as usize)) > 0 {
                assert(queue2.count((l2.dist[v], v as usize)) > 0);
            } else {
                assert(relaxed(e, l, v));
                assert forall|i: int|
                    #![trigger e.net[v][i]]
                    0 <= i < e.net[v].len() && e.net[v][i].cap > 0 implies l2.reached(e.net[v][i].to)
                    && label(e, l2, e.net[v][i].to) <= label(e, l2, v) + e.net[v][i].cost by {
                    let y = e.net[v][i].to;
                    assert(has_link(e.net, v, i));
                    assert(has_link(e.net, y, e.net[v][i].rev));
                    assert(l.reached(y));
                    assert(l2.dist[v] == l.dist[v]);
                    if y != w {
                        assert(l2.dist[y] == l.dist[y]);
                    }
                }
            }
        }
    }
    assert forall|d: i128, x: usize| #[trigger] queue2.count((d, x)) > 0 implies x < n && d < FAR by {
        if d == next && x == w {
        } else {
            assert(queue.count((d, x)) > 0);
        }
    }
    assert forall|i: int|
        #![trigger e.net[u][i]]
        0 <= i < k + 1 && i < e.net[u].len() && e.net[u][i].cap > 0 implies l2.reached(e.net[u][i].to)
        && label(e, l2, e.net[u][i].to) <= label(e, l2, u) + e.net[u][i].cost by {
        let y = e.net[u][i].to;
        assert(has_link(e.net, u, i));
        assert(has_link(e.net, y, e.net[u][i].rev));
        assert(l2.dist[u] == l.dist[u]);
        if y != w {
            assert(l2.dist[y] == l.dist[y]);
        }
    }
}

/// The search that the labels and the queue are the state of.
spec fn search_state(l: Labels, queue: Multiset<(i128, usize)>) -> Search {
    Search { dist: l.dist, prev_node: l.prev_node, prev_edge: l.prev_edge, waiting: queue }
}

/// The labels before anything but the source is reached.
spec fn first_labels(n: nat, s: int, prev_node: Seq<usize>, prev_edge: Seq<usize>) -> Labels {
    Labels {
        dist: Seq::new(n, |v: int| FAR).update(s, 0i128),
        prev_node,
        prev_edge,
        stamp: Seq::new(n, |v: int| 0int),
        clock: 1,
        order: seq![s],
    }
}

proof fn lemma_first_labels(e: Terrain, prev_node: Seq<usize>, prev_edge: Seq<usize>)
    requires
        e.wf(),
        e.net.len() <= usize::MAX,
        prev_node.len() == e.net.len(),
        prev_edge.len() == e.net.len(),
    ensures
        labels_ok(e, first_labels(e.net.len(), e.s, prev_node, prev_edge)),
        queue_ok(
            e,
            first_labels(e.net.len(), e.s, prev_node, prev_edge),
            Multiset::<(i128, usize)>::empty().insert((0i128, e.s as usize)),
            -1,
        ),
{
    let l = first_labels(e.net.len(), e.s, prev_node, prev_edge);
    assert(l.order[0] == e.s);
    assert forall|v: int| 0 <= v < e.net.len() && #[trigger] l.reached(v) implies v == e.s by {}
    assert forall|j: int| 0 <= j < l.order.len() implies label(e, l, #[trigger] l.order[j]) <= j * e.c by {
        let c = e.c;
        assert(0 * c == 0) by (nonlinear_arith);
    }
}

/// Looking at a link that offers nothing cheaper.
proof fn lemma_no_improvement(e: Terrain, l: Labels, u: int, k: int)
    requires
        e.wf(),
        labels_ok(e, l),
        has_link(e.net, u, k),
        l.reached(u),
        relaxed_upto(e, l, u, k),
        e.net[u][k].cap > 0 ==> l.dist[u] + e.net[u][k].cost + e.pot[u] - e.pot[e.net[u][k].to]
            >= l.dist[e.net[u][k].to],
    ensures
        relaxed_upto(e, l, u, k + 1),
{
    let m = e.net[u][k];
    if m.cap > 0 {
        assert(has_link(e.net, m.to, m.rev));
        lemma_label_bounds(e, l, u);
        let ju = choose|j: int| 0 <= j < l.order.len() && l.order[j] == u;
        assert(label(e, l, l.order[ju]) <= ju * e.c);
        lemma_order_bound(e, l, ju);
        assert(-e.bound() <= e.pot[m.to]);
        assert(l.reached(m.to));
    }
}

impl MinCostMaxFlow {
    /// The residual network that the structure holds.
    pub open spec fn net(self) -> Seq<Seq<Link>> {
        Seq::new(
            self.graph@.len(),
            |v: int| Seq::new(self.graph@[v]@.len(), |i: int| self.graph@[v]@[i].link()),
        )
    }

    /// The network is well formed, and capacities of partners fit together.
    pub open spec fn wf(self) -> bool {
        &&& network_wf(self.net())
        &&& pairs_fit(self.net())
    }

    /// A network without links.
    pub fn new(node_count: usize) -> (mcmf: Self)
        ensures
            mcmf.wf(),
            mcmf.net() == Seq::new(node_count as nat, |v: int| Seq::<Link>::empty()),
    {
        let mcmf = Self { graph: vec![Vec::new(); node_count] };
        assert(mcmf.net() =~~= Seq::new(node_count as nat, |v: int| Seq::<Link>::empty()));
        mcmf
    }

    /// Adds a link and returns its position among the links of `from`; a link from a node to
    /// itself is stored too, but leaves the structure without paired links.
    pub fn add_edge(&mut self, from: usize, to: usize, cap: i32, cost: i64) -> (edge_idx: usize)
        requires
            from < old(self).graph@.len(),
            to < old(self).graph@.len(),
            cost > i64::MIN,
        ensures
            edge_idx == old(self).net()[from as int].len(),
            final(self).net() == with_edge(
                old(self).net(),
                from as int,
                to as int,
                cap as int,
                cost as int,
            ),
            old(self).wf() && from != to && cap >= 0 ==> final(self).wf(),
    {
        let rev_to = self.graph[to].len();
        let rev_from = self.graph[from].len();
        self.graph[from].push(CostEdge { to, rev: rev_to, cap, cost });
        self.graph[to].push(CostEdge { to: from, rev: rev_from, cap: 0, cost: -cost });
        proof {
            assert(self.net() =~~= with_edge(
                old(self).net(),
                from as int,
                to as int,
                cap as int,
                cost as int,
            ));
            if old(self).wf() && from != to && cap >= 0 {
                lemma_with_edge(old(self).net(), from as int, to as int, cap as int, cost as int);
            }
        }
        rev_from
    }

    /// Finds the cheapest paths from `source` to every node that can be reached.
    fn shortest_paths(
        &self,
        source: usize,
        potential: &Vec<i128>,
        dist: &mut Vec<i128>,
        prev_node: &mut Vec<usize>,
        prev_edge: &mut Vec<usize>,
        Ghost(e): Ghost<Terrain>,
    ) -> (found: Ghost<Labels>)
        requires
            e.wf(),
            e.net == self.net(),
            e.s == source,
            e.pot == potential@,
            old(dist)@.len() == e.net.len(),
            old(prev_node)@.len() == e.net.len(),
            old(prev_edge)@.len() == e.net.len(),
        ensures
            labels_ok(e, found@),
            found@.dist == final(dist)@,
            found@.prev_node == final(prev_node)@,
            found@.prev_edge == final(prev_edge)@,
            forall|v: int| 0 <= v < e.net.len() && #[trigger] found@.reached(v) ==> relaxed(e, found@, v),
            (Search {
                dist: final(dist)@,
                prev_node: final(prev_node)@,
                prev_edge: final(prev_edge)@,
                waiting: Multiset::empty(),
            }) == search_end(
                e.net,
                e.pot,
                search_start(e.net.len(), e.s, old(prev_node)@, old(prev_edge)@),
            ),
    {
        let n = self.graph.len();
        let ghost from = search_start(e.net.len(), e.s, prev_node@, prev_edge@);
        let mut v: usize = 0;
        while v < n
            invariant
                n == dist@.len(),
                v <= n,
                forall|w: int| 0 <= w < v ==> dist@[w] == FAR,
            decreases n - v,
        {
            dist[v] = FAR;
            v = v + 1;
        }
        dist[source] = 0;
        let ghost mut l = first_labels(e.net.len(), e.s, prev_node@, prev_edge@);
        proof {
            lemma_first_labels(e, prev_node@, prev_edge@);
            assert(dist@ =~= l.dist);
        }
        let mut heap = LabelHeap::new();
        heap.push((0, source));
        let ghost mut labels_taken: nat = 0;
        assert(search_state(l, heap@) == from);
        loop
            invariant
                from == search_start(e.net.len(), e.s, old(prev_node)@, old(prev_edge)@),
                search_state(l, heap@) == searched(e.net, e.pot, from, labels_taken),
                n == e.net.len(),
                e.wf(),
                e.net == self.net(),
                e.s == source,
                e.pot == potential@,
                labels_ok(e, l),
                l.dist == dist@,
                l.prev_node == prev_node@,
                l.prev_edge == prev_edge@,
                heap.wf(),
                queue_ok(e, l, heap@, -1),
            decreases slack(e, l), heap@.len(),
        {
            proof {
                lemma_slack_nonnegative(e, l);
            }
            let ghost queue_before = heap@;
            match heap.pop() {
                None => {
                    proof {
                        assert forall|v: int| 0 <= v < e.net.len() && #[trigger] l.reached(v) implies relaxed(
                            e,
                            l,
                            v,
                        ) by {
                            assert(heap@.count((l.dist[v], v as usize)) == 0);
                        }
                        assert(heap@ =~= Multiset::empty());
                        assert(search_is_over(e.net, e.pot, from, labels_taken));
                        lemma_search_end(e.net, e.pot, from, labels_taken);
                    }
                    return Ghost(l);
                },
                Some((cur_dist, node)) => {
                    assert(queue_before.count((cur_dist, node)) > 0);
                    let ghost before = search_state(l, queue_before);
                    let ghost rest = search_state(l, heap@);
                    proof {
                        assert(is_first(queue_before, (cur_dist, node)));
                        lemma_first_label(queue_before, (cur_dist, node));
                        labels_taken = labels_taken + 1;
                        assert(searched(e.net, e.pot, from, labels_taken) == search_step(
                            e.net,
                            e.pot,
                            before,
                        ));
                    }
                    if cur_dist != dist[node] {
                        proof {
                            assert forall|v: int|
                                0 <= v < e.net.len() && #[trigger] l.reached(v) && v != -1 implies heap@.count(
                                (l.dist[v], v as usize),
                            ) > 0 || relaxed(e, l, v) by {
                                assert((l.dist[v], v as usize) != (cur_dist, node));
                            }
                            assert forall|d: i128, x: usize| #[trigger] heap@.count((d, x)) > 0 implies x
                                < e.net.len() && d < FAR by {
                                assert(queue_before.count((d, x)) > 0);
                            }
                        }
                        continue;
                    }
                    let ghost u = node as int;
                    let ghost slack0 = slack(e, l);
                    proof {
                        assert(l.reached(u));
                        assert(queue_ok(e, l, heap@, u)) by {
                            assert forall|v: int|
                                0 <= v < e.net.len() && #[trigger] l.reached(v) && v != u implies heap@.count(
                                (l.dist[v], v as usize),
                            ) > 0 || relaxed(e, l, v) by {
                                assert((l.dist[v], v as usize) != (cur_dist, node));
                            }
                            assert forall|d: i128, x: usize| #[trigger] heap@.count((d, x)) > 0 implies x
                                < e.net.len() && d < FAR by {
                                assert(queue_before.count((d, x)) > 0);
                            }
                        }
                    }
                    let mut k: usize = 0;
                    while k < self.graph[node].len()
                        invariant
                            n == e.net.len(),
                            e.wf(),
                            e.net == self.net(),
                            e.s == source,
                            e.pot == potential@,
                            labels_ok(e, l),
                            l.dist == dist@,
                            l.prev_node == prev_node@,
                            l.prev_edge == prev_edge@,
                            heap.wf(),
                            node < n,
                            u == node,
                            l.reached(u),
                            dist@[u] == cur_dist,
                            k <= e.net[u].len(),
                            queue_ok(e, l, heap@, u),
                            search_state(l, heap@) == looked_over(
                                e.net,
                                e.pot,
                                rest,
                                u,
                                cur_dist as int,
                                k as int,
                            ),
                            relaxed_upto(e, l, u, k as int),
                            slack(e, l) < slack0 || (slack(e, l) == slack0 && heap@.len()
                                < queue_before.len()),
                        decreases e.net[u].len() - k,
                    {
                        let edge = self.graph[node][k];
                        let ghost w = edge.to as int;
                        proof {
                            assert(e.net[u][k as int] == edge.link());
                            assert(has_link(e.net, u, k as int));
                            assert(has_link(e.net, w, edge.rev as int));
                            lemma_label_bounds(e, l, u);
                            assert(-e.bound() <= e.pot[u] <= e.bound());
                            assert(-e.bound() <= e.pot[w] <= e.bound());
                            let nn = n as int;
                            let c = e.c;
                            assert(c <= nn * c) by (nonlinear_arith)
                                requires
                                    nn >= 1,
                                    c >= 0,
                            ;
                        }
                        if edge.cap <= 0 {
                            proof {
                                lemma_no_improvement(e, l, u, k as int);
                            }
                            k = k + 1;
                            continue;
                        }
                        let next_cost: i128 = cur_dist + edge.cost as i128 + potential[node] - potential[edge.to];
                        if next_cost < dist[edge.to] {
                            let ghost queue_now = heap@;
                            proof {
                                lemma_improve(e, l, heap@, u, k as int);
                            }
                            dist[edge.to] = next_cost;
                            prev_node[edge.to] = node;
                            prev_edge[edge.to] = k;
                            heap.push((next_cost, edge.to));
                            proof {
                                l = improved(l, u, k as int, w, next_cost as int);
                                assert(l.dist =~= dist@);
                                assert(l.prev_node =~= prev_node@);
                                assert(l.prev_edge =~= prev_edge@);
                            }
                        } else {
                            proof {
                                lemma_no_improvement(e, l, u, k as int);
                            }
                        }
                        k = k + 1;
                    }
                    proof {
                        assert(search_state(l, heap@) == search_step(e.net, e.pot, before));
                        assert(relaxed(e, l, u));
                        assert(queue_ok(e, l, heap@, -1));
                        lemma_slack_nonnegative(e, l);
                    }
                },
            }
        }
    }
}

/// The recorded path, walked back from `t`: every node on it was reached over a link that leaves
/// the next one, and the last was reached from the source.
pub open spec fn path_ok(e: Terrain, l: Labels, path: Seq<int>, t: int) -> bool {
    &&& path.len() > 0
    &&& path[0] == t
    &&& forall|i: int| 0 <= i < path.len() ==> {
        &&& 0 <= #[trigger] path[i] < e.net.len()
        &&& path[i] != e.s
        &&& l.reached(path[i])
    }
    &&& forall|i: int| 0 <= i < path.len() - 1 ==> #[trigger] path[i + 1] == l.prev_node[path[i]]
    &&& forall|i: int, j: int|
        0 <= i < j < path.len() ==> earlier(e, l, #[trigger] path[j], #[trigger] path[i])
}

/// The capacity of the link over which `v` was reached.
pub open spec fn recorded_cap(net: Seq<Seq<Link>>, l: Labels, v: int) -> int {
    net[l.prev_node[v] as int][l.prev_edge[v] as int].cap
}

/// The prices that the labels justify.
pub open spec fn raised_prices(e: Terrain, l: Labels) -> Seq<int> {
    Seq::new(
        e.net.len(),
        |v: int| e.q[v] + (if l.reached(v) { excess(e, l, v) } else { 2 * e.bound() + 1 }),
    )
}

/// With every label relaxed, the raised prices are feasible, and recorded links cost exactly the
/// difference of their ends.
proof fn lemma_raised_prices(e: Terrain, l: Labels)
    requires
        e.wf(),
        labels_ok(e, l),
        forall|v: int| 0 <= v < e.net.len() && #[trigger] l.reached(v) ==> relaxed(e, l, v),
    ensures
        feasible_prices(e.net, raised_prices(e, l)),
        raised_prices(e, l)[e.s] == e.q[e.s],
        forall|v: int|
            0 <= v < e.net.len() ==> #[trigger] raised_prices(e, l)[v] - raised_prices(e, l)[e.s]
                >= -e.bound(),
        forall|v: int|
            0 <= v < e.net.len() && #[trigger] l.reached(v) && v != e.s ==> {
                let m = e.net[l.prev_node[v] as int][l.prev_edge[v] as int];
                &&& label(e, l, v) == label(e, l, l.prev_node[v] as int) + m.cost
                &&& m.cost + raised_prices(e, l)[l.prev_node[v] as int] - raised_prices(e, l)[v] == 0
            },
{
    let q2 = raised_prices(e, l);
    assert(e.bound() >= 0) by {
        let n = e.net.len() as int;
        let c = e.c;
        assert(n * c >= 0) by (nonlinear_arith)
            requires
                n >= 0,
                c >= 0,
        ;
    }
    assert forall|v: int, i: int|
        #![trigger e.net[v][i]]
        has_link(e.net, v, i) && e.net[v][i].cap > 0 implies e.net[v][i].cost + q2[v]
        - q2[e.net[v][i].to] >= 0 by {
        let m = e.net[v][i];
        assert(has_link(e.net, m.to, m.rev));
        assert(m.cost + e.q[v] - e.q[m.to] >= 0);
        if l.reached(v) {
            assert(relaxed(e, l, v));
            assert(l.reached(m.to));
        } else if l.reached(m.to) {
            lemma_label_bounds(e, l, m.to);
        }
    }
    assert(l.reached(e.s));
    assert forall|v: int| 0 <= v < e.net.len() implies #[trigger] q2[v] - q2[e.s] >= -e.bound() by {
        assert(e.q[v] - e.q[e.s] >= -e.bound());
    }
    assert forall|v: int| 0 <= v < e.net.len() && #[trigger] l.reached(v) && v != e.s implies {
        let m = e.net[l.prev_node[v] as int][l.prev_edge[v] as int];
        &&& label(e, l, v) == label(e, l, l.prev_node[v] as int) + m.cost
        &&& m.cost + q2[l.prev_node[v] as int] - q2[v] == 0
    } by {
        assert(recorded_link_ok(e, l, v));
        assert(relaxed(e, l, l.prev_node[v] as int));
    }
}

/// Pushing over a link that costs exactly the difference of its ends keeps prices feasible.
proof fn lemma_push_keeps_prices(net: Seq<Seq<Link>>, v: int, i: int, amount: int, q: Seq<int>)
    requires
        paired(net),
        has_link(net, v, i),
        feasible_prices(net, q),
        amount >= 0,
        net[v][i].cost + q[v] - q[net[v][i].to] == 0,
    ensures
        feasible_prices(push_link(net, v, i, amount), q),
{
    let b = push_link(net, v, i, amount);
    lemma_push_link(net, v, i, amount);
    assert forall|w: int, j: int| #![trigger b[w][j]] has_link(b, w, j) && b[w][j].cap > 0 implies b[w][j].cost
        + q[w] - q[b[w][j].to] >= 0 by {
        assert(net[w].len() == b[w].len());
        assert(net[w][j].to == b[w][j].to);
        if w == net[v][i].to && j == net[v][i].rev {
            assert(net[w][j].to == v && net[w][j].cost == -net[v][i].cost);
        } else {
            assert(net[w][j].cap > 0);
        }
    }
}

/// The recorded path is the way back from `t`.
proof fn lemma_path_is_way_back(e: Terrain, l: Labels, path: Seq<int>, t: int)
    requires
        path_ok(e, l, path, t),
        l.prev_node[path.last()] == e.s,
    ensures
        way_back(l.prev_node, e.s, t, e.net.len()) == path,
{
    assert(path.no_duplicates()) by {
        assert forall|i: int, j: int| 0 <= i < path.len() && 0 <= j < path.len() && i != j implies path[i]
            != path[j] by {
            if i < j {
                assert(earlier(e, l, path[j], path[i]));
            } else {
                assert(earlier(e, l, path[i], path[j]));
            }
        }
    }
    lemma_distinct_below(path, e.net.len() as int);
    lemma_way_back(l.prev_node, e.s, path, 0, e.net.len());
    assert(path.subrange(0, path.len() as int) =~= path);
}

impl MinCostMaxFlow {
    /// Adds the distances that were found to the potentials.
    fn raise_potentials(potential: &mut Vec<i128>, dist: &Vec<i128>, Ghost(e): Ghost<Terrain>, Ghost(l): Ghost<Labels>)
        requires
            e.wf(),
            labels_ok(e, l),
            e.pot == old(potential)@,
            l.dist == dist@,
        ensures
            final(potential)@ == raised(old(potential)@, dist@),
            final(potential)@.len() == e.net.len(),
            forall|v: int|
                0 <= v < e.net.len() ==> #[trigger] final(potential)@[v] == if l.reached(v) {
                    label(e, l, v)
                } else {
                    e.pot[v] as int
                },
            final(potential)@[e.s] == 0,
            forall|v: int|
                0 <= v < e.net.len() ==> -e.bound() <= #[trigger] final(potential)@[v] <= e.bound(),
    {
        let n = potential.len();
        let mut v: usize = 0;
        while v < n
            invariant
                n == e.net.len(),
                n == potential@.len(),
                e.wf(),
                labels_ok(e, l),
                l.dist == dist@,
                v <= n,
                forall|w: int|
                    0 <= w < v ==> #[trigger] potential@[w] == if l.reached(w) {
                        label(e, l, w)
                    } else {
                        e.pot[w] as int
                    },
                forall|w: int| v <= w < n ==> #[trigger] potential@[w] == e.pot[w],
            decreases n - v,
        {
            if dist[v] < FAR {
                proof {
                    assert(l.reached(v as int));
                    lemma_label_bounds(e, l, v as int);
                    assert(potential@[v as int] == e.pot[v as int]);
                }
                potential[v] = potential[v] + dist[v];
            }
            v = v + 1;
        }
        proof {
            assert(l.reached(e.s));
            assert forall|v: int| 0 <= v < e.net.len() implies -e.bound() <= #[trigger] potential@[v]
                <= e.bound() by {
                if l.reached(v) {
                    lemma_label_bounds(e, l, v);
                }
                assert(-e.bound() <= e.pot[v] <= e.bound());
            }
            assert forall|v: int| 0 <= v < e.net.len() implies #[trigger] potential@[v] == raised(
                e.pot,
                l.dist,
            )[v] by {
                if l.reached(v) {
                    lemma_label_bounds(e, l, v);
                }
            }
            assert(potential@ =~= raised(e.pot, l.dist));
        }
    }

    /// Walks the recorded path back from `sink` and returns how much fits through it, at most
    /// `limit`.
    fn bottleneck(
        &self,
        source: usize,
        sink: usize,
        prev_node: &Vec<usize>,
        prev_edge: &Vec<usize>,
        limit: i32,
        Ghost(e): Ghost<Terrain>,
        Ghost(l): Ghost<Labels>,
    ) -> (found: (i32, Ghost<Seq<int>>))
        requires
            e.wf(),
            e.net == self.net(),
            e.s == source,
            labels_ok(e, l),
            l.prev_node == prev_node@,
            l.prev_edge == prev_edge@,
            sink < e.net.len(),
            sink != source,
            l.reached(sink as int),
            limit > 0,
        ensures
            0 < found.0 <= limit,
            found.0 == room(e.net, prev_node@, prev_edge@, found.1@, limit as int),
            found.1@ == way_back(prev_node@, e.s, sink as int, e.net.len()),
            path_ok(e, l, found.1@, sink as int),
            l.prev_node[found.1@.last()] == source,
            forall|i: int|
                0 <= i < found.1@.len() ==> found.0 <= recorded_cap(e.net, l, #[trigger] found.1@[i]),
    {
        let mut add_flow = limit;
        let mut node = sink;
        let ghost mut path: Seq<int> = Seq::empty();
        while node != source
            invariant
                e.wf(),
                e.net == self.net(),
                e.s == source,
                labels_ok(e, l),
                l.prev_node == prev_node@,
                l.prev_edge == prev_edge@,
                sink < e.net.len(),
                sink != source,
                0 < add_flow <= limit,
                add_flow == room(e.net, prev_node@, prev_edge@, path, limit as int),
                node < e.net.len(),
                l.reached(node as int),
                path.len() == 0 ==> node == sink,
                path.len() > 0 ==> path_ok(e, l, path, sink as int) && node == l.prev_node[path.last()],
                forall|i: int|
                    0 <= i < path.len() ==> add_flow <= recorded_cap(e.net, l, #[trigger] path[i]),
                forall|i: int| 0 <= i < path.len() ==> earlier(e, l, node as int, #[trigger] path[i]),
            decreases excess(e, l, node as int), l.stamp[node as int],
        {
            let ghost v = node as int;
            let ghost before = path;
            proof {
                assert(recorded_link_ok(e, l, v));
                lemma_label_bounds(e, l, v);
                lemma_label_bounds(e, l, l.prev_node[v] as int);
            }
            let prev = prev_node[node];
            let edge = self.graph[prev][prev_edge[node]];
            assert(e.net[prev as int][prev_edge@[v] as int] == edge.link());
            if edge.cap < add_flow {
                add_flow = edge.cap;
            }
            proof {
                path = path.push(v);
                assert(path.last() == v);
                assert(path.drop_last() =~= before);
                assert forall|i: int| 0 <= i < path.len() - 1 implies #[trigger] path[i + 1]
                    == l.prev_node[path[i]] by {
                    if i + 1 < before.len() {
                        assert(before[i + 1] == l.prev_node[before[i]]);
                    } else {
                        assert(before.last() == path[i]);
                    }
                }
                assert forall|i: int, j: int| 0 <= i < j < path.len() implies earlier(
                    e,
                    l,
                    #[trigger] path[j],
                    #[trigger] path[i],
                ) by {
                    assert(path[i] == before[i]);
                    if j < before.len() {
                        assert(path[j] == before[j]);
                    }
                }
                assert forall|i: int| 0 <= i < path.len() implies earlier(
                    e,
                    l,
                    prev as int,
                    #[trigger] path[i],
                ) by {
                    if i < before.len() {
                        assert(earlier(e, l, v, before[i]));
                    }
                }
                assert forall|i: int| 0 <= i < path.len() implies add_flow <= recorded_cap(
                    e.net,
                    l,
                    #[trigger] path[i],
                ) by {
                    if i < before.len() {
                        assert(path[i] == before[i]);
                    }
                }
            }
            node = prev;
        }
        proof {
            lemma_path_is_way_back(e, l, path, sink as int);
        }
        (add_flow, Ghost(path))
    }
}

/// The recorded path leads from the source to `t`, has room for `add`, and its links cost exactly
/// the difference of the prices at their ends.
#[verifier::opaque]
pub open spec fn can_carry(
    e: Terrain,
    l: Labels,
    path: Seq<int>,
    t: int,
    add: int,
    q: Seq<int>,
) -> bool {
    &&& e.wf()
    &&& labels_ok(e, l)
    &&& path_ok(e, l, path, t)
    &&& l.prev_node[path.last()] == e.s
    &&& 0 < add
    &&& forall|i: int| 0 <= i < path.len() ==> add <= recorded_cap(e.net, l, #[trigger] path[i])
    &&& forall|v: int|
        0 <= v < e.net.len() && #[trigger] l.reached(v) && v != e.s ==> {
            let m = e.net[l.prev_node[v] as int][l.prev_edge[v] as int];
            &&& label(e, l, v) == label(e, l, l.prev_node[v] as int) + m.cost
            &&& m.cost + q[l.prev_node[v] as int] - q[v] == 0
        }
}

/// How the network looks once `add` has been pushed over the recorded links of the first `i`
/// nodes of the path: the rest of the path is untouched, `t` has received what the node at hand
/// still owes, and the cost so far is that of the links used.
#[verifier::opaque]
pub open spec fn augmented(
    e: Terrain,
    l: Labels,
    path: Seq<int>,
    t: int,
    add: int,
    i: int,
    node: int,
    q: Seq<int>,
    now: Seq<Seq<Link>>,
) -> bool {
    &&& network_wf(now)
    &&& same_shape(e.net, now)
    &&& pairs_balanced(e.net, now)
    &&& feasible_prices(now, q)
    &&& forall|j: int|
        i <= j < path.len() ==> recorded_cap(now, l, #[trigger] path[j]) == recorded_cap(
            e.net,
            l,
            path[j],
        )
    &&& forall|w: int|
        0 <= w < e.net.len() ==> #[trigger] out_cap(now, w) == out_cap(e.net, w) + (if w == t {
            add
        } else {
            0
        }) - (if w == node { add } else { 0 })
    &&& twice_flow_cost(e.net, now) == 2 * (add * (label(e, l, t) - label(e, l, node)))
}

proof fn lemma_balance_trans(a: Seq<Seq<Link>>, b: Seq<Seq<Link>>, c: Seq<Seq<Link>>)
    requires
        same_shape(a, b),
        pairs_balanced(a, b),
        pairs_balanced(b, c),
    ensures
        pairs_balanced(a, c),
{
    assert forall|w: int, j: int| #![trigger a[w][j]] #![trigger c[w][j]] has_link(a, w, j) implies a[w][j].cap
        + partner(a, w, j).cap == c[w][j].cap + partner(c, w, j).cap by {
        assert(a[w].len() == b[w].len());
        assert(b[w][j].cap + partner(b, w, j).cap == c[w][j].cap + partner(c, w, j).cap);
    }
}

/// Pushing over the recorded link of one node of the path leaves the links after it alone.
proof fn lemma_later_links_untouched(
    e: Terrain,
    l: Labels,
    path: Seq<int>,
    t: int,
    add: int,
    q: Seq<int>,
    i: int,
    j: int,
    now: Seq<Seq<Link>>,
)
    requires
        can_carry(e, l, path, t, add, q),
        0 <= i < j < path.len(),
        network_wf(now),
        same_shape(e.net, now),
    ensures
        recorded_cap(
            push_link(now, l.prev_node[path[i]] as int, l.prev_edge[path[i]] as int, add),
            l,
            path[j],
        ) == recorded_cap(now, l, path[j]),
{
    reveal(can_carry);
    let v = path[i];
    assert(l.reached(v));
    assert(recorded_link_ok(e, l, v));
    let u = l.prev_node[v] as int;
    let k = l.prev_edge[v] as int;
    assert(e.net[u].len() == now[u].len());
    assert(now[u][k].to == v);
    lemma_push_link(now, u, k, add);
    let x = path[j];
    assert(earlier(e, l, path[j], path[i]));
    assert(l.reached(x));
    assert(recorded_link_ok(e, l, x));
    let px = l.prev_node[x] as int;
    let kx = l.prev_edge[x] as int;
    assert(has_link(e.net, px, kx));
    assert(e.net[px].len() == now[px].len());
    assert(!(px == u && kx == k));
    assert(px != v);
}

/// Where the walk back along the path goes next.
proof fn lemma_next_on_path(
    e: Terrain,
    l: Labels,
    path: Seq<int>,
    t: int,
    add: int,
    q: Seq<int>,
    i: int,
)
    requires
        can_carry(e, l, path, t, add, q),
        0 <= i < path.len(),
    ensures
        path[0] == t,
        0 <= path[i] < e.net.len(),
        path[i] != e.s,
        l.prev_node.len() == e.net.len(),
        l.prev_edge.len() == e.net.len(),
        i + 1 < path.len() ==> l.prev_node[path[i]] == path[i + 1],
        i + 1 == path.len() ==> l.prev_node[path[i]] == e.s,
{
    reveal(can_carry);
    if i + 1 < path.len() {
        assert(path[i + 1] == l.prev_node[path[i]]);
    }
}

/// The recorded link of a node of the path.
proof fn lemma_link_on_path(
    e: Terrain,
    l: Labels,
    path: Seq<int>,
    t: int,
    add: int,
    q: Seq<int>,
    i: int,
)
    requires
        can_carry(e, l, path, t, add, q),
        0 <= i < path.len(),
    ensures
        network_wf(e.net),
        0 < add <= recorded_cap(e.net, l, path[i]),
        ({
            let u = l.prev_node[path[i]] as int;
            let k = l.prev_edge[path[i]] as int;
            let m = e.net[u][k];
            &&& has_link(e.net, u, k)
            &&& m.to == path[i]
            &&& label(e, l, path[i]) == label(e, l, u) + m.cost
            &&& m.cost + q[u] - q[path[i]] == 0
        }),
{
    reveal(can_carry);
    assert(l.reached(path[i]));
    assert(recorded_link_ok(e, l, path[i]));
}

/// Before anything is pushed.
proof fn lemma_augment_start(
    e: Terrain,
    l: Labels,
    path: Seq<int>,
    t: int,
    add: int,
    q: Seq<int>,
)
    requires
        can_carry(e, l, path, t, add, q),
        feasible_prices(e.net, q),
    ensures
        path.len() > 0,
        path[0] == t,
        augmented(e, l, path, t, add, 0, t, q, e.net),
{
    reveal(can_carry);
    reveal(augmented);
    lemma_flow_refl(e.net, e.s, t);
    assert(add * 0 == 0) by (nonlinear_arith);
}

/// Once the whole path is used.
proof fn lemma_augment_end(
    e: Terrain,
    l: Labels,
    path: Seq<int>,
    t: int,
    add: int,
    q: Seq<int>,
    now: Seq<Seq<Link>>,
)
    requires
        can_carry(e, l, path, t, add, q),
        augmented(e, l, path, t, add, path.len() as int, e.s, q, now),
    ensures
        is_flow(e.net, now, e.s, t),
        flow_value(e.net, now, e.s) == add,
        twice_flow_cost(e.net, now) == 2 * (add * label(e, l, t)),
        feasible_prices(now, q),
{
    reveal(can_carry);
    reveal(augmented);
    assert(label(e, l, e.s) == 0);
    assert(path[0] != e.s);
}

/// One more link of the path.
proof fn lemma_augment_step(
    e: Terrain,
    l: Labels,
    path: Seq<int>,
    t: int,
    add: int,
    i: int,
    q: Seq<int>,
    now: Seq<Seq<Link>>,
)
    requires
        can_carry(e, l, path, t, add, q),
        0 <= i < path.len(),
        augmented(e, l, path, t, add, i, path[i], q, now),
    ensures
        has_link(now, l.prev_node[path[i]] as int, l.prev_edge[path[i]] as int),
        0 < add <= now[l.prev_node[path[i]] as int][l.prev_edge[path[i]] as int].cap,
        augmented(
            e,
            l,
            path,
            t,
            add,
            i + 1,
            l.prev_node[path[i]] as int,
            q,
            push_link(now, l.prev_node[path[i]] as int, l.prev_edge[path[i]] as int, add),
        ),
{
    reveal(augmented);
    lemma_link_on_path(e, l, path, t, add, q, i);
    let v = path[i];
    let u = l.prev_node[v] as int;
    let k = l.prev_edge[v] as int;
    let m = e.net[u][k];
    assert(e.net[u].len() == now[u].len());
    assert(now[u][k].to == v && now[u][k].cost == m.cost && now[u][k].rev == m.rev);
    assert(recorded_cap(now, l, path[i]) == recorded_cap(e.net, l, path[i]));
    let next = push_link(now, u, k, add);
    lemma_push_link(now, u, k, add);
    lemma_push_keeps_prices(now, u, k, add, q);
    lemma_shape_trans(e.net, now, next);
    lemma_balance_trans(e.net, now, next);
    assert forall|j: int| i + 1 <= j < path.len() implies recorded_cap(next, l, #[trigger] path[j])
        == recorded_cap(e.net, l, path[j]) by {
        assert(recorded_cap(now, l, path[j]) == recorded_cap(e.net, l, path[j]));
        lemma_later_links_untouched(e, l, path, t, add, q, i, j, now);
    }
    assert(label(e, l, v) == label(e, l, u) + m.cost);
    // costs add up
    assert(capacities_valid(now));
    lemma_cost_trans(e.net, now, next);
    let a = add;
    let x = label(e, l, t);
    let y = label(e, l, v);
    let z = m.cost;
    assert(2 * (a * (x - y)) + 2 * (z * a) == 2 * (a * (x - (y - z)))) by (nonlinear_arith);
    assert forall|w: int| 0 <= w < e.net.len() implies #[trigger] out_cap(next, w) == out_cap(e.net, w)
        + (if w == t { add } else { 0 }) - (if w == u { add } else { 0 }) by {
        assert(out_cap(now, w) == out_cap(e.net, w) + (if w == t { add } else { 0 }) - (if w == v {
            add
        } else {
            0
        }));
    }
}

impl MinCostMaxFlow {
    /// Moves `amount` over one link.
    fn push_edge(&mut self, node: usize, edge_idx: usize, amount: i32)
        requires
            old(self).wf(),
            has_link(old(self).net(), node as int, edge_idx as int),
            0 <= amount <= old(self).net()[node as int][edge_idx as int].cap,
        ensures
            final(self).wf(),
            final(self).net() == push_link(
                old(self).net(),
                node as int,
                edge_idx as int,
                amount as int,
            ),
    {
        let edge = self.graph[node][edge_idx];
        let ghost net = self.net();
        let ghost u = node as int;
        let ghost k = edge_idx as int;
        proof {
            assert(net[u][k] == edge.link());
            assert(has_link(net, edge.to as int, edge.rev as int));
            assert(net[u][k].cap + partner(net, u, k).cap <= i32::MAX);
            assert(net[edge.to as int][edge.rev as int]
                == self.graph@[edge.to as int]@[edge.rev as int].link());
            lemma_push_link(net, u, k, amount as int);
        }
        self.graph[node][edge_idx].cap = edge.cap - amount;
        let rev = edge.rev;
        self.graph[edge.to][rev].cap = self.graph[edge.to][rev].cap + amount;
        proof {
            let next = push_link(net, u, k, amount as int);
            assert(self.net() =~~= next);
            assert forall|v: int, i: int| #![trigger next[v][i]] has_link(next, v, i) implies next[v][i].cap
                + partner(next, v, i).cap <= i32::MAX by {
                assert(net[v].len() == next[v].len());
                assert(net[v][i].cap + partner(net, v, i).cap <= i32::MAX);
            }
        }
    }

    /// Pushes `add_flow` over the recorded path to `sink`.
    fn augment(
        &mut self,
        source: usize,
        sink: usize,
        prev_node: &Vec<usize>,
        prev_edge: &Vec<usize>,
        add_flow: i32,
        Ghost(e): Ghost<Terrain>,
        Ghost(l): Ghost<Labels>,
        Ghost(path): Ghost<Seq<int>>,
        Ghost(q): Ghost<Seq<int>>,
    )
        requires
            old(self).wf(),
            e.net == old(self).net(),
            e.s == source,
            l.prev_node == prev_node@,
            l.prev_edge == prev_edge@,
            can_carry(e, l, path, sink as int, add_flow as int, q),
            feasible_prices(e.net, q),
        ensures
            final(self).wf(),
            final(self).net() == sent_over(
                e.net,
                prev_node@,
                prev_edge@,
                path,
                add_flow as int,
                path.len() as int,
            ),
            is_flow(e.net, final(self).net(), source as int, sink as int),
            flow_value(e.net, final(self).net(), source as int) == add_flow,
            twice_flow_cost(e.net, final(self).net()) == 2 * (add_flow * label(e, l, sink as int)),
            feasible_prices(final(self).net(), q),
    {
        let ghost t = sink as int;
        let ghost add = add_flow as int;
        let mut node = sink;
        let ghost mut i: int = 0;
        proof {
            lemma_augment_start(e, l, path, t, add, q);
        }
        while node != source
            invariant
                self.wf(),
                e.s == source,
                add == add_flow,
                l.prev_node == prev_node@,
                l.prev_edge == prev_edge@,
                can_carry(e, l, path, t, add, q),
                0 <= i <= path.len(),
                i < path.len() ==> node == path[i],
                i == path.len() ==> node == source,
                augmented(e, l, path, t, add, i, node as int, q, self.net()),
                self.net() == sent_over(e.net, prev_node@, prev_edge@, path, add, i),
            decreases path.len() - i,
        {
            proof {
                lemma_next_on_path(e, l, path, t, add, q, i);
                lemma_augment_step(e, l, path, t, add, i, q, self.net());
            }
            let prev = prev_node[node];
            let edge_idx = prev_edge[node];
            self.push_edge(prev, edge_idx, add_flow);
            proof {
                i = i + 1;
            }
            node = prev;
        }
        proof {
            if i < path.len() {
                lemma_next_on_path(e, l, path, t, add, q, i);
            }
            lemma_augment_end(e, l, path, t, add, q, self.net());
        }
    }
}

/// `b` is a cheapest flow of its value.
pub open spec fn is_cheapest_flow(
    a: Seq<Seq<Link>>,
    b: Seq<Seq<Link>>,
    s: int,
    t: int,
) -> bool {
    &&& is_flow(a, b, s, t)
    &&& forall|c: Seq<Seq<Link>>| #[trigger]
        is_flow(a, c, s, t) && flow_value(a, c, s) == flow_value(a, b, s) ==> twice_flow_cost(a, b)
            <= twice_flow_cost(a, c)
}

/// No flow from `s` to `t` costs or earns more than `most`.
pub open spec fn flow_costs_within(net: Seq<Seq<Link>>, s: int, t: int, most: int) -> bool {
    forall|b: Seq<Seq<Link>>| #[trigger]
        is_flow(net, b, s, t) ==> -2 * most <= twice_flow_cost(net, b) <= 2 * most
}

/// What pushing up to `target` units from `s` to `t` costs fits in an `i64`, or that of any flow
/// does.
pub open spec fn cost_is_countable(net: Seq<Seq<Link>>, s: int, t: int, target: int) -> bool {
    ||| flow_costs_within(net, s, t, i64::MAX as int)
    ||| i64::MIN <= course_end(net, s, t, target).cost <= i64::MAX
}

/// `b` is what pushing up to `target` units from `s` to `t` leaves of `a`: `flow` units went
/// through, at `cost`, each time over the path that the search finds; no flow of that value costs
/// less, and less than the target only where no more fits.
pub open spec fn is_cheapest_push(
    a: Seq<Seq<Link>>,
    b: Seq<Seq<Link>>,
    s: int,
    t: int,
    target: int,
    flow: int,
    cost: int,
) -> bool {
    &&& is_cheapest_flow(a, b, s, t)
    &&& flow == flow_value(a, b, s)
    &&& 2 * cost == twice_flow_cost(a, b)
    &&& 0 <= flow
    &&& flow <= (if target > 0 {
        target
    } else {
        0
    })
    &&& flow < target ==> is_maximum_flow(a, b, s, t)
    &&& flow == 0 ==> b == a && cost == 0
    &&& b == course_end(a, s, t, target).net
    &&& flow == course_end(a, s, t, target).flow
    &&& cost == course_end(a, s, t, target).cost
}

impl MinCostMaxFlow {
    /// Pushes flow from `source` to `sink` until `target_flow` has arrived or no more fits, always
    /// over a cheapest path; returns how much was pushed and at what cost.
    pub fn min_cost_flow(&mut self, source: usize, sink: usize, target_flow: i32) -> (pushed: (
        i32,
        i64,
    ))
        requires
            old(self).wf(),
            source < old(self).graph@.len(),
            sink < old(self).graph@.len(),
            exists|c: int| costs_fit(old(self).net(), source as int, c),
            flow_costs_within(old(self).net(), source as int, sink as int, i128::MAX / 4),
            // what is pushed is not too expensive to be counted
            cost_is_countable(old(self).net(), source as int, sink as int, target_flow as int),
        ensures
            final(self).wf(),
            source == sink ==> pushed == (if target_flow > 0 { target_flow } else { 0i32 }, 0i64)
                && final(self).net() == old(self).net(),
            source != sink ==> is_cheapest_push(
                old(self).net(),
                final(self).net(),
                source as int,
                sink as int,
                target_flow as int,
                pushed.0 as int,
                pushed.1 as int,
            ),
            // nothing pushed, nothing changed
            source != sink && pushed.0 == 0 ==> final(self).net() == old(self).net() && pushed.1 == 0,
    {
        let (flow, cost) = self.push_cheapest(source, sink, target_flow);
        (flow, cost as i64)
    }

    /// As `min_cost_flow`, with the cost in a wider type.
    #[verifier::rlimit(40)]
    pub fn push_cheapest(&mut self, source: usize, sink: usize, target_flow: i32) -> (pushed: (
        i32,
        i128,
    ))
        requires
            old(self).wf(),
            source < old(self).graph@.len(),
            sink < old(self).graph@.len(),
            exists|c: int| costs_fit(old(self).net(), source as int, c),
            flow_costs_within(old(self).net(), source as int, sink as int, i128::MAX / 4),
        ensures
            final(self).wf(),
            source == sink ==> pushed == (if target_flow > 0 { target_flow } else { 0i32 }, 0i128)
                && final(self).net() == old(self).net(),
            source != sink ==> is_cheapest_push(
                old(self).net(),
                final(self).net(),
                source as int,
                sink as int,
                target_flow as int,
                pushed.0 as int,
                pushed.1 as int,
            ),
    {
        if source == sink {
            return (if target_flow > 0 { target_flow } else { 0 }, 0);
        }
        let node_count = self.graph.len();
        let ghost start = self.net();
        let ghost s = source as int;
        let ghost t = sink as int;
        let ghost target = target_flow as int;
        let ghost c = choose|c: int| costs_fit(start, s, c);
        let ghost mut q = choose|q: Seq<int>| #[trigger]
            feasible_prices(start, q) && forall|v: int|
                0 <= v < start.len() ==> #[trigger] q[v] - q[s] >= -(start.len() * c);
        let mut flow: i32 = 0;
        let mut cost: i128 = 0;
        let mut potential: Vec<i128> = vec![0i128; node_count];
        let mut dist: Vec<i128> = vec![0i128; node_count];
        let mut prev_node: Vec<usize> = vec![0usize; node_count];
        let mut prev_edge: Vec<usize> = vec![0usize; node_count];
        let ghost mut paths: nat = 0;
        proof {
            lemma_flow_refl(start, s, t);
            let n = start.len() as int;
            assert(n * c >= 0) by (nonlinear_arith)
                requires
                    n >= 0,
                    c >= 0,
            ;
            reveal(is_sound);
            reveal(is_paid);
            reveal(on_course);
            assert(course_after(course_start(start), s, t, target, 0) == course_start(start));
            assert(potential@ =~= course_start(start).pot);
            assert(prev_node@ =~= course_start(start).prev_node);
            assert(prev_edge@ =~= course_start(start).prev_edge);
        }
        while flow < target_flow
            invariant
                self.wf(),
                start == old(self).net(),
                s == source,
                t == sink,
                target == target_flow,
                0 <= s < start.len(),
                0 <= t < start.len(),
                s != t,
                is_paid(start, self.net(), s, t, flow as int, cost as int),
                0 <= flow,
                flow > 0 ==> flow <= target_flow,
                flow_costs_within(start, s, t, i128::MAX / 4),
                is_sound(Terrain { net: self.net(), s, q, pot: potential@, c }),
                dist@.len() == start.len(),
                prev_node@.len() == start.len(),
                prev_edge@.len() == start.len(),
                on_course(
                    start,
                    s,
                    t,
                    target,
                    paths,
                    Course {
                        net: self.net(),
                        pot: potential@,
                        prev_node: prev_node@,
                        prev_edge: prev_edge@,
                        flow: flow as int,
                        cost: cost as int,
                    },
                ),
            decreases target_flow - flow,
        {
            let ghost before = self.net();
            let ghost at = Course {
                net: self.net(),
                pot: potential@,
                prev_node: prev_node@,
                prev_edge: prev_edge@,
                flow: flow as int,
                cost: cost as int,
            };
            let (add_flow, Ghost(q2)) = self.push_path(
                source,
                sink,
                target_flow - flow,
                &mut potential,
                &mut dist,
                &mut prev_node,
                &mut prev_edge,
                Ghost(start),
                Ghost(Terrain { net: before, s, q, pot: at.pot, c }),
                Ghost(at),
            );
            if add_flow == 0 {
                proof {
                    reveal(is_paid);
                    lemma_sound_is_cheapest(
                        start,
                        Terrain { net: self.net(), s, q, pot: at.pot, c },
                        t,
                    );
                    lemma_course_ends_here(start, s, t, target, paths, at);
                }
                return (flow, cost);
            }
            proof {
                let more = add_flow * potential@[t];
                lemma_paid_is_within(
                    start,
                    before,
                    s,
                    t,
                    flow as int,
                    cost as int,
                    i128::MAX / 4,
                );
                lemma_paid_is_within(
                    start,
                    self.net(),
                    s,
                    t,
                    flow + add_flow,
                    cost + more,
                    i128::MAX / 4,
                );
            }
            flow = flow + add_flow;
            cost = cost + (add_flow as i128) * potential[sink];
            proof {
                lemma_course_goes_on(
                    start,
                    s,
                    t,
                    target,
                    paths,
                    at,
                    Course {
                        net: self.net(),
                        pot: potential@,
                        prev_node: prev_node@,
                        prev_edge: prev_edge@,
                        flow: flow as int,
                        cost: cost as int,
                    },
                );
                q = q2;
                paths = paths + 1;
            }
        }
        proof {
            reveal(is_paid);
            lemma_sound_is_cheapest(
                start,
                Terrain { net: self.net(), s, q, pot: potential@, c },
                t,
            );
            lemma_course_ends_here(
                start,
                s,
                t,
                target,
                paths,
                Course {
                    net: self.net(),
                    pot: potential@,
                    prev_node: prev_node@,
                    prev_edge: prev_edge@,
                    flow: flow as int,
                    cost: cost as int,
                },
            );
        }
        (flow, cost)
    }

    /// Finds a cheapest path from `source` to `sink`, raises the potentials, and pushes over the
    /// path what it has room for, at most `limit`; returns how much that is, 0 where there is no
    /// path.
    fn push_path(
        &mut self,
        source: usize,
        sink: usize,
        limit: i32,
        potential: &mut Vec<i128>,
        dist: &mut Vec<i128>,
        prev_node: &mut Vec<usize>,
        prev_edge: &mut Vec<usize>,
        Ghost(start): Ghost<Seq<Seq<Link>>>,
        Ghost(e): Ghost<Terrain>,
        Ghost(at): Ghost<Course>,
    ) -> (pushed: (i32, Ghost<Seq<int>>))
        requires
            old(self).wf(),
            is_paid(start, old(self).net(), source as int, sink as int, at.flow, at.cost),
            is_sound(e),
            e.net == old(self).net(),
            e.s == source,
            e.pot == old(potential)@,
            source < start.len(),
            sink < start.len(),
            source != sink,
            limit > 0,
            old(dist)@.len() == start.len(),
            old(prev_node)@.len() == start.len(),
            old(prev_edge)@.len() == start.len(),
            at.net == e.net,
            at.pot == e.pot,
            at.prev_node == old(prev_node)@,
            at.prev_edge == old(prev_edge)@,
        ensures
            final(self).wf(),
            final(dist)@.len() == start.len(),
            final(prev_node)@.len() == start.len(),
            final(prev_edge)@.len() == start.len(),
            final(potential)@.len() == start.len(),
            0 <= pushed.0 <= limit,
            pushed.0 == 0 ==> {
                &&& final(self).net() == e.net
                &&& leads_nowhere(e.s, sink as int, at.flow + limit, at)
                &&& is_maximum_flow(start, e.net, e.s, sink as int)
            },
            pushed.0 > 0 ==> {
                &&& is_paid(
                    start,
                    final(self).net(),
                    e.s,
                    sink as int,
                    at.flow + pushed.0,
                    at.cost + pushed.0 * final(potential)@[sink as int],
                )
                &&& is_sound(
                    Terrain {
                        net: final(self).net(),
                        s: e.s,
                        q: pushed.1@,
                        pot: final(potential)@,
                        c: e.c,
                    },
                )
                &&& leads_to(
                    e.s,
                    sink as int,
                    at.flow + limit,
                    at,
                    Course {
                        net: final(self).net(),
                        pot: final(potential)@,
                        prev_node: final(prev_node)@,
                        prev_edge: final(prev_edge)@,
                        flow: at.flow + pushed.0,
                        cost: at.cost + pushed.0 * final(potential)@[sink as int],
                    },
                )
            },
    {
        let ghost s = source as int;
        let ghost t = sink as int;
        let ghost target = at.flow + limit;
        proof {
            reveal(is_sound);
            assert(start.len() == e.net.len()) by {
                reveal(is_paid);
            }
        }
        let Ghost(l) = self.shortest_paths(
            source,
            potential,
            dist,
            prev_node,
            prev_edge,
            Ghost(e),
        );
        proof {
            assert(next_search(at, s).dist == dist@);
            lemma_raised_prices(e, l);
        }
        if dist[sink] == FAR {
            proof {
                reveal(leads_nowhere);
                reveal(is_paid);
                lemma_unreached_is_maximum(start, e, l, t);
            }
            return (0, Ghost(e.q));
        }
        Self::raise_potentials(potential, dist, Ghost(e), Ghost(l));
        assert(l.reached(t));
        let (add_flow, Ghost(path)) = self.bottleneck(
            source,
            sink,
            prev_node,
            prev_edge,
            limit,
            Ghost(e),
            Ghost(l),
        );
        let ghost q2 = raised_prices(e, l);
        proof {
            reveal(can_carry);
        }
        self.augment(
            source,
            sink,
            prev_node,
            prev_edge,
            add_flow,
            Ghost(e),
            Ghost(l),
            Ghost(path),
            Ghost(q2),
        );
        proof {
            lemma_pay_more(
                start,
                e.net,
                self.net(),
                s,
                t,
                at.flow,
                at.cost,
                add_flow as int,
                potential@[t] as int,
            );
            lemma_stays_sound(e, Terrain { net: self.net(), s, q: q2, pot: potential@, c: e.c });
            reveal(leads_to);
            assert(advanced(at, s, t, target) == (Course {
                net: self.net(),
                pot: potential@,
                prev_node: prev_node@,
                prev_edge: prev_edge@,
                flow: at.flow + add_flow,
                cost: at.cost + add_flow * potential@[t],
            }));
        }
        (add_flow, Ghost(q2))
    }
}

/// The course is at `at` after `paths` paths.
#[verifier::opaque]
spec fn on_course(
    start: Seq<Seq<Link>>,
    s: int,
    t: int,
    target: int,
    paths: nat,
    at: Course,
) -> bool {
    course_after(course_start(start), s, t, target, paths) == at
}

/// One more path leads from `at` to `next`.
#[verifier::opaque]
spec fn leads_to(s: int, t: int, target: int, at: Course, next: Course) -> bool {
    !is_complete(at, s, t, target) && advanced(at, s, t, target) == next
}

/// No more path follows.
#[verifier::opaque]
spec fn leads_nowhere(s: int, t: int, target: int, at: Course) -> bool {
    is_complete(at, s, t, target)
}

proof fn lemma_course_goes_on(
    start: Seq<Seq<Link>>,
    s: int,
    t: int,
    target: int,
    paths: nat,
    at: Course,
    next: Course,
)
    requires
        on_course(start, s, t, target, paths, at),
        leads_to(s, t, target, at, next),
    ensures
        on_course(start, s, t, target, paths + 1, next),
{
    reveal(on_course);
    reveal(leads_to);
}

proof fn lemma_course_ends_here(
    start: Seq<Seq<Link>>,
    s: int,
    t: int,
    target: int,
    paths: nat,
    at: Course,
)
    requires
        on_course(start, s, t, target, paths, at),
        at.flow >= target || leads_nowhere(s, t, target, at),
    ensures
        course_end(start, s, t, target) == at,
{
    reveal(on_course);
    reveal(leads_nowhere);
    assert(course_is_over(course_start(start), s, t, target, paths));
    lemma_course_end(start, s, t, target, paths);
}

/// `flow` units went from `s` to `t`, at `cost`; nothing has changed where there are none.
#[verifier::opaque]
spec fn is_paid(
    start: Seq<Seq<Link>>,
    net: Seq<Seq<Link>>,
    s: int,
    t: int,
    flow: int,
    cost: int,
) -> bool {
    &&& network_wf(start)
    &&& 0 <= s < start.len()
    &&& 0 <= t < start.len()
    &&& s != t
    &&& is_flow(start, net, s, t)
    &&& flow == flow_value(start, net, s)
    &&& 2 * cost == twice_flow_cost(start, net)
    &&& 0 <= flow
    &&& flow == 0 ==> net == start && cost == 0
}

/// What was paid can be counted.
proof fn lemma_paid_is_within(
    start: Seq<Seq<Link>>,
    net: Seq<Seq<Link>>,
    s: int,
    t: int,
    flow: int,
    cost: int,
    most: int,
)
    requires
        is_paid(start, net, s, t, flow, cost),
        flow_costs_within(start, s, t, most),
    ensures
        -most <= cost <= most,
{
    reveal(is_paid);
}

/// More units, paid for at `price` each.
proof fn lemma_pay_more(
    start: Seq<Seq<Link>>,
    net: Seq<Seq<Link>>,
    now: Seq<Seq<Link>>,
    s: int,
    t: int,
    flow: int,
    cost: int,
    more: int,
    price: int,
)
    requires
        is_paid(start, net, s, t, flow, cost),
        is_flow(net, now, s, t),
        flow_value(net, now, s) == more,
        twice_flow_cost(net, now) == 2 * (more * price),
        more > 0,
    ensures
        is_paid(start, now, s, t, flow + more, cost + more * price),
{
    reveal(is_paid);
    lemma_flow_trans(start, net, now, s, t);
}

/// The prices and potentials suit the network.
#[verifier::opaque]
spec fn is_sound(e: Terrain) -> bool {
    e.wf()
}

/// Pushing keeps the costs of links within their bound.
proof fn lemma_stays_sound(e: Terrain, e2: Terrain)
    requires
        e.wf(),
        same_shape(e.net, e2.net),
        network_wf(e2.net),
        e2.s == e.s,
        e2.c == e.c,
        feasible_prices(e2.net, e2.q),
        e2.pot.len() == e.net.len(),
        e2.pot[e.s] == 0,
        forall|v: int| 0 <= v < e.net.len() ==> -e.bound() <= #[trigger] e2.pot[v] <= e.bound(),
        forall|v: int| 0 <= v < e.net.len() ==> #[trigger] e2.q[v] - e2.q[e.s] >= -e.bound(),
    ensures
        is_sound(e2),
{
    reveal(is_sound);
    let now = e2.net;
    let c = e.c;
    assert forall|v: int, i: int| #![trigger now[v][i]] has_link(now, v, i) implies -c
        <= now[v][i].cost <= c by {
        assert(e.net[v].len() == now[v].len());
        assert(e.net[v][i].cost == now[v][i].cost);
    }
    assert(e2.bound() == e.bound());
}

/// Sound prices show that no flow of the same value costs less.
proof fn lemma_sound_is_cheapest(start: Seq<Seq<Link>>, e: Terrain, t: int)
    requires
        network_wf(start),
        0 <= e.s < start.len(),
        0 <= t < start.len(),
        e.s != t,
        is_flow(start, e.net, e.s, t),
        is_sound(e),
    ensures
        is_cheapest_flow(start, e.net, e.s, t),
{
    reveal(is_sound);
    lemma_cheapest(start, e.net, e.s, t, e.q);
}

/// With nothing asked for, or with the sink out of reach, nothing is pushed, nothing is paid and
/// nothing changes.
pub proof fn lemma_nothing_to_push(
    a: Seq<Seq<Link>>,
    b: Seq<Seq<Link>>,
    s: int,
    t: int,
    target: int,
    flow: int,
    cost: int,
)
    requires
        network_wf(a),
        0 <= s < a.len(),
        0 <= t < a.len(),
        is_cheapest_push(a, b, s, t, target, flow, cost),
        target <= 0 || forall|k: nat| !walk(a, s, t, k),
    ensures
        flow == 0,
        cost == 0,
        b == a,
{
    if target > 0 {
        lemma_flow_refl(a, s, t);
        lemma_no_walk_is_maximum(a, a, s, t);
    }
}

proof fn lemma_cheapest(a: Seq<Seq<Link>>, b: Seq<Seq<Link>>, s: int, t: int, q: Seq<int>)
    requires
        network_wf(a),
        0 <= s < a.len(),
        0 <= t < a.len(),
        s != t,
        is_flow(a, b, s, t),
        feasible_prices(b, q),
    ensures
        is_cheapest_flow(a, b, s, t),
{
    assert forall|c: Seq<Seq<Link>>| #[trigger]
        is_flow(a, c, s, t) && flow_value(a, c, s) == flow_value(a, b, s) implies twice_flow_cost(a, b)
        <= twice_flow_cost(a, c) by {
        lemma_feasible_prices_are_cheapest(a, b, c, s, t, q);
    }
}

/// If the search does not reach the sink the flow is maximal.
proof fn lemma_unreached_is_maximum(start: Seq<Seq<Link>>, e: Terrain, l: Labels, t: int)
    requires
        network_wf(start),
        e.wf(),
        labels_ok(e, l),
        is_flow(start, e.net, e.s, t),
        0 <= t < start.len(),
        !l.reached(t),
        forall|v: int| 0 <= v < e.net.len() && #[trigger] l.reached(v) ==> relaxed(e, l, v),
    ensures
        is_maximum_flow(start, e.net, e.s, t),
{
    let inside = |v: int| 0 <= v < e.net.len() && l.reached(v);
    assert(l.reached(e.s));
    assert forall|v: int, i: int|
        #![trigger e.net[v][i]]
        has_link(e.net, v, i) && inside(v) && e.net[v][i].cap > 0 implies inside(e.net[v][i].to) by {
        assert(relaxed(e, l, v));
        assert(has_link(e.net, e.net[v][i].to, e.net[v][i].rev));
    }
    assert(closed_set(e.net, inside));
    assert forall|c: Seq<Seq<Link>>| #[trigger] is_flow(start, c, e.s, t) implies flow_value(
        start,
        c,
        e.s,
    ) <= flow_value(start, e.net, e.s) by {
        lemma_saturated_cut_is_maximum(start, e.net, c, e.s, t, inside);
    }
}

/// The network is that of the edges: each leads where it says, has the capacity that it says and
/// the cost that it says.
pub proof fn lemma_network_of_edges(held: MinCostMaxFlow, v: int, i: int)
    requires
        0 <= v < held.graph@.len(),
        0 <= i < held.graph@[v]@.len(),
    ensures
        held.net().len() == held.graph@.len(),
        held.net()[v].len() == held.graph@[v]@.len(),
        held.net()[v][i].to == held.graph@[v]@[i].to,
        held.net()[v][i].rev == held.graph@[v]@[i].rev,
        held.net()[v][i].cap == held.graph@[v]@[i].cap,
        held.net()[v][i].cost == held.graph@[v]@[i].cost,
{
}

} // verus!
