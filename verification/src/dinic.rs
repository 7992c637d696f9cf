//! Maximum flow by level graphs and blocking paths.
use std::collections::VecDeque;
use vstd::prelude::*;

use crate::blocking::{
    after_round, after_rounds, after_search, after_searches, blocked, can_search, followed,
    is_blocked_after, lemma_blocked, lemma_followed_stays, lemma_progress_end, lemma_survey_end,
    levels_from, progress_end, rounds_are_over, search_from, search_pushes,
    survey_is_over, survey_start, surveyed, Progress, Pushed, Survey,
};
use crate::capacity::{
    is_entered, lemma_total_bounds_flow, lemma_total_bounds_nodes, lemma_total_is_kept, total_cap,
};
use crate::cut::{is_least_cut, lemma_saturated_cut_is_least};
use crate::network::{
    capacities_valid, closed_set, flow_value, has_link, is_flow, lemma_distinct_below,
    lemma_flow_refl, lemma_flow_trans, lemma_push_link, lemma_saturated_cut_is_maximum,
    lemma_with_edge, network_wf, out_cap, paired, pairs_balanced, pairs_fit, partner, push_link,
    same_shape, with_edge, Link,
};

verus! {

/// A link of the network: where it leads, the place of its partner there, and the capacity left.
#[derive(Clone, Copy)]
pub struct DinicEdge {
    pub to: usize,
    pub rev: usize,
    pub cap: i32,
}

/// A flow network, the levels of its nodes, and the link that the search is at in each node.
pub struct Dinic {
    pub graph: Vec<Vec<DinicEdge>>,
    pub level: Vec<i32>,
    pub iters: Vec<usize>,
}

impl DinicEdge {
    /// The link that the edge is.
    pub open spec fn link(self) -> Link {
        Link { to: self.to as int, rev: self.rev as int, cap: self.cap as int, cost: 0 }
    }
}

/// `k` links with capacity left lead from `s` to `v`.
pub open spec fn walk(net: Seq<Seq<Link>>, s: int, v: int, k: nat) -> bool
    decreases k,
{
    if k == 0 {
        v == s
    } else {
        exists|u: int, i: int|
            walk(net, s, u, (k - 1) as nat) && has_link(net, u, i) && #[trigger] net[u][i].cap > 0
                && net[u][i].to == v
    }
}

/// `level` holds the number of links from `s` for every node that has a level, and every
/// node closer than `limit` has one.
#[verifier::opaque]
pub open spec fn levels_are_distances(
    net: Seq<Seq<Link>>,
    level: Seq<i32>,
    s: int,
    limit: int,
) -> bool {
    &&& level.len() == net.len()
    &&& forall|v: int| 0 <= v < net.len() ==> #[trigger] level[v] >= -1
    &&& forall|v: int|
        0 <= v < net.len() && #[trigger] level[v] >= 0 ==> walk(net, s, v, level[v] as nat)
    &&& forall|v: int, k: nat|
        0 <= v < net.len() && #[trigger] walk(net, s, v, k) && level[v] >= 0 ==> level[v] <= k
    &&& forall|v: int, k: nat|
        0 <= v < net.len() && #[trigger] walk(net, s, v, k) && k < limit ==> level[v] >= 0
}

/// Every link that a search has already passed over, and that still has capacity and leads to a
/// higher level, leads to a node other than the sink that has been searched to its end.
pub open spec fn dead_ends(
    net: Seq<Seq<Link>>,
    level: Seq<i32>,
    iters: Seq<usize>,
    sink: int,
) -> bool {
    forall|v: int, i: int|
        #![trigger net[v][i]]
        has_link(net, v, i) && i < iters[v] && net[v][i].cap > 0 && level[v] < level[net[v][i].to]
            ==> {
            &&& net[v][i].to != sink
            &&& iters[net[v][i].to] >= net[net[v][i].to].len()
        }
}

/// Some link to a higher level lost all its capacity.
pub open spec fn saturates(
    before: Seq<Seq<Link>>,
    after: Seq<Seq<Link>>,
    level: Seq<i32>,
) -> bool {
    exists|v: int, i: int|
        #![trigger before[v][i]]
        has_link(before, v, i) && before[v][i].cap > 0 && after[v][i].cap == 0 && level[v]
            < level[before[v][i].to]
}

/// Levels can be counted: there are not too many nodes, or there is not too much capacity for a
/// path to be longer than an `i32` can say.
pub open spec fn levels_fit(net: Seq<Seq<Link>>) -> bool {
    net.len() <= i32::MAX || total_cap(net) <= i32::MAX
}

/// `b` is a maximum flow of `a` from `s` to `t`.
pub open spec fn is_maximum_flow(
    a: Seq<Seq<Link>>,
    b: Seq<Seq<Link>>,
    s: int,
    t: int,
) -> bool {
    &&& is_flow(a, b, s, t)
    &&& forall|c: Seq<Seq<Link>>| #[trigger]
        is_flow(a, c, s, t) ==> flow_value(a, c, s) <= flow_value(a, b, s)
}

impl Dinic {
    /// The residual network that the structure holds.
    pub open spec fn net(self) -> Seq<Seq<Link>> {
        Seq::new(
            self.graph@.len(),
            |v: int| Seq::new(self.graph@[v]@.len(), |i: int| self.graph@[v]@[i].link()),
        )
    }

    /// The network is well formed, capacities of partners fit together, and each node has a level.
    pub open spec fn wf(self) -> bool {
        &&& network_wf(self.net())
        &&& pairs_fit(self.net())
        &&& self.level@.len() == self.graph@.len()
        &&& self.iters@.len() == self.graph@.len()
    }

    /// A network without links.
    pub fn new(node_count: usize) -> (dinic: Self)
        ensures
            dinic.wf(),
            dinic.net() == Seq::new(node_count as nat, |v: int| Seq::<Link>::empty()),
            dinic.level@ == Seq::new(node_count as nat, |v: int| 0i32),
            dinic.iters@ == Seq::new(node_count as nat, |v: int| 0usize),
    {
        let dinic = Self {
            graph: vec![Vec::new(); node_count],
            level: vec![0; node_count],
            iters: vec![0; node_count],
        };
        assert(dinic.net() =~~= Seq::new(node_count as nat, |v: int| Seq::<Link>::empty()));
        dinic
    }

    /// Adds a link of capacity `cap`; a link from a node to itself is stored too, but
    /// leaves the structure without paired links.
    pub fn add_edge(&mut self, from: usize, to: usize, cap: i32)
        requires
            from < old(self).graph@.len(),
            to < old(self).graph@.len(),
        ensures
            final(self).net() == with_edge(old(self).net(), from as int, to as int, cap as int, 0),
            final(self).level == old(self).level,
            final(self).iters == old(self).iters,
            old(self).wf() && from != to && cap >= 0 ==> final(self).wf(),
    {
        let rev_to = self.graph[to].len();
        let rev_from = self.graph[from].len();
        self.graph[from].push(DinicEdge { to, rev: rev_to, cap });
        self.graph[to].push(DinicEdge { to: from, rev: rev_from, cap: 0 });
        proof {
            assert(self.net() =~~= with_edge(old(self).net(), from as int, to as int, cap as int, 0));
            if old(self).wf() && from != to && cap >= 0 {
                lemma_with_edge(old(self).net(), from as int, to as int, cap as int, 0);
            }
        }
    }

    /// Labels nodes with their distance from `source` until `sink` has a label or nothing
    /// is left to label; says whether `sink` can be reached.
    pub fn bfs(&mut self, source: usize, sink: usize) -> (found: bool)
        requires
            old(self).wf(),
            levels_fit(old(self).net()),
            source < old(self).graph@.len(),
            sink < old(self).graph@.len(),
        ensures
            final(self).graph == old(self).graph,
            final(self).iters == old(self).iters,
            final(self).wf(),
            final(self).level@ == levels_from(old(self).net(), source as int, sink as int),
            found == (final(self).level@[sink as int] >= 0),
            found <==> exists|k: nat| walk(old(self).net(), source as int, sink as int, k),
            found ==> levels_are_distances(
                old(self).net(),
                final(self).level@,
                source as int,
                final(self).level@[sink as int] as int,
            ),
            !found || source == sink ==> forall|limit: int|
                levels_are_distances(old(self).net(), final(self).level@, source as int, limit),
    {
        let ghost net = self.net();
        let ghost s = source as int;
        let n = self.level.len();
        fill_levels(&mut self.level);
        let mut queue: VecDeque<usize> = VecDeque::new();
        self.level[source] = 0;
        queue.push_back(source);
        let ghost mut order: Seq<int> = seq![s];
        let ghost t = sink as int;
        let ghost mut nodes: nat = 0;
        proof {
            assert(walk(net, s, s, 0));
            assert(self.level@ =~= survey_start(net.len(), s).level);
            assert(queue@ =~= survey_start(net.len(), s).queue);
        }
        loop
            invariant
                t == sink,
                surveyed(net, s, t, nodes) == (Survey {
                    level: self.level@,
                    queue: queue@,
                    found: false,
                }),
                n == net.len(),
                levels_fit(net),
                s == source,
                source < n,
                sink < n,
                self.graph == old(self).graph,
                self.iters == old(self).iters,
                self.net() == net,
                old(self).net() == net,
                old(self).wf(),
                self.level@.len() == n,
                self.level@[sink as int] == (if source == sink {
                    0int
                } else {
                    -1int
                }),
                bfs_state(net, self.level@, s, order, order.len() - queue@.len()),
                queue@.len() <= order.len(),
                forall|j: int|
                    0 <= j < queue@.len() ==> #[trigger] queue@[j] == order[order.len() - queue@.len() + j],
            decreases n - order.len() + queue@.len(),
        {
            let ghost h = order.len() - queue@.len();
            let ghost queue_before = queue@;
            match queue.pop_front() {
                None => {
                    proof {
                        assert(survey_is_over(net, s, t, nodes));
                        lemma_survey_end(net, s, t, nodes);
                        lemma_bfs_exhausted(net, self.level@, s, order);
                        if source == sink {
                            assert(walk(net, s, sink as int, 0));
                        } else {
                            assert forall|k: nat| !walk(net, s, sink as int, k) by {}
                        }
                    }
                    return self.level[sink] >= 0;
                },
                Some(node) => {
                    let ghost u = node as int;
                    assert(order[h] == queue_before[0]);
                    assert(order[h] == u);
                    let ghost rest = Survey { level: self.level@, queue: queue@, found: false };
                    proof {
                        lemma_distinct_below(order, n as int);
                        assert(queue@ =~= queue_before.drop_first());
                        nodes = nodes + 1;
                        assert(surveyed(net, s, t, nodes) == followed(
                            net,
                            t,
                            rest,
                            u,
                            net[u].len() as int,
                        ));
                    }
                    let mut k: usize = 0;
                    while k < self.graph[node].len()
                        invariant
                            t == sink,
                            followed(net, t, rest, u, k as int) == (Survey {
                                level: self.level@,
                                queue: queue@,
                                found: false,
                            }),
                            surveyed(net, s, t, nodes) == followed(
                                net,
                                t,
                                rest,
                                u,
                                net[u].len() as int,
                            ),
                            n == net.len(),
                            levels_fit(net),
                            s == source,
                            source < n,
                            sink < n,
                            node < n,
                            u == node,
                            self.graph == old(self).graph,
                            self.iters == old(self).iters,
                            self.net() == net,
                            old(self).net() == net,
                            old(self).wf(),
                            self.level@.len() == n,
                            self.level@[sink as int] == (if source == sink {
                                0int
                            } else {
                                -1int
                            }),
                            0 <= h < order.len(),
                            order[h] == u,
                            k <= net[u].len(),
                            bfs_state(net, self.level@, s, order, h),
                            queue@.len() == order.len() - h - 1,
                            forall|j: int|
                                0 <= j < queue@.len() ==> #[trigger] queue@[j] == order[h + 1 + j],
                            forall|i: int|
                                #![trigger net[u][i]]
                                0 <= i < k && net[u][i].cap > 0 ==> {
                                    &&& self.level@[net[u][i].to] >= 0
                                    &&& self.level@[net[u][i].to] <= self.level@[u] + 1
                                },
                            order.len() <= n,
                        decreases net[u].len() - k,
                    {
                        let cap = self.graph[node][k].cap;
                        let to = self.graph[node][k].to;
                        assert(net[u][k as int] == self.graph@[u]@[k as int].link());
                        assert(has_link(net, u, k as int));
                        if cap <= 0 || self.level[to] >= 0 {
                            k = k + 1;
                            continue;
                        }
                        let ghost before = self.level@;
                        proof {
                            lemma_level_has_room(net, before, s, order, h, k as int);
                            lemma_bfs_discover(net, before, s, order, h, k as int);
                        }
                        self.level[to] = self.level[node] + 1;
                        proof {
                            order = order.push(to as int);
                            lemma_distinct_below(order, n as int);
                        }
                        if to == sink {
                            proof {
                                assert(followed(net, t, rest, u, k + 1).level == self.level@);
                                lemma_followed_stays(
                                    net,
                                    t,
                                    rest,
                                    u,
                                    k + 1,
                                    net[u].len() as int,
                                );
                                assert(survey_is_over(net, s, t, nodes));
                                lemma_survey_end(net, s, t, nodes);
                                lemma_bfs_found(net, self.level@, s, order, h);
                                assert(walk(net, s, sink as int, self.level@[sink as int] as nat));
                            }
                            return true;
                        }
                        queue.push_back(to);
                        k = k + 1;
                    }
                    proof {
                        assert(bfs_state(net, self.level@, s, order, h + 1));
                    }
                },
            }
        }
    }

    /// Moves `amount` over one link.
    fn push_edge(&mut self, node: usize, edge_idx: usize, amount: i32)
        requires
            old(self).wf(),
            has_link(old(self).net(), node as int, edge_idx as int),
            0 <= amount <= old(self).net()[node as int][edge_idx as int].cap,
        ensures
            final(self).level == old(self).level,
            final(self).iters == old(self).iters,
            final(self).graph@.len() == old(self).graph@.len(),
            final(self).net() == push_link(
                old(self).net(),
                node as int,
                edge_idx as int,
                amount as int,
            ),
    {
        let edge = self.graph[node][edge_idx];
        let ghost net = self.net();
        let ghost u = node as int;
        let ghost k = edge_idx as int;
        proof {
            assert(net[u][k] == edge.link());
            assert(has_link(net, edge.to as int, edge.rev as int));
            assert(net[u][k].cap + partner(net, u, k).cap <= i32::MAX);
            assert(net[edge.to as int][edge.rev as int]
                == self.graph@[edge.to as int]@[edge.rev as int].link());
        }
        self.graph[node][edge_idx].cap = edge.cap - amount;
        let rev = edge.rev;
        self.graph[edge.to][rev].cap = self.graph[edge.to][rev].cap + amount;
        assert(self.net() =~~= push_link(net, u, k, amount as int));
    }

    /// Searches for a path from `node` to `sink` that climbs levels, and pushes what fits, at
    /// most `flow`, over the first one found.
    pub fn dfs(&mut self, node: usize, sink: usize, flow: i32) -> (pushed: i32)
        requires
            old(self).wf(),
            node < old(self).graph@.len(),
            sink < old(self).graph@.len(),
        ensures
            final(self).wf(),
            final(self).level == old(self).level,
            search_from(
                old(self).net(),
                old(self).iters@,
                old(self).level@,
                node as int,
                sink as int,
                flow as int,
            ) == (Pushed {
                net: final(self).net(),
                iters: final(self).iters@,
                amount: pushed as int,
            }),
            search_outcome(
                old(self).net(),
                old(self).iters@,
                final(self).net(),
                final(self).iters@,
                old(self).level@,
                node as int,
                sink as int,
                flow as int,
                pushed as int,
            ),
            pushed > 0 && node != sink ==> follows_route(
                old(self).net(),
                final(self).net(),
                final(self).iters@,
                old(self).level@,
                node as int,
                sink as int,
                flow as int,
                pushed as int,
            ),
        decreases i32::MAX - old(self).level@[node as int],
    {
        let ghost start = self.net();
        let ghost iters0 = self.iters@;
        let ghost level = self.level@;
        proof {
            assert forall|v: int| 0 <= v < start.len() implies #[trigger] start[v].len()
                <= usize::MAX by {
                assert(self.graph@[v].len() <= usize::MAX);
            }
        }
        if node == sink {
            proof {
                lemma_outcome_at_sink(start, iters0, level, sink as int, flow as int);
            }
            return flow;
        }
        proof {
            lemma_progress_start(start, iters0, level, node as int, sink as int, flow as int);
        }
        while self.iters[node] < self.graph[node].len()
            invariant
                node != sink,
                node < start.len(),
                sink < start.len(),
                start == old(self).net(),
                iters0 == old(self).iters@,
                level == old(self).level@,
                self.wf(),
                self.net() == start,
                self.level == old(self).level,
                can_search(start, self.iters@, node as int),
                search_from(start, iters0, level, node as int, sink as int, flow as int)
                    == search_from(
                    start,
                    self.iters@,
                    level,
                    node as int,
                    sink as int,
                    flow as int,
                ),
                search_progress(
                    start,
                    iters0,
                    self.iters@,
                    level,
                    node as int,
                    sink as int,
                    flow as int,
                ),
            decreases start[node as int].len() - self.iters@[node as int],
        {
            let edge_idx = self.iters[node];
            let edge = self.graph[node][edge_idx];
            let ghost u = node as int;
            let ghost k = edge_idx as int;
            let ghost iters1 = self.iters@;
            proof {
                assert(start[u][k] == edge.link());
                assert(has_link(start, u, k));
                assert(has_link(start, edge.to as int, edge.rev as int));
            }
            if edge.cap > 0 && self.level[node] < self.level[edge.to] {
                let limit = if flow <= edge.cap { flow } else { edge.cap };
                let pushed = self.dfs(edge.to, sink, limit);
                let ghost mid = self.net();
                let ghost iters2 = self.iters@;
                if pushed > 0 {
                    proof {
                        lemma_outcome_extend(
                            start, iters0, iters1, mid, iters2, level, u, k, sink as int,
                            flow as int, pushed as int,
                        );
                        lemma_route_extend(
                            start, iters0, iters1, mid, iters2, level, u, k, sink as int,
                            flow as int, pushed as int,
                        );
                    }
                    self.push_edge(node, edge_idx, pushed);
                    return pushed;
                }
                proof {
                    lemma_progress_failed(
                        start, iters0, iters1, mid, iters2, level, u, k, sink as int, flow as int,
                        limit as int, pushed as int,
                    );
                }
            } else {
                proof {
                    lemma_progress_skip(
                        start, iters0, iters1, level, u, k, sink as int, flow as int,
                    );
                }
            }
            self.iters[node] = edge_idx + 1;
        }
        proof {
            lemma_outcome_nothing(
                start, iters0, self.iters@, level, node as int, sink as int, flow as int,
            );
        }
        0
    }
}

impl Dinic {
    /// Pushes a maximum flow from `source` to `sink` and returns its value.
    pub fn max_flow(&mut self, source: usize, sink: usize) -> (flow: i32)
        requires
            old(self).wf(),
            levels_fit(old(self).net()),
            source < old(self).graph@.len(),
            sink < old(self).graph@.len(),
            source != sink,
            // no flow is too large to be counted
            forall|c: Seq<Seq<Link>>| #[trigger]
                is_flow(old(self).net(), c, source as int, sink as int) ==> flow_value(
                    old(self).net(),
                    c,
                    source as int,
                ) <= i32::MAX,
        ensures
            final(self).wf(),
            is_maximum_flow(old(self).net(), final(self).net(), source as int, sink as int),
            flow == flow_value(old(self).net(), final(self).net(), source as int),
            is_least_cut(old(self).net(), source as int, sink as int, flow as int),
            // no path with capacity is left
            forall|k: nat| !walk(final(self).net(), source as int, sink as int, k),
            flow == 0 ==> final(self).net() == old(self).net(),
            // which maximum flow it is
            (Progress {
                net: final(self).net(),
                level: final(self).level@,
                iters: final(self).iters@,
                flow: flow as int,
            }) == progress_end(
                Progress {
                    net: old(self).net(),
                    level: old(self).level@,
                    iters: old(self).iters@,
                    flow: 0,
                },
                source as int,
                sink as int,
            ),
    {
        let ghost start = self.net();
        let ghost s = source as int;
        let ghost t = sink as int;
        let ghost from = Progress { net: start, level: self.level@, iters: self.iters@, flow: 0 };
        let mut flow: i32 = 0;
        let ghost mut rounds: nat = 0;
        proof {
            lemma_flow_refl(start, s, t);
        }
        loop
            invariant
                from == (Progress {
                    net: start,
                    level: old(self).level@,
                    iters: old(self).iters@,
                    flow: 0,
                }),
                after_rounds(from, s, t, rounds) == (Progress {
                    net: self.net(),
                    level: self.level@,
                    iters: self.iters@,
                    flow: flow as int,
                }),
                start == old(self).net(),
                network_wf(start),
                s == source,
                t == sink,
                0 <= s < start.len(),
                0 <= t < start.len(),
                s != t,
                levels_fit(start),
                self.wf(),
                is_flow(start, self.net(), s, t),
                flow == flow_value(start, self.net(), s),
                flow >= 0,
                flow == 0 ==> self.net() == start,
                forall|c: Seq<Seq<Link>>| #[trigger]
                    is_flow(start, c, s, t) ==> flow_value(start, c, s) <= i32::MAX,
            decreases i32::MAX - flow,
        {
            let ghost at = after_rounds(from, s, t, rounds);
            proof {
                lemma_total_is_kept(start, self.net());
            }
            if !self.next_levels(source, sink) {
                proof {
                    lemma_no_walk_is_maximum(start, self.net(), s, t);
                    assert(rounds_are_over(from, s, t, rounds));
                    lemma_progress_end(from, s, t, rounds);
                }
                return flow;
            }
            flow = self.push_all(source, sink, flow, Ghost(start));
            proof {
                rounds = rounds + 1;
                assert(after_rounds(from, s, t, rounds) == after_round(at, s, t));
            }
        }
    }

    /// Labels nodes anew, for searches that start anew; says whether `sink` can be reached.
    fn next_levels(&mut self, source: usize, sink: usize) -> (found: bool)
        requires
            old(self).wf(),
            source < old(self).graph@.len(),
            sink < old(self).graph@.len(),
            source != sink,
            levels_fit(old(self).net()),
        ensures
            final(self).net() == old(self).net(),
            final(self).wf(),
            final(self).level@ == levels_from(old(self).net(), source as int, sink as int),
            found == (final(self).level@[sink as int] >= 0),
            final(self).iters@ == (if found {
                Seq::new(old(self).iters@.len(), |v: int| 0usize)
            } else {
                old(self).iters@
            }),
            found ==> usable_levels(
                final(self).net(),
                final(self).level@,
                final(self).iters@,
                source as int,
                sink as int,
            ),
            !found ==> forall|k: nat| !walk(final(self).net(), source as int, sink as int, k),
    {
        let ghost net = self.net();
        let found = self.bfs(source, sink);
        if found {
            reset_iters(&mut self.iters);
            proof {
                assert(self.net() == net);
                lemma_fresh_levels(net, self.level@, source as int, sink as int);
            }
        }
        found
    }

    /// Pushes over routes that climb the levels until there are none left; `flow` is what was
    /// pushed before.
    fn push_all(
        &mut self,
        source: usize,
        sink: usize,
        flow: i32,
        Ghost(start): Ghost<Seq<Seq<Link>>>,
    ) -> (total: i32)
        requires
            network_wf(start),
            source < start.len(),
            sink < start.len(),
            source != sink,
            old(self).wf(),
            old(self).net().len() == start.len(),
            is_flow(start, old(self).net(), source as int, sink as int),
            flow == flow_value(start, old(self).net(), source as int),
            flow >= 0,
            forall|c: Seq<Seq<Link>>| #[trigger]
                is_flow(start, c, source as int, sink as int) ==> flow_value(
                    start,
                    c,
                    source as int,
                ) <= i32::MAX,
            usable_levels(
                old(self).net(),
                old(self).level@,
                old(self).iters@,
                source as int,
                sink as int,
            ),
        ensures
            total > flow,
            final(self).wf(),
            (Progress {
                net: final(self).net(),
                level: final(self).level@,
                iters: final(self).iters@,
                flow: total as int,
            }) == blocked(
                Progress {
                    net: old(self).net(),
                    level: old(self).level@,
                    iters: old(self).iters@,
                    flow: flow as int,
                },
                source as int,
                sink as int,
            ),
            is_flow(start, final(self).net(), source as int, sink as int),
            total == flow_value(start, final(self).net(), source as int),
    {
        let ghost net = self.net();
        let ghost level = self.level@;
        let ghost s = source as int;
        let ghost t = sink as int;
        let ghost from = Progress { net, level, iters: self.iters@, flow: flow as int };
        let mut total = flow;
        let ghost mut searches: nat = 0;
        loop
            invariant
                after_searches(from, s, t, searches) == (Progress {
                    net: self.net(),
                    level: self.level@,
                    iters: self.iters@,
                    flow: total as int,
                }),
                forall|m: nat| m < searches ==> #[trigger] search_pushes(from, s, t, m),
                from == (Progress {
                    net: old(self).net(),
                    level: old(self).level@,
                    iters: old(self).iters@,
                    flow: flow as int,
                }),
                network_wf(start),
                s == source,
                t == sink,
                0 <= s < start.len(),
                0 <= t < start.len(),
                s != t,
                self.wf(),
                self.net().len() == start.len(),
                is_flow(start, self.net(), s, t),
                total == flow_value(start, self.net(), s),
                total >= flow >= 0,
                forall|c: Seq<Seq<Link>>| #[trigger]
                    is_flow(start, c, s, t) ==> flow_value(start, c, s) <= i32::MAX,
                network_wf(net),
                net.len() == start.len(),
                self.level@ == level,
                total == flow ==> self.net() == net && usable_levels(
                    net,
                    level,
                    self.iters@,
                    s,
                    t,
                ),
            decreases i32::MAX - total,
        {
            let ghost before = self.net();
            let ghost iters = self.iters@;
            let pushed = self.dfs(source, sink, i32::MAX);
            proof {
                lemma_search_step(
                    start,
                    before,
                    iters,
                    self.net(),
                    self.iters@,
                    level,
                    s,
                    t,
                    pushed as int,
                );
                if total == flow {
                    lemma_first_search(
                        net,
                        iters,
                        self.net(),
                        self.iters@,
                        level,
                        s,
                        t,
                        pushed as int,
                    );
                }
            }
            proof {
                let now = after_searches(from, s, t, searches);
                assert(after_searches(from, s, t, searches + 1) == after_search(now, s, t));
                assert(search_pushes(from, s, t, searches) == (pushed != 0));
            }
            if pushed == 0 {
                proof {
                    assert(is_blocked_after(from, s, t, searches));
                    lemma_blocked(from, s, t, searches);
                }
                return total;
            }
            total = total + pushed;
            proof {
                searches = searches + 1;
            }
        }
    }
}

/// Starts every node at its first link.
fn reset_iters(iters: &mut Vec<usize>)
    ensures
        final(iters)@ == Seq::new(old(iters)@.len(), |v: int| 0usize),
{
    let n = iters.len();
    let mut v: usize = 0;
    while v < n
        invariant
            n == iters@.len(),
            iters@.len() == old(iters)@.len(),
            v <= n,
            forall|w: int| 0 <= w < v ==> iters@[w] == 0,
        decreases n - v,
    {
        iters[v] = 0;
        v = v + 1;
    }
    assert(iters@ =~= Seq::new(old(iters)@.len(), |v: int| 0usize));
}

/// A search from source to sink extends the flow by what it pushed.
proof fn lemma_search_is_flow(
    start: Seq<Seq<Link>>,
    before: Seq<Seq<Link>>,
    after: Seq<Seq<Link>>,
    s: int,
    t: int,
    pushed: int,
)
    requires
        network_wf(start),
        0 <= s < start.len(),
        0 <= t < start.len(),
        s != t,
        is_flow(start, before, s, t),
        same_shape(before, after),
        pairs_balanced(before, after),
        capacities_valid(after),
        forall|w: int|
            0 <= w < before.len() ==> #[trigger] out_cap(after, w) == out_cap(before, w) - (if w == s {
                pushed
            } else {
                0
            }) + (if w == t { pushed } else { 0 }),
    ensures
        is_flow(start, after, s, t),
        flow_value(start, after, s) == flow_value(start, before, s) + pushed,
{
    assert(is_flow(before, after, s, t));
    lemma_flow_trans(start, before, after, s, t);
}

/// What a search from the source does to the flow.
proof fn lemma_search_step(
    start: Seq<Seq<Link>>,
    before: Seq<Seq<Link>>,
    iters_before: Seq<usize>,
    after: Seq<Seq<Link>>,
    iters_after: Seq<usize>,
    level: Seq<i32>,
    s: int,
    t: int,
    pushed: int,
)
    requires
        network_wf(start),
        0 <= s < start.len(),
        0 <= t < start.len(),
        s != t,
        is_flow(start, before, s, t),
        network_wf(after),
        search_outcome(
            before,
            iters_before,
            after,
            iters_after,
            level,
            s,
            t,
            i32::MAX as int,
            pushed,
        ),
    ensures
        is_flow(start, after, s, t),
        flow_value(start, after, s) == flow_value(start, before, s) + pushed,
        0 <= pushed,
{
    reveal(search_outcome);
    lemma_search_is_flow(start, before, after, s, t, pushed);
}

/// The levels are distances from `s`, `t` has one, and what searches have passed over is of no use.
#[verifier::opaque]
spec fn usable_levels(
    net: Seq<Seq<Link>>,
    level: Seq<i32>,
    iters: Seq<usize>,
    s: int,
    t: int,
) -> bool {
    &&& level[t] >= 0
    &&& levels_are_distances(net, level, s, level[t] as int)
    &&& dead_ends(net, level, iters, t)
}

/// Where no link has been passed over yet, the levels are of use.
proof fn lemma_fresh_levels(net: Seq<Seq<Link>>, level: Seq<i32>, s: int, t: int)
    requires
        level[t] >= 0,
        levels_are_distances(net, level, s, level[t] as int),
    ensures
        usable_levels(net, level, Seq::new(net.len(), |v: int| 0usize), s, t),
{
    reveal(usable_levels);
}

/// The first search after nodes have been labelled finds a route.
proof fn lemma_first_search(
    net: Seq<Seq<Link>>,
    iters_before: Seq<usize>,
    after: Seq<Seq<Link>>,
    iters_after: Seq<usize>,
    level: Seq<i32>,
    s: int,
    t: int,
    pushed: int,
)
    requires
        network_wf(net),
        0 <= s < net.len(),
        0 <= t < net.len(),
        s != t,
        usable_levels(net, level, iters_before, s, t),
        search_outcome(
            net,
            iters_before,
            after,
            iters_after,
            level,
            s,
            t,
            i32::MAX as int,
            pushed,
        ),
    ensures
        pushed != 0,
{
    reveal(levels_are_distances);
    reveal(search_outcome);
    reveal(usable_levels);
    if pushed == 0 {
        assert(walk(net, s, t, level[t] as nat));
        lemma_search_cannot_fail(net, level, iters_after, s, t, t, level[t] as nat);
    }
}

/// The nodes to which links with capacity left lead.
pub open spec fn within_reach(net: Seq<Seq<Link>>, s: int) -> spec_fn(int) -> bool {
    |v: int| exists|k: nat| walk(net, s, v, k)
}

/// Links with capacity left do not lead out of what is within reach.
proof fn lemma_reach_is_closed(net: Seq<Seq<Link>>, s: int)
    ensures
        closed_set(net, within_reach(net, s)),
        within_reach(net, s)(s),
{
    let inside = within_reach(net, s);
    assert(walk(net, s, s, 0));
    assert forall|v: int, i: int|
        #![trigger net[v][i]]
        has_link(net, v, i) && inside(v) && net[v][i].cap > 0 implies inside(net[v][i].to) by {
        let k = choose|k: nat| walk(net, s, v, k);
        assert((k + 1 - 1) as nat == k);
        assert(walk(net, s, net[v][i].to, k + 1)) by {
            assert(net[v][i].cap > 0);
        }
    }
}

/// A flow that leaves no path with capacity is a maximum flow, and carries the least capacity of
/// a cut.
pub proof fn lemma_no_walk_is_maximum(
    start: Seq<Seq<Link>>,
    net: Seq<Seq<Link>>,
    s: int,
    t: int,
)
    requires
        network_wf(start),
        is_flow(start, net, s, t),
        0 <= s < start.len(),
        0 <= t < start.len(),
        forall|k: nat| !walk(net, s, t, k),
    ensures
        is_maximum_flow(start, net, s, t),
        is_least_cut(start, s, t, flow_value(start, net, s)),
{
    let inside = within_reach(net, s);
    lemma_reach_is_closed(net, s);
    assert(!inside(t));
    lemma_saturated_cut_is_least(start, net, s, t, inside);
    assert forall|c: Seq<Seq<Link>>| #[trigger] is_flow(start, c, s, t) implies flow_value(start, c, s)
        <= flow_value(start, net, s) by {
        lemma_saturated_cut_is_maximum(start, net, c, s, t, inside);
    }
}

/// A total capacity that an `i32` can hold is all that a maximum flow asks of a network, however
/// many nodes it has: levels can be counted, and so can what any flow carries.
pub proof fn lemma_small_capacity_suffices(net: Seq<Seq<Link>>, s: int, t: int)
    requires
        network_wf(net),
        0 <= s < net.len(),
        total_cap(net) <= i32::MAX,
    ensures
        levels_fit(net),
        forall|c: Seq<Seq<Link>>| #[trigger]
            is_flow(net, c, s, t) ==> flow_value(net, c, s) <= i32::MAX,
{
    assert forall|c: Seq<Seq<Link>>| #[trigger] is_flow(net, c, s, t) implies flow_value(net, c, s)
        <= i32::MAX by {
        lemma_total_bounds_flow(net, c, s, t);
    }
}

/// A maximum flow that is pushed a second time, when the first has left no path with capacity, is
/// 0, and the network stays as it is.
pub proof fn lemma_second_push_does_nothing(
    net: Seq<Seq<Link>>,
    again: Seq<Seq<Link>>,
    s: int,
    t: int,
    flow: int,
)
    requires
        network_wf(net),
        0 <= s < net.len(),
        0 <= t < net.len(),
        forall|k: nat| !walk(net, s, t, k),
        is_maximum_flow(net, again, s, t),
        flow == flow_value(net, again, s),
        flow == 0 ==> again == net,
    ensures
        flow == 0,
        again == net,
{
    lemma_flow_refl(net, s, t);
    lemma_no_walk_is_maximum(net, net, s, t);
}

/// What a search from `node` that may push up to `flow` does.
#[verifier::opaque]
pub open spec fn search_outcome(
    before: Seq<Seq<Link>>,
    iters_before: Seq<usize>,
    after: Seq<Seq<Link>>,
    iters_after: Seq<usize>,
    level: Seq<i32>,
    node: int,
    sink: int,
    flow: int,
    pushed: int,
) -> bool {
    &&& same_shape(before, after)
    &&& pairs_balanced(before, after)
    &&& iters_after.len() == before.len()
    // only nodes from the level of `node` upwards are touched, and links are passed over once
    &&& forall|v: int|
        0 <= v < before.len() && #[trigger] level[v] < level[node] ==> after[v] == before[v]
            && iters_after[v] == iters_before[v]
    &&& forall|v: int| 0 <= v < before.len() ==> #[trigger] iters_after[v] >= iters_before[v]
    &&& node == sink ==> pushed == flow && after == before && iters_after == iters_before
    &&& node != sink ==> 0 <= pushed
    &&& flow > 0 ==> pushed <= flow
    &&& flow <= 0 ==> after == before && (node != sink ==> pushed == 0)
    // what leaves `node` arrives at `sink`
    &&& flow > 0 ==> forall|w: int|
        0 <= w < before.len() ==> #[trigger] out_cap(after, w) == out_cap(before, w) - (if w == node {
            pushed
        } else {
            0
        }) + (if w == sink { pushed } else { 0 })
    // as much as fits was pushed
    &&& pushed > 0 ==> pushed == flow || saturates(before, after, level)
    // nothing was pushed only if every link of `node` was tried
    &&& pushed == 0 && node != sink ==> after == before && iters_after[node] >= before[node].len()
    &&& flow > 0 && dead_ends(before, level, iters_before, sink) ==> dead_ends(
        after,
        level,
        iters_after,
        sink,
    )
}

/// `route` leads from `node` to `sink` over links with capacity left to higher levels; at each node
/// it takes the link that the search is at.
pub open spec fn is_route(
    net: Seq<Seq<Link>>,
    iters: Seq<usize>,
    level: Seq<i32>,
    node: int,
    sink: int,
    route: Seq<int>,
) -> bool
    decreases route.len(),
{
    if route.len() == 0 {
        node == sink
    } else {
        let i = iters[node] as int;
        let l = net[node][i];
        &&& node != sink
        &&& route[0] == node
        &&& has_link(net, node, i)
        &&& l.cap > 0
        &&& level[node] < level[l.to]
        &&& is_route(net, iters, level, l.to, sink, route.drop_first())
    }
}

/// How much of `flow` fits over the links of the route.
pub open spec fn fits_over(
    net: Seq<Seq<Link>>,
    iters: Seq<usize>,
    route: Seq<int>,
    flow: int,
) -> int
    decreases route.len(),
{
    if route.len() == 0 {
        flow
    } else {
        let cap = net[route[0]][iters[route[0]] as int].cap;
        fits_over(
            net,
            iters,
            route.drop_first(),
            if flow <= cap {
                flow
            } else {
                cap
            },
        )
    }
}

/// The network after `amount` was pushed over the links of the route.
pub open spec fn pushed_over(
    net: Seq<Seq<Link>>,
    iters: Seq<usize>,
    route: Seq<int>,
    amount: int,
) -> Seq<Seq<Link>>
    decreases route.len(),
{
    if route.len() == 0 {
        net
    } else {
        push_link(
            pushed_over(net, iters, route.drop_first(), amount),
            route[0],
            iters[route[0]] as int,
            amount,
        )
    }
}

/// As much of `flow` as fits over some route was pushed over it, and nothing else changed.
pub open spec fn follows_route(
    before: Seq<Seq<Link>>,
    after: Seq<Seq<Link>>,
    iters: Seq<usize>,
    level: Seq<i32>,
    node: int,
    sink: int,
    flow: int,
    pushed: int,
) -> bool {
    exists|route: Seq<int>| #[trigger]
        is_route(before, iters, level, node, sink, route) && pushed == fits_over(
            before,
            iters,
            route,
            flow,
        ) && after == pushed_over(before, iters, route, pushed)
}

/// A route from the head of link `(u, k)`, extended by that link.
proof fn lemma_route_extend(
    start: Seq<Seq<Link>>,
    iters0: Seq<usize>,
    iters1: Seq<usize>,
    mid: Seq<Seq<Link>>,
    iters2: Seq<usize>,
    level: Seq<i32>,
    u: int,
    k: int,
    sink: int,
    flow: int,
    pushed: int,
)
    requires
        has_link(start, u, k),
        u != sink,
        iters1[u] == k,
        level[u] < level[start[u][k].to],
        start[u][k].cap > 0,
        pushed > 0,
        search_outcome(
            start,
            iters1,
            mid,
            iters2,
            level,
            start[u][k].to,
            sink,
            if flow <= start[u][k].cap { flow } else { start[u][k].cap },
            pushed,
        ),
        start[u][k].to != sink ==> follows_route(
            start,
            mid,
            iters2,
            level,
            start[u][k].to,
            sink,
            if flow <= start[u][k].cap { flow } else { start[u][k].cap },
            pushed,
        ),
    ensures
        follows_route(
            start,
            push_link(mid, u, k, pushed),
            iters2,
            level,
            u,
            sink,
            flow,
            pushed,
        ),
{
    reveal(search_outcome);
    let to = start[u][k].to;
    let limit = if flow <= start[u][k].cap {
        flow
    } else {
        start[u][k].cap
    };
    assert(iters2[u] == iters1[u]) by {
        assert(level[u] < level[to]);
    }
    let rest = if to == sink {
        Seq::<int>::empty()
    } else {
        choose|route: Seq<int>| #[trigger]
            is_route(start, iters2, level, to, sink, route) && pushed == fits_over(
                start,
                iters2,
                route,
                limit,
            ) && mid == pushed_over(start, iters2, route, pushed)
    };
    assert(is_route(start, iters2, level, to, sink, rest));
    assert(mid == pushed_over(start, iters2, rest, pushed));
    let route = seq![u] + rest;
    assert(route.drop_first() =~= rest);
    assert(is_route(start, iters2, level, u, sink, route));
    assert(fits_over(start, iters2, route, flow) == fits_over(start, iters2, rest, limit));
    assert(pushed_over(start, iters2, route, pushed) == push_link(mid, u, k, pushed));
}

/// What holds of the search positions while `node` is searched and nothing was pushed yet.
#[verifier::opaque]
spec fn search_progress(
    net: Seq<Seq<Link>>,
    iters_before: Seq<usize>,
    iters: Seq<usize>,
    level: Seq<i32>,
    node: int,
    sink: int,
    flow: int,
) -> bool {
    &&& iters.len() == net.len()
    &&& forall|v: int|
        0 <= v < net.len() && #[trigger] level[v] < level[node] ==> iters[v] == iters_before[v]
    &&& forall|v: int| 0 <= v < net.len() ==> #[trigger] iters[v] >= iters_before[v]
    &&& flow > 0 && dead_ends(net, level, iters_before, sink) ==> dead_ends(net, level, iters, sink)
}

proof fn lemma_outcome_at_sink(
    net: Seq<Seq<Link>>,
    iters: Seq<usize>,
    level: Seq<i32>,
    sink: int,
    flow: int,
)
    requires
        iters.len() == net.len(),
    ensures
        search_outcome(net, iters, net, iters, level, sink, sink, flow, flow),
{
    reveal(search_outcome);
}

proof fn lemma_progress_start(
    net: Seq<Seq<Link>>,
    iters: Seq<usize>,
    level: Seq<i32>,
    node: int,
    sink: int,
    flow: int,
)
    requires
        iters.len() == net.len(),
    ensures
        search_progress(net, iters, iters, level, node, sink, flow),
{
    reveal(search_progress);
}

proof fn lemma_outcome_nothing(
    net: Seq<Seq<Link>>,
    iters0: Seq<usize>,
    iters: Seq<usize>,
    level: Seq<i32>,
    node: int,
    sink: int,
    flow: int,
)
    requires
        node != sink,
        search_progress(net, iters0, iters, level, node, sink, flow),
        iters[node] >= net[node].len(),
    ensures
        search_outcome(net, iters0, net, iters, level, node, sink, flow, 0),
{
    reveal(search_progress);
    reveal(search_outcome);
}

/// Passing over a link that has no capacity or does not climb.
proof fn lemma_progress_skip(
    net: Seq<Seq<Link>>,
    iters0: Seq<usize>,
    iters1: Seq<usize>,
    level: Seq<i32>,
    u: int,
    k: int,
    sink: int,
    flow: int,
)
    requires
        paired(net),
        has_link(net, u, k),
        k < usize::MAX,
        iters1[u] == k,
        net[u][k].cap <= 0 || level[u] >= level[net[u][k].to],
        search_progress(net, iters0, iters1, level, u, sink, flow),
    ensures
        search_progress(net, iters0, iters1.update(u, (k + 1) as usize), level, u, sink, flow),
{
    reveal(search_progress);
    let iters = iters1.update(u, (k + 1) as usize);
    if flow > 0 && dead_ends(net, level, iters0, sink) {
        assert forall|v: int, i: int|
            #![trigger net[v][i]]
            has_link(net, v, i) && i < iters[v] && net[v][i].cap > 0 && level[v] < level[net[v][i].to] implies {
            &&& net[v][i].to != sink
            &&& iters[net[v][i].to] >= net[net[v][i].to].len()
        } by {
            assert(i < iters1[v]);
        }
    }
}

/// Passing over a link whose head was searched in vain.
proof fn lemma_progress_failed(
    net: Seq<Seq<Link>>,
    iters0: Seq<usize>,
    iters1: Seq<usize>,
    mid: Seq<Seq<Link>>,
    iters2: Seq<usize>,
    level: Seq<i32>,
    u: int,
    k: int,
    sink: int,
    flow: int,
    limit: int,
    pushed: int,
)
    requires
        paired(net),
        has_link(net, u, k),
        k < usize::MAX,
        iters1[u] == k,
        net[u][k].cap > 0,
        level[u] < level[net[u][k].to],
        limit == (if flow <= net[u][k].cap { flow } else { net[u][k].cap }),
        pushed <= 0,
        search_progress(net, iters0, iters1, level, u, sink, flow),
        search_outcome(net, iters1, mid, iters2, level, net[u][k].to, sink, limit, pushed),
    ensures
        mid == net,
        iters2[u] == k,
        search_progress(net, iters0, iters2.update(u, (k + 1) as usize), level, u, sink, flow),
{
    reveal(search_progress);
    reveal(search_outcome);
    let iters = iters2.update(u, (k + 1) as usize);
    assert(level[u] < level[net[u][k].to]);
    assert forall|v: int| 0 <= v < net.len() implies #[trigger] iters[v] >= iters0[v] by {
        assert(iters2[v] >= iters1[v]);
        assert(iters1[v] >= iters0[v]);
    }
    if flow > 0 && dead_ends(net, level, iters0, sink) {
        lemma_dead_ends_pass(net, level, iters2, u, k, sink);
    }
}

/// Passing over a link that leads nowhere.
proof fn lemma_dead_ends_pass(
    net: Seq<Seq<Link>>,
    level: Seq<i32>,
    iters: Seq<usize>,
    u: int,
    k: int,
    sink: int,
)
    requires
        paired(net),
        has_link(net, u, k),
        k < usize::MAX,
        iters.len() == net.len(),
        iters[u] == k,
        dead_ends(net, level, iters, sink),
        net[u][k].to != sink,
        net[u][k].to != u,
        iters[net[u][k].to] >= net[net[u][k].to].len(),
    ensures
        dead_ends(net, level, iters.update(u, (k + 1) as usize), sink),
{
    let next = iters.update(u, (k + 1) as usize);
    assert forall|v: int, i: int|
        #![trigger net[v][i]]
        has_link(net, v, i) && i < next[v] && net[v][i].cap > 0 && level[v] < level[net[v][i].to] implies {
        &&& net[v][i].to != sink
        &&& next[net[v][i].to] >= net[net[v][i].to].len()
    } by {
        if v != u || i != k {
            assert(i < iters[v]);
        }
    }
}

/// A path found from the head of link `(u, k)`, extended by that link.
proof fn lemma_outcome_extend(
    start: Seq<Seq<Link>>,
    iters0: Seq<usize>,
    iters1: Seq<usize>,
    mid: Seq<Seq<Link>>,
    iters2: Seq<usize>,
    level: Seq<i32>,
    u: int,
    k: int,
    sink: int,
    flow: int,
    pushed: int,
)
    requires
        network_wf(start),
        pairs_fit(start),
        network_wf(mid),
        has_link(start, u, k),
        0 <= sink < start.len(),
        u != sink,
        level.len() == start.len(),
        level[u] < level[start[u][k].to],
        start[u][k].cap > 0,
        pushed > 0,
        search_progress(start, iters0, iters1, level, u, sink, flow),
        search_outcome(
            start,
            iters1,
            mid,
            iters2,
            level,
            start[u][k].to,
            sink,
            if flow <= start[u][k].cap { flow } else { start[u][k].cap },
            pushed,
        ),
    ensures
        has_link(mid, u, k),
        pushed <= mid[u][k].cap,
        network_wf(push_link(mid, u, k, pushed)),
        pairs_fit(push_link(mid, u, k, pushed)),
        search_outcome(
            start,
            iters0,
            push_link(mid, u, k, pushed),
            iters2,
            level,
            u,
            sink,
            flow,
            pushed,
        ),
{
    reveal(search_progress);
    reveal(search_outcome);
    let end = push_link(mid, u, k, pushed);
    assert(mid[u] == start[u]);
    if flow <= 0 {
        assert(pushed <= 0);
    }
    lemma_dfs_push(start, mid, u, k, sink, pushed, flow, level);
    lemma_push_link(mid, u, k, pushed);
    assert forall|v: int| 0 <= v < start.len() && #[trigger] level[v] < level[u] implies iters2[v]
        == iters0[v] by {
        assert(iters1[v] == iters0[v]);
        assert(level[v] < level[start[u][k].to]);
    }
    assert forall|v: int| 0 <= v < start.len() implies #[trigger] iters2[v] >= iters0[v] by {
        assert(iters1[v] >= iters0[v]);
    }
    if dead_ends(start, level, iters0, sink) {
        lemma_dead_ends_push(mid, u, k, pushed, level, iters2, sink);
    }
}

/// A path found from the head of link `(u, k)`, extended by that link.
proof fn lemma_dfs_push(
    start: Seq<Seq<Link>>,
    mid: Seq<Seq<Link>>,
    u: int,
    k: int,
    sink: int,
    pushed: int,
    flow: int,
    level: Seq<i32>,
)
    requires
        network_wf(start),
        pairs_fit(start),
        network_wf(mid),
        same_shape(start, mid),
        pairs_balanced(start, mid),
        has_link(start, u, k),
        0 <= sink < start.len(),
        level.len() == start.len(),
        level[u] < level[start[u][k].to],
        mid[u] == start[u],
        forall|v: int| 0 <= v < start.len() && #[trigger] level[v] < level[start[u][k].to] ==> mid[v]
            == start[v],
        0 < pushed <= start[u][k].cap,
        pushed <= flow,
        forall|w: int|
            0 <= w < start.len() ==> #[trigger] out_cap(mid, w) == out_cap(start, w) - (if w
                == start[u][k].to { pushed } else { 0 }) + (if w == sink { pushed } else { 0 }),
        pushed == (if flow <= start[u][k].cap { flow } else { start[u][k].cap }) || saturates(
            start,
            mid,
            level,
        ),
    ensures
        network_wf(push_link(mid, u, k, pushed)),
        pairs_fit(push_link(mid, u, k, pushed)),
        same_shape(start, push_link(mid, u, k, pushed)),
        pairs_balanced(start, push_link(mid, u, k, pushed)),
        forall|w: int|
            0 <= w < start.len() ==> #[trigger] out_cap(push_link(mid, u, k, pushed), w) == out_cap(
                start,
                w,
            ) - (if w == u { pushed } else { 0 }) + (if w == sink { pushed } else { 0 }),
        pushed == flow || saturates(start, push_link(mid, u, k, pushed), level),
        forall|v: int| 0 <= v < start.len() && #[trigger] level[v] < level[u] ==> push_link(
            mid,
            u,
            k,
            pushed,
        )[v] == start[v],
{
    let end = push_link(mid, u, k, pushed);
    let l = start[u][k];
    assert(mid[u][k] == l);
    lemma_push_link(mid, u, k, pushed);
    crate::network::lemma_shape_trans(start, mid, end);
    assert forall|v: int, i: int| #![trigger start[v][i]] #![trigger end[v][i]] has_link(start, v, i) implies start[v][i].cap
        + partner(start, v, i).cap == end[v][i].cap + partner(end, v, i).cap by {
        assert(start[v].len() == mid[v].len());
        assert(mid[v][i].cap + partner(mid, v, i).cap == end[v][i].cap + partner(end, v, i).cap);
    }
    assert forall|v: int, i: int| #![trigger end[v][i]] has_link(end, v, i) implies end[v][i].cap
        + partner(end, v, i).cap <= i32::MAX by {
        assert(start[v].len() == end[v].len());
        assert(start[v][i].cap + partner(start, v, i).cap <= i32::MAX);
    }
    assert forall|w: int| 0 <= w < start.len() implies #[trigger] out_cap(end, w) == out_cap(start, w)
        - (if w == u { pushed } else { 0 }) + (if w == sink { pushed } else { 0 }) by {
        assert(out_cap(mid, w) == out_cap(start, w) - (if w == l.to { pushed } else { 0 }) + (if w
            == sink { pushed } else { 0 }));
    }
    if pushed != flow {
        if pushed == l.cap {
            assert(end[u][k].cap == 0);
            assert(start[u][k].cap > 0);
        } else {
            let (v, i) = choose|v: int, i: int|
                #![trigger start[v][i]]
                has_link(start, v, i) && start[v][i].cap > 0 && mid[v][i].cap == 0 && level[v]
                    < level[start[v][i].to];
            assert(start[v].len() == mid[v].len());
            assert(!(v == u && i == k));
            assert(!(v == l.to && i == l.rev)) by {
                assert(start[l.to][l.rev].to == u);
            }
            assert(end[v][i].cap == 0);
            assert(start[v][i].cap > 0);
        }
    }
    assert forall|v: int| 0 <= v < start.len() && #[trigger] level[v] < level[u] implies end[v]
        == start[v] by {
        assert(end[v] =~= mid[v]);
    }
}

/// Pushing over a link that climbs opens no new link that climbs.
proof fn lemma_dead_ends_push(
    net: Seq<Seq<Link>>,
    u: int,
    k: int,
    amount: int,
    level: Seq<i32>,
    iters: Seq<usize>,
    sink: int,
)
    requires
        network_wf(net),
        has_link(net, u, k),
        0 <= amount <= net[u][k].cap,
        level[u] < level[net[u][k].to],
        dead_ends(net, level, iters, sink),
    ensures
        dead_ends(push_link(net, u, k, amount), level, iters, sink),
{
    let end = push_link(net, u, k, amount);
    lemma_push_link(net, u, k, amount);
    let l = net[u][k];
    assert forall|v: int, i: int|
        #![trigger end[v][i]]
        has_link(end, v, i) && i < iters[v] && end[v][i].cap > 0 && level[v] < level[end[v][i].to] implies {
        &&& end[v][i].to != sink
        &&& iters[end[v][i].to] >= end[end[v][i].to].len()
    } by {
        assert(net[v].len() == end[v].len());
        assert(net[v][i].to == end[v][i].to);
        if v == l.to && i == l.rev {
            assert(net[l.to][l.rev].to == u);
        }
        assert(net[v][i].cap > 0);
        assert(has_link(net, net[v][i].to, net[v][i].rev));
        assert(net[end[v][i].to].len() == end[end[v][i].to].len());
    }
}

/// If every node of a level graph that leads to the sink was searched to its end, the
/// search would have found the sink.
proof fn lemma_search_cannot_fail(
    net: Seq<Seq<Link>>,
    level: Seq<i32>,
    iters: Seq<usize>,
    s: int,
    sink: int,
    v: int,
    k: nat,
)
    requires
        network_wf(net),
        0 <= s < net.len(),
        0 <= sink < net.len(),
        s != sink,
        level[sink] >= 0,
        levels_are_distances(net, level, s, level[sink] as int),
        dead_ends(net, level, iters, sink),
        iters[s] >= net[s].len(),
        0 <= v < net.len(),
        walk(net, s, v, k),
        level[v] == k,
        k <= level[sink],
    ensures
        v != sink,
        iters[v] >= net[v].len(),
    decreases k,
{
    reveal(levels_are_distances);
    if k > 0 {
        let (u, i) = choose|u: int, i: int|
            walk(net, s, u, (k - 1) as nat) && has_link(net, u, i) && #[trigger] net[u][i].cap > 0
                && net[u][i].to == v;
        assert(level[u] >= 0);
        assert(level[u] <= k - 1);
        assert(walk(net, s, u, level[u] as nat));
        let m = (level[u] + 1) as nat;
        assert((m - 1) as nat == level[u] as nat);
        assert(walk(net, s, v, m)) by {
            assert(net[u][i].cap > 0);
        }
        assert(level[u] == k - 1);
        lemma_search_cannot_fail(net, level, iters, s, sink, u, (k - 1) as nat);
        assert(net[u][i].cap > 0);
    }
}

/// Sets every level to -1.
fn fill_levels(level: &mut Vec<i32>)
    ensures
        final(level)@ == Seq::new(old(level)@.len(), |v: int| -1i32),
{
    let n = level.len();
    let mut v: usize = 0;
    while v < n
        invariant
            n == level@.len(),
            level@.len() == old(level)@.len(),
            v <= n,
            forall|w: int| 0 <= w < v ==> level@[w] == -1,
        decreases n - v,
    {
        level[v] = -1;
        v = v + 1;
    }
    assert(level@ =~= Seq::new(old(level)@.len(), |v: int| -1i32));
}

/// The state of the search: `order` lists the labelled nodes in the order in which they got their
/// label, and the first `h` of them have been expanded.
pub open spec fn bfs_state(
    net: Seq<Seq<Link>>,
    level: Seq<i32>,
    s: int,
    order: Seq<int>,
    h: int,
) -> bool {
    &&& level.len() == net.len()
    &&& 0 <= h <= order.len()
    &&& order.no_duplicates()
    &&& order.len() > 0
    &&& order[0] == s
    &&& level[s] == 0
    &&& forall|j: int| 0 <= j < order.len() ==> 0 <= #[trigger] order[j] < net.len()
    &&& forall|j: int| 0 <= j < order.len() ==> 0 <= level[#[trigger] order[j]] <= j
    &&& forall|v: int| 0 <= v < net.len() && #[trigger] level[v] >= 0 ==> order.contains(v)
    &&& forall|v: int| 0 <= v < net.len() ==> #[trigger] level[v] >= -1
    &&& forall|i: int, j: int|
        0 <= i <= j < order.len() ==> level[#[trigger] order[i]] <= level[#[trigger] order[j]]
    &&& h < order.len() ==> forall|j: int|
        0 <= j < order.len() ==> level[#[trigger] order[j]] <= level[order[h]] + 1
    &&& forall|v: int|
        0 <= v < net.len() && #[trigger] level[v] >= 0 ==> walk(net, s, v, level[v] as nat)
    &&& forall|j: int, i: int|
        #![trigger net[order[j]][i]]
        0 <= j < h && has_link(net, order[j], i) && net[order[j]][i].cap > 0 ==> {
            &&& level[net[order[j]][i].to] >= 0
            &&& level[net[order[j]][i].to] <= level[order[j]] + 1
        }
}

/// The next level can be counted.
proof fn lemma_level_has_room(
    net: Seq<Seq<Link>>,
    level: Seq<i32>,
    s: int,
    order: Seq<int>,
    h: int,
    k: int,
)
    requires
        network_wf(net),
        levels_fit(net),
        bfs_state(net, level, s, order, h),
        h < order.len(),
        has_link(net, order[h], k),
        net[order[h]][k].cap > 0,
        level[net[order[h]][k].to] < 0,
    ensures
        level[order[h]] < i32::MAX,
{
    assert(level[order[h]] <= h);
    lemma_distinct_below(order, net.len() as int);
    if total_cap(net) <= i32::MAX {
        let w = net[order[h]][k].to;
        assert(has_link(net, w, net[order[h]][k].rev));
        let found = order.drop_first().push(w);
        assert forall|j: int| 0 <= j < found.len() implies is_entered(net, #[trigger] found[j]) && 0
            <= found[j] < net.len() by {
            if j < order.len() - 1 {
                let v = order[j + 1];
                assert(found[j] == v);
                assert(v != order[0]);
                let m = level[v] as nat;
                assert(walk(net, s, v, m));
                let (u, i) = choose|u: int, i: int|
                    walk(net, s, u, (m - 1) as nat) && has_link(net, u, i) && #[trigger] net[u][i].cap
                        > 0 && net[u][i].to == v;
                assert(net[u][i].cap > 0);
            } else {
                assert(net[order[h]][k].cap > 0);
            }
        }
        assert(found.no_duplicates()) by {
            assert forall|i: int, j: int| 0 <= i < found.len() && 0 <= j < found.len() && i != j implies found[i]
                != found[j] by {
                if i < order.len() - 1 {
                    assert(level[order[i + 1]] >= 0);
                }
                if j < order.len() - 1 {
                    assert(level[order[j + 1]] >= 0);
                }
            }
        }
        lemma_total_bounds_nodes(net, found);
    }
}

/// Labelling the head of a link of the node under expansion keeps the state.
proof fn lemma_bfs_discover(
    net: Seq<Seq<Link>>,
    level: Seq<i32>,
    s: int,
    order: Seq<int>,
    h: int,
    k: int,
)
    requires
        paired(net),
        bfs_state(net, level, s, order, h),
        h < order.len(),
        has_link(net, order[h], k),
        net[order[h]][k].cap > 0,
        level[net[order[h]][k].to] < 0,
        level[order[h]] < i32::MAX,
    ensures
        bfs_state(
            net,
            level.update(net[order[h]][k].to, (level[order[h]] + 1) as i32),
            s,
            order.push(net[order[h]][k].to),
            h,
        ),
{
    let u = order[h];
    let w = net[u][k].to;
    let level2 = level.update(w, (level[u] + 1) as i32);
    let order2 = order.push(w);
    assert(has_link(net, w, net[u][k].rev));
    assert(!order.contains(w)) by {
        if order.contains(w) {
            let j = choose|j: int| 0 <= j < order.len() && order[j] == w;
            assert(level[order[j]] >= 0);
        }
    }
    assert(order2.no_duplicates());
    assert forall|v: int| 0 <= v < net.len() && #[trigger] level2[v] >= 0 implies order2.contains(v) by {
        if v == w {
            assert(order2[order.len() as int] == w);
        } else {
            assert(level[v] >= 0);
            let j = choose|j: int| 0 <= j < order.len() && order[j] == v;
            assert(order2[j] == v);
        }
    }
    assert(level[u] <= h);
    assert forall|j: int| 0 <= j < order2.len() implies 0 <= level2[#[trigger] order2[j]] <= j by {
        if j < order.len() {
            assert(order2[j] == order[j]);
            assert(order[j] != w);
        }
    }
    assert forall|i: int, j: int| 0 <= i <= j < order2.len() implies level2[#[trigger] order2[i]]
        <= level2[#[trigger] order2[j]] by {
        if i < order.len() {
            assert(order[i] != w);
            assert(level[order[i]] <= level[u] + 1);
        }
        if j < order.len() {
            assert(order[j] != w);
        }
    }
    assert(order2[h] == u);
    assert forall|j: int| 0 <= j < order2.len() implies level2[#[trigger] order2[j]] <= level2[order2[h]]
        + 1 by {
        if j < order.len() {
            assert(order[j] != w);
        }
    }
    assert forall|v: int| 0 <= v < net.len() && #[trigger] level2[v] >= 0 implies walk(
        net,
        s,
        v,
        level2[v] as nat,
    ) by {
        if v == w {
            assert(walk(net, s, u, level[u] as nat));
            assert(((level[u] + 1) as nat - 1) as nat == level[u] as nat);
            assert(net[u][k].cap > 0);
        } else {
            assert(level[v] >= 0);
        }
    }
    assert forall|j: int, i: int|
        #![trigger net[order2[j]][i]]
        0 <= j < h && has_link(net, order2[j], i) && net[order2[j]][i].cap > 0 implies {
        &&& level2[net[order2[j]][i].to] >= 0
        &&& level2[net[order2[j]][i].to] <= level2[order2[j]] + 1
    } by {
        assert(order2[j] == order[j]);
        assert(net[order[j]][i].cap > 0);
        assert(level[net[order[j]][i].to] >= 0);
    }
}

/// A node `k` links away has a label of at most `k`, as far as nodes were expanded.
proof fn lemma_bfs_labels(
    net: Seq<Seq<Link>>,
    level: Seq<i32>,
    s: int,
    order: Seq<int>,
    h: int,
    v: int,
    k: nat,
)
    requires
        paired(net),
        bfs_state(net, level, s, order, h),
        0 <= v < net.len(),
        walk(net, s, v, k),
        h < order.len() ==> k <= level[order[h]],
    ensures
        0 <= level[v] <= k,
    decreases k,
{
    if k > 0 {
        let (u, i) = choose|u: int, i: int|
            walk(net, s, u, (k - 1) as nat) && has_link(net, u, i) && #[trigger] net[u][i].cap > 0
                && net[u][i].to == v;
        lemma_bfs_labels(net, level, s, order, h, u, (k - 1) as nat);
        let j = choose|j: int| 0 <= j < order.len() && order[j] == u;
        assert(order.contains(u));
        assert(j < h) by {
            if j >= h {
                assert(level[order[h]] <= level[order[j]]);
            }
        }
        assert(net[order[j]][i].cap > 0);
    }
}

proof fn lemma_bfs_exhausted(net: Seq<Seq<Link>>, level: Seq<i32>, s: int, order: Seq<int>)
    requires
        paired(net),
        bfs_state(net, level, s, order, order.len() as int),
    ensures
        forall|limit: int| levels_are_distances(net, level, s, limit),
        forall|v: int, k: nat| 0 <= v < net.len() && #[trigger] walk(net, s, v, k) ==> level[v] >= 0,
{
    reveal(levels_are_distances);
    assert forall|v: int, k: nat| 0 <= v < net.len() && #[trigger] walk(net, s, v, k) implies 0
        <= level[v] <= k by {
        lemma_bfs_labels(net, level, s, order, order.len() as int, v, k);
    }
}

proof fn lemma_bfs_found(net: Seq<Seq<Link>>, level: Seq<i32>, s: int, order: Seq<int>, h: int)
    requires
        paired(net),
        bfs_state(net, level, s, order, h),
        h < order.len(),
        level[order.last()] == level[order[h]] + 1,
    ensures
        levels_are_distances(net, level, s, level[order.last()] as int),
{
    reveal(levels_are_distances);
    assert forall|v: int, k: nat|
        0 <= v < net.len() && #[trigger] walk(net, s, v, k) && level[v] >= 0 implies level[v] <= k by {
        let j = choose|j: int| 0 <= j < order.len() && order[j] == v;
        assert(order.contains(v));
        assert(level[order[j]] <= level[order[h]] + 1);
        if k < level[v] {
            lemma_bfs_labels(net, level, s, order, h, v, k);
        }
    }
    assert forall|v: int, k: nat|
        0 <= v < net.len() && #[trigger] walk(net, s, v, k) && k < level[order.last()] implies level[v]
        >= 0 by {
        lemma_bfs_labels(net, level, s, order, h, v, k);
    }
}

/// The network is that of the edges: each leads where it says, has the capacity that it says and
/// costs nothing.
pub proof fn lemma_network_of_edges(held: Dinic, v: int, i: int)
    requires
        0 <= v < held.graph@.len(),
        0 <= i < held.graph@[v]@.len(),
    ensures
        held.net().len() == held.graph@.len(),
        held.net()[v].len() == held.graph@[v]@.len(),
        held.net()[v][i].to == held.graph@[v]@[i].to,
        held.net()[v][i].rev == held.graph@[v]@[i].rev,
        held.net()[v][i].cap == held.graph@[v]@[i].cap,
        held.net()[v][i].cost == 0,
{
}

} // verus!
