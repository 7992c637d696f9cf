//! What the search for a maximum flow does, step by step: which levels it gives, which links it
//! passes over, and what it pushes.
use vstd::prelude::*;

use crate::network::{push_link, Link};

verus! {

/// Levels under way: those given so far, the nodes whose links are still to be followed, and
/// whether the sink has been met.
pub struct Survey {
    pub level: Seq<i32>,
    pub queue: Seq<usize>,
    pub found: bool,
}

/// The survey before anything but the source has a level.
pub open spec fn survey_start(n: nat, s: int) -> Survey {
    Survey {
        level: Seq::new(n, |v: int| -1i32).update(s, 0i32),
        queue: seq![s as usize],
        found: false,
    }
}

/// The survey after the first `k` links of `u` were followed; it ends where it meets `t`.
pub open spec fn followed(net: Seq<Seq<Link>>, t: int, from: Survey, u: int, k: int) -> Survey
    decreases k,
{
    if k <= 0 {
        from
    } else {
        let now = followed(net, t, from, u, k - 1);
        let link = net[u][k - 1];
        if now.found || link.cap <= 0 || now.level[link.to] >= 0 {
            now
        } else if link.to == t {
            Survey {
                level: now.level.update(link.to, (now.level[u] + 1) as i32),
                found: true,
                ..now
            }
        } else {
            Survey {
                level: now.level.update(link.to, (now.level[u] + 1) as i32),
                queue: now.queue.push(link.to as usize),
                ..now
            }
        }
    }
}

/// The survey after the first node of the queue.
pub open spec fn survey_step(net: Seq<Seq<Link>>, t: int, now: Survey) -> Survey {
    if now.found || now.queue.len() == 0 {
        now
    } else {
        let u = now.queue[0] as int;
        followed(
            net,
            t,
            Survey { queue: now.queue.drop_first(), ..now },
            u,
            net[u].len() as int,
        )
    }
}

/// The survey after `n` nodes.
pub open spec fn surveyed(net: Seq<Seq<Link>>, s: int, t: int, n: nat) -> Survey
    decreases n,
{
    if n == 0 {
        survey_start(net.len(), s)
    } else {
        survey_step(net, t, surveyed(net, s, t, (n - 1) as nat))
    }
}

/// After `n` nodes the sink has been met, or no node is left.
pub open spec fn survey_is_over(net: Seq<Seq<Link>>, s: int, t: int, n: nat) -> bool {
    surveyed(net, s, t, n).found || surveyed(net, s, t, n).queue.len() == 0
}

/// The levels that nodes get, from `s` until `t` is met.
pub open spec fn levels_from(net: Seq<Seq<Link>>, s: int, t: int) -> Seq<i32> {
    surveyed(net, s, t, choose|n: nat| survey_is_over(net, s, t, n)).level
}

/// What a search leaves: the network, the link that it is at in each node, and what it pushed.
pub struct Pushed {
    pub net: Seq<Seq<Link>>,
    pub iters: Seq<usize>,
    pub amount: int,
}

/// The node is one of the network, and the links of every node can be counted.
pub open spec fn can_search(net: Seq<Seq<Link>>, iters: Seq<usize>, node: int) -> bool {
    &&& 0 <= node < iters.len()
    &&& forall|v: int| 0 <= v < iters.len() ==> #[trigger] net[v].len() <= usize::MAX
}

/// The search from `node` for a way to `sink` that climbs levels: links are tried in their order,
/// from the one that the node is at, until something arrives over one of them.
pub open spec fn search_from(
    net: Seq<Seq<Link>>,
    iters: Seq<usize>,
    level: Seq<i32>,
    node: int,
    sink: int,
    flow: int,
) -> Pushed
    decreases i32::MAX - level[node], net[node].len() - iters[node],
        when can_search(net, iters, node)
{
    if node == sink {
        Pushed { net, iters, amount: flow }
    } else if iters[node] >= net[node].len() {
        Pushed { net, iters, amount: 0 }
    } else {
        let i = iters[node] as int;
        let link = net[node][i];
        let passed = (i + 1) as usize;
        if link.cap > 0 && level[node] < level[link.to] {
            let there = search_from(
                net,
                iters,
                level,
                link.to,
                sink,
                if flow <= link.cap {
                    flow
                } else {
                    link.cap
                },
            );
            if there.amount > 0 {
                Pushed { net: push_link(there.net, node, i, there.amount), ..there }
            } else if there.iters.len() <= node {
                // never: a search keeps the number of nodes
                there
            } else {
                search_from(net, there.iters.update(node, passed), level, node, sink, flow)
            }
        } else {
            search_from(net, iters.update(node, passed), level, node, sink, flow)
        }
    }
}

/// The search for a maximum flow under way: the network, the levels, the link that the search is
/// at in each node, and what has been pushed.
pub struct Progress {
    pub net: Seq<Seq<Link>>,
    pub level: Seq<i32>,
    pub iters: Seq<usize>,
    pub flow: int,
}

/// One more search from `s`.
pub open spec fn after_search(now: Progress, s: int, t: int) -> Progress {
    let there = search_from(now.net, now.iters, now.level, s, t, i32::MAX as int);
    Progress { net: there.net, iters: there.iters, flow: now.flow + there.amount, ..now }
}

/// `n` searches from `s`.
pub open spec fn after_searches(now: Progress, s: int, t: int, n: nat) -> Progress
    decreases n,
{
    if n == 0 {
        now
    } else {
        after_search(after_searches(now, s, t, (n - 1) as nat), s, t)
    }
}

/// The `n`-th search, counted from 0, pushes something.
pub open spec fn search_pushes(now: Progress, s: int, t: int, n: nat) -> bool {
    after_searches(now, s, t, n + 1).flow != after_searches(now, s, t, n).flow
}

/// The `n`-th search is the first that pushes nothing.
pub open spec fn is_blocked_after(now: Progress, s: int, t: int, n: nat) -> bool {
    &&& !search_pushes(now, s, t, n)
    &&& forall|m: nat| m < n ==> #[trigger] search_pushes(now, s, t, m)
}

/// Searches up to the first that pushes nothing.
pub open spec fn blocked(now: Progress, s: int, t: int) -> Progress {
    after_searches(now, s, t, (choose|n: nat| is_blocked_after(now, s, t, n)) + 1)
}

/// Levels anew.
pub open spec fn relevelled(now: Progress, s: int, t: int) -> Progress {
    Progress { level: levels_from(now.net, s, t), ..now }
}

/// Levels anew, then searches from the first link of every node, until one pushes nothing; just
/// the levels where `t` gets none.
pub open spec fn after_round(now: Progress, s: int, t: int) -> Progress {
    let labelled = relevelled(now, s, t);
    if labelled.level[t] < 0 {
        labelled
    } else {
        blocked(
            Progress { iters: Seq::new(now.iters.len(), |v: int| 0usize), ..labelled },
            s,
            t,
        )
    }
}

/// `n` rounds.
pub open spec fn after_rounds(from: Progress, s: int, t: int, n: nat) -> Progress
    decreases n,
{
    if n == 0 {
        from
    } else {
        after_round(after_rounds(from, s, t, (n - 1) as nat), s, t)
    }
}

/// After `n` rounds `t` gets no level any more.
pub open spec fn rounds_are_over(from: Progress, s: int, t: int, n: nat) -> bool {
    relevelled(after_rounds(from, s, t, n), s, t).level[t] < 0
}

/// How the search for a maximum flow from `s` to `t` ends.
pub open spec fn progress_end(from: Progress, s: int, t: int) -> Progress {
    relevelled(
        after_rounds(from, s, t, choose|n: nat| rounds_are_over(from, s, t, n)),
        s,
        t,
    )
}

/// A survey that has met the sink follows no more links.
pub proof fn lemma_followed_stays(
    net: Seq<Seq<Link>>,
    t: int,
    from: Survey,
    u: int,
    k: int,
    m: int,
)
    requires
        followed(net, t, from, u, k).found,
        k <= m,
    ensures
        followed(net, t, from, u, m) == followed(net, t, from, u, k),
    decreases m - k,
{
    if k < m {
        lemma_followed_stays(net, t, from, u, k, m - 1);
    }
}

proof fn lemma_survey_stays(net: Seq<Seq<Link>>, s: int, t: int, n: nat, m: nat)
    requires
        survey_is_over(net, s, t, n),
        n <= m,
    ensures
        surveyed(net, s, t, m) == surveyed(net, s, t, n),
    decreases m,
{
    if n < m {
        lemma_survey_stays(net, s, t, n, (m - 1) as nat);
    }
}

/// A survey that is over after some number of nodes gives the levels.
pub proof fn lemma_survey_end(net: Seq<Seq<Link>>, s: int, t: int, n: nat)
    requires
        survey_is_over(net, s, t, n),
    ensures
        levels_from(net, s, t) == surveyed(net, s, t, n).level,
{
    let m = choose|m: nat| survey_is_over(net, s, t, m);
    if n <= m {
        lemma_survey_stays(net, s, t, n, m);
    } else {
        lemma_survey_stays(net, s, t, m, n);
    }
}

/// There is only one first search that pushes nothing.
pub proof fn lemma_blocked(now: Progress, s: int, t: int, n: nat)
    requires
        is_blocked_after(now, s, t, n),
    ensures
        blocked(now, s, t) == after_searches(now, s, t, n + 1),
{
    let m = choose|m: nat| is_blocked_after(now, s, t, m);
    assert(is_blocked_after(now, s, t, m));
    if m < n {
        assert(search_pushes(now, s, t, m));
    } else if n < m {
        assert(search_pushes(now, s, t, n));
    }
}

proof fn lemma_rounds_stay(from: Progress, s: int, t: int, n: nat, m: nat)
    requires
        rounds_are_over(from, s, t, n),
        n <= m,
    ensures
        relevelled(after_rounds(from, s, t, m), s, t) == relevelled(
            after_rounds(from, s, t, n),
            s,
            t,
        ),
    decreases m,
{
    if n < m {
        lemma_rounds_stay(from, s, t, n, (m - 1) as nat);
    }
}

/// Rounds that are over have come to their end.
pub proof fn lemma_progress_end(from: Progress, s: int, t: int, n: nat)
    requires
        rounds_are_over(from, s, t, n),
    ensures
        progress_end(from, s, t) == relevelled(after_rounds(from, s, t, n), s, t),
{
    let m = choose|m: nat| rounds_are_over(from, s, t, m);
    if n <= m {
        lemma_rounds_stay(from, s, t, n, m);
    } else {
        lemma_rounds_stay(from, s, t, m, n);
    }
}

} // verus!
