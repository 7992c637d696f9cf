//! What the search for cheapest flows does, step by step: which label it takes next, what it
//! finds, and what it pushes.
use vstd::multiset::Multiset;
use vstd::prelude::*;

use crate::heap::leaves_before;
use crate::network::{push_link, Link};

verus! {

/// The distance of a node that has not been reached.
pub const FAR: i128 = 42_535_295_865_117_307_932_921_825_928_971_026_431;

/// A shortest path search under way: distances reduced by the potentials, the link over which
/// each node was last reached, and the labels that wait.
pub struct Search {
    pub dist: Seq<i128>,
    pub prev_node: Seq<usize>,
    pub prev_edge: Seq<usize>,
    pub waiting: Multiset<(i128, usize)>,
}

/// The search before anything but the source is reached; what earlier searches recorded of the
/// other nodes still stands.
pub open spec fn search_start(
    n: nat,
    s: int,
    prev_node: Seq<usize>,
    prev_edge: Seq<usize>,
) -> Search {
    Search {
        dist: Seq::new(n, |v: int| FAR).update(s, 0i128),
        prev_node,
        prev_edge,
        waiting: Multiset::<(i128, usize)>::empty().insert((0i128, s as usize)),
    }
}

/// The search after the first `k` links of `u` were looked at from distance `d`.
pub open spec fn looked_over(
    net: Seq<Seq<Link>>,
    pot: Seq<i128>,
    from: Search,
    u: int,
    d: int,
    k: int,
) -> Search
    decreases k,
{
    if k <= 0 {
        from
    } else {
        let now = looked_over(net, pot, from, u, d, k - 1);
        let link = net[u][k - 1];
        let next = d + link.cost + pot[u] - pot[link.to];
        if link.cap > 0 && next < now.dist[link.to] {
            Search {
                dist: now.dist.update(link.to, next as i128),
                prev_node: now.prev_node.update(link.to, u as usize),
                prev_edge: now.prev_edge.update(link.to, (k - 1) as usize),
                waiting: now.waiting.insert((next as i128, link.to as usize)),
            }
        } else {
            now
        }
    }
}

/// `label` waits, and none that waits leaves before it.
pub open spec fn is_first(waiting: Multiset<(i128, usize)>, label: (i128, usize)) -> bool {
    &&& waiting.count(label) > 0
    &&& forall|other: (i128, usize)| #[trigger]
        waiting.count(other) > 0 ==> !leaves_before(other, label)
}

/// The label that leaves first.
pub open spec fn first_label(waiting: Multiset<(i128, usize)>) -> (i128, usize) {
    choose|label: (i128, usize)| is_first(waiting, label)
}

/// The search after the label that leaves first was dealt with: a label that is out of date is
/// dropped, from another the links of its node are looked at in their order.
pub open spec fn search_step(net: Seq<Seq<Link>>, pot: Seq<i128>, now: Search) -> Search {
    if now.waiting.len() == 0 {
        now
    } else {
        let label = first_label(now.waiting);
        let rest = Search { waiting: now.waiting.remove(label), ..now };
        let u = label.1 as int;
        if label.0 != now.dist[u] {
            rest
        } else {
            looked_over(net, pot, rest, u, label.0 as int, net[u].len() as int)
        }
    }
}

/// The search after `n` labels.
pub open spec fn searched(net: Seq<Seq<Link>>, pot: Seq<i128>, from: Search, n: nat) -> Search
    decreases n,
{
    if n == 0 {
        from
    } else {
        search_step(net, pot, searched(net, pot, from, (n - 1) as nat))
    }
}

/// No label waits after the first `n`.
pub open spec fn search_is_over(net: Seq<Seq<Link>>, pot: Seq<i128>, from: Search, n: nat) -> bool {
    searched(net, pot, from, n).waiting.len() == 0
}

/// The search when no label waits any more.
pub open spec fn search_end(net: Seq<Seq<Link>>, pot: Seq<i128>, from: Search) -> Search {
    searched(net, pot, from, choose|n: nat| search_is_over(net, pot, from, n))
}

/// The potentials with the distances added that were found.
pub open spec fn raised(pot: Seq<i128>, dist: Seq<i128>) -> Seq<i128> {
    Seq::new(
        pot.len(),
        |v: int|
            if dist[v] < FAR {
                (pot[v] + dist[v]) as i128
            } else {
                pot[v]
            },
    )
}

/// The nodes from `v` back to `s`, without `s`: at most `most` of them.
pub open spec fn way_back(prev_node: Seq<usize>, s: int, v: int, most: nat) -> Seq<int>
    decreases most,
{
    if most == 0 || v == s {
        Seq::empty()
    } else {
        seq![v] + way_back(prev_node, s, prev_node[v] as int, (most - 1) as nat)
    }
}

/// What fits over the recorded links of `way`, at most `limit`.
pub open spec fn room(
    net: Seq<Seq<Link>>,
    prev_node: Seq<usize>,
    prev_edge: Seq<usize>,
    way: Seq<int>,
    limit: int,
) -> int
    decreases way.len(),
{
    if way.len() == 0 {
        limit
    } else {
        let rest = room(net, prev_node, prev_edge, way.drop_last(), limit);
        let cap = net[prev_node[way.last()] as int][prev_edge[way.last()] as int].cap;
        if cap < rest {
            cap
        } else {
            rest
        }
    }
}

/// The network after `amount` went over the recorded links of the first `i` nodes of `way`.
pub open spec fn sent_over(
    net: Seq<Seq<Link>>,
    prev_node: Seq<usize>,
    prev_edge: Seq<usize>,
    way: Seq<int>,
    amount: int,
    i: int,
) -> Seq<Seq<Link>>
    decreases i,
{
    if i <= 0 {
        net
    } else {
        push_link(
            sent_over(net, prev_node, prev_edge, way, amount, i - 1),
            prev_node[way[i - 1]] as int,
            prev_edge[way[i - 1]] as int,
            amount,
        )
    }
}

/// The search for cheapest flows under way: the network, the potentials, what the last shortest
/// path search recorded, and what has been pushed at what cost.
pub struct Course {
    pub net: Seq<Seq<Link>>,
    pub pot: Seq<i128>,
    pub prev_node: Seq<usize>,
    pub prev_edge: Seq<usize>,
    pub flow: int,
    pub cost: int,
}

/// The course before anything is pushed.
pub open spec fn course_start(net: Seq<Seq<Link>>) -> Course {
    Course {
        net,
        pot: Seq::new(net.len(), |v: int| 0i128),
        prev_node: Seq::new(net.len(), |v: int| 0usize),
        prev_edge: Seq::new(net.len(), |v: int| 0usize),
        flow: 0,
        cost: 0,
    }
}

/// What the next shortest path search from `s` finds.
pub open spec fn next_search(now: Course, s: int) -> Search {
    search_end(now.net, now.pot, search_start(now.net.len(), s, now.prev_node, now.prev_edge))
}

/// Enough has been pushed, or the sink is out of reach.
pub open spec fn is_complete(now: Course, s: int, t: int, target: int) -> bool {
    now.flow >= target || next_search(now, s).dist[t] == FAR
}

/// The course after one more path: as much goes over it as it has room for and the target asks.
pub open spec fn advanced(now: Course, s: int, t: int, target: int) -> Course {
    let found = next_search(now, s);
    let way = way_back(found.prev_node, s, t, now.net.len());
    let amount = room(now.net, found.prev_node, found.prev_edge, way, target - now.flow);
    let pot = raised(now.pot, found.dist);
    Course {
        net: sent_over(
            now.net,
            found.prev_node,
            found.prev_edge,
            way,
            amount,
            way.len() as int,
        ),
        pot,
        prev_node: found.prev_node,
        prev_edge: found.prev_edge,
        flow: now.flow + amount,
        cost: now.cost + amount * pot[t],
    }
}

/// The course after at most `n` paths.
pub open spec fn course_after(from: Course, s: int, t: int, target: int, n: nat) -> Course
    decreases n,
{
    if n == 0 {
        from
    } else {
        let now = course_after(from, s, t, target, (n - 1) as nat);
        if is_complete(now, s, t, target) {
            now
        } else {
            advanced(now, s, t, target)
        }
    }
}

/// Nothing more is pushed after the first `n` paths.
pub open spec fn course_is_over(from: Course, s: int, t: int, target: int, n: nat) -> bool {
    is_complete(course_after(from, s, t, target, n), s, t, target)
}

/// How the search for a cheapest flow of `target` units from `s` to `t` ends.
pub open spec fn course_end(net: Seq<Seq<Link>>, s: int, t: int, target: int) -> Course {
    course_after(
        course_start(net),
        s,
        t,
        target,
        choose|n: nat| course_is_over(course_start(net), s, t, target, n),
    )
}

/// Only one label leaves first.
pub proof fn lemma_first_label(waiting: Multiset<(i128, usize)>, label: (i128, usize))
    requires
        is_first(waiting, label),
    ensures
        first_label(waiting) == label,
        waiting.len() > 0,
{
    let other = first_label(waiting);
    assert(is_first(waiting, other));
    assert(!leaves_before(other, label) && !leaves_before(label, other));
    if waiting.len() == 0 {
        assert(waiting =~= Multiset::empty());
    }
}

/// A search that is over stays as it is.
proof fn lemma_search_stays(net: Seq<Seq<Link>>, pot: Seq<i128>, from: Search, n: nat, m: nat)
    requires
        search_is_over(net, pot, from, n),
        n <= m,
    ensures
        searched(net, pot, from, m) == searched(net, pot, from, n),
    decreases m,
{
    if n < m {
        lemma_search_stays(net, pot, from, n, (m - 1) as nat);
    }
}

/// A search that is over after some number of labels has come to its end.
pub proof fn lemma_search_end(net: Seq<Seq<Link>>, pot: Seq<i128>, from: Search, n: nat)
    requires
        search_is_over(net, pot, from, n),
    ensures
        search_end(net, pot, from) == searched(net, pot, from, n),
{
    let m = choose|m: nat| search_is_over(net, pot, from, m);
    if n <= m {
        lemma_search_stays(net, pot, from, n, m);
    } else {
        lemma_search_stays(net, pot, from, m, n);
    }
}

/// A complete course stays as it is.
proof fn lemma_course_stays(from: Course, s: int, t: int, target: int, n: nat, m: nat)
    requires
        course_is_over(from, s, t, target, n),
        n <= m,
    ensures
        course_after(from, s, t, target, m) == course_after(from, s, t, target, n),
    decreases m,
{
    if n < m {
        lemma_course_stays(from, s, t, target, n, (m - 1) as nat);
    }
}

/// A course that is complete after some number of paths has come to its end.
pub proof fn lemma_course_end(net: Seq<Seq<Link>>, s: int, t: int, target: int, n: nat)
    requires
        course_is_over(course_start(net), s, t, target, n),
    ensures
        course_end(net, s, t, target) == course_after(course_start(net), s, t, target, n),
{
    let from = course_start(net);
    let m = choose|m: nat| course_is_over(from, s, t, target, m);
    if n <= m {
        lemma_course_stays(from, s, t, target, n, m);
    } else {
        lemma_course_stays(from, s, t, target, m, n);
    }
}

/// A way that ends at the source is the whole way back.
pub proof fn lemma_way_back(prev_node: Seq<usize>, s: int, way: Seq<int>, i: int, most: nat)
    requires
        0 <= i < way.len(),
        way.len() - i <= most,
        forall|j: int| 0 <= j < way.len() ==> #[trigger] way[j] != s,
        forall|j: int| 0 <= j < way.len() - 1 ==> #[trigger] way[j + 1] == prev_node[way[j]],
        prev_node[way.last()] == s,
    ensures
        way_back(prev_node, s, way[i], most) == way.subrange(i, way.len() as int),
    decreases way.len() - i,
{
    let rest = way_back(prev_node, s, prev_node[way[i]] as int, (most - 1) as nat);
    if i + 1 < way.len() {
        assert(way[i + 1] == prev_node[way[i]]);
        lemma_way_back(prev_node, s, way, i + 1, (most - 1) as nat);
    } else {
        assert(rest =~= Seq::empty());
    }
    assert(seq![way[i]] + rest =~= way.subrange(i, way.len() as int));
}

} // verus!
