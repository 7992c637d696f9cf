//! Cuts: sets of nodes that hold the source and not the sink.
use vstd::prelude::*;

use crate::network::{
    antisymmetric, closed_set, flow_value, has_link, is_flow, lemma_antisymmetric_sum,
    lemma_flow_difference_antisymmetric, lemma_row_differences, network_wf, out_cap, row_lens, Link,
};
use crate::sums::{
    lemma_sum_single, lemma_table_add, lemma_table_eq, lemma_table_le, lemma_table_zero, table_sum,
};

verus! {

/// `s` is inside, `t` is not.
pub open spec fn separates(inside: spec_fn(int) -> bool, s: int, t: int) -> bool {
    inside(s) && !inside(t)
}

/// The capacities of the links that lead out of the set.
pub open spec fn leaving(net: Seq<Seq<Link>>, inside: spec_fn(int) -> bool) -> spec_fn(
    int,
    int,
) -> int {
    |v: int, i: int|
        if inside(v) && !inside(net[v][i].to) {
            net[v][i].cap
        } else {
            0
        }
}

/// The total capacity of the links that lead out of the set.
pub open spec fn cut_capacity(net: Seq<Seq<Link>>, inside: spec_fn(int) -> bool) -> int {
    table_sum(row_lens(net), leaving(net, inside))
}

/// `size` is the least capacity of a cut between `s` and `t`.
pub open spec fn is_least_cut(net: Seq<Seq<Link>>, s: int, t: int, size: int) -> bool {
    &&& exists|inside: spec_fn(int) -> bool|
        separates(inside, s, t) && #[trigger] cut_capacity(net, inside) == size
    &&& forall|inside: spec_fn(int) -> bool|
        separates(inside, s, t) ==> size <= #[trigger] cut_capacity(net, inside)
}

/// What a flow carries is what it takes from the capacity of any cut.
pub proof fn lemma_value_across_cut(
    a: Seq<Seq<Link>>,
    b: Seq<Seq<Link>>,
    s: int,
    t: int,
    inside: spec_fn(int) -> bool,
)
    requires
        network_wf(a),
        0 <= s < a.len(),
        0 <= t < a.len(),
        is_flow(a, b, s, t),
        separates(inside, s, t),
    ensures
        flow_value(a, b, s) == cut_capacity(a, inside) - cut_capacity(b, inside),
{
    let lens = row_lens(a);
    let n = a.len() as int;
    let diff = |v: int, i: int| a[v][i].cap - b[v][i].cap;
    lemma_flow_difference_antisymmetric(a, a, b, s, t);
    let within = |v: int, i: int|
        if inside(v) && inside(a[v][i].to) {
            a[v][i].cap - b[v][i].cap
        } else {
            0
        };
    assert forall|v: int, i: int| #![trigger within(v, i)] has_link(a, v, i) implies within(
        a[v][i].to,
        a[v][i].rev,
    ) == -within(v, i) by {
        let l = a[v][i];
        assert(a[l.to][l.rev].to == v);
        assert(diff(l.to, l.rev) == -diff(v, i));
    }
    assert(antisymmetric(a, within));
    lemma_antisymmetric_sum(a, within);
    let weight = |v: int| if inside(v) { 1int } else { 0int };
    lemma_row_differences(a, b, weight);
    let taken = |v: int, i: int| weight(v) * (a[v][i].cap - b[v][i].cap);
    assert(row_lens(b) =~= lens) by {
        assert forall|v: int| 0 <= v < a.len() implies #[trigger] row_lens(b)[v] == lens[v] by {
            assert(a[v].len() == b[v].len());
        }
    }
    let out_a = leaving(a, inside);
    let out_b = leaving(b, inside);
    let left = |v: int, i: int| taken(v, i) + out_b(v, i);
    let right = |v: int, i: int| within(v, i) + out_a(v, i);
    assert forall|v: int, i: int| 0 <= v < lens.len() && 0 <= i < lens[v] implies #[trigger] left(v, i)
        == right(v, i) by {
        assert(has_link(a, v, i));
        assert(a[v][i].to == b[v][i].to);
        if inside(v) {
            assert(weight(v) == 1);
        } else {
            assert(weight(v) == 0);
        }
    }
    lemma_table_eq(lens, left, right);
    lemma_table_add(lens, taken, out_b);
    lemma_table_add(lens, within, out_a);
    let rows = |v: int| weight(v) * (out_cap(a, v) - out_cap(b, v));
    assert forall|v: int| 0 <= v < n && v != s implies #[trigger] rows(v) == 0 by {
        if v != t {
            assert(out_cap(a, v) == out_cap(b, v));
        }
    }
    lemma_sum_single(n, rows, s);
}

/// No flow carries more than the capacity of a cut.
pub proof fn lemma_cut_bounds_flow(
    a: Seq<Seq<Link>>,
    b: Seq<Seq<Link>>,
    s: int,
    t: int,
    inside: spec_fn(int) -> bool,
)
    requires
        network_wf(a),
        0 <= s < a.len(),
        0 <= t < a.len(),
        is_flow(a, b, s, t),
        separates(inside, s, t),
    ensures
        flow_value(a, b, s) <= cut_capacity(a, inside),
{
    lemma_value_across_cut(a, b, s, t, inside);
    let lens = row_lens(b);
    let zero = |v: int, i: int| 0int;
    let out_b = leaving(b, inside);
    assert forall|v: int, i: int| 0 <= v < lens.len() && 0 <= i < lens[v] implies #[trigger] zero(v, i)
        <= out_b(v, i) by {
        assert(b[v][i].cap >= 0);
    }
    lemma_table_le(lens, zero, out_b);
    lemma_table_zero(lens, zero);
}

/// A flow that leaves no capacity out of a cut carries the capacity of that cut, and no cut has
/// less.
pub proof fn lemma_saturated_cut_is_least(
    a: Seq<Seq<Link>>,
    b: Seq<Seq<Link>>,
    s: int,
    t: int,
    inside: spec_fn(int) -> bool,
)
    requires
        network_wf(a),
        0 <= s < a.len(),
        0 <= t < a.len(),
        is_flow(a, b, s, t),
        separates(inside, s, t),
        closed_set(b, inside),
    ensures
        is_least_cut(a, s, t, flow_value(a, b, s)),
{
    lemma_value_across_cut(a, b, s, t, inside);
    let lens = row_lens(b);
    let out_b = leaving(b, inside);
    assert forall|v: int, i: int| 0 <= v < lens.len() && 0 <= i < lens[v] implies #[trigger] out_b(v, i)
        == 0 by {
        assert(has_link(b, v, i));
        assert(b[v][i].cap >= 0);
    }
    lemma_table_zero(lens, out_b);
    assert(cut_capacity(a, inside) == flow_value(a, b, s));
    assert forall|other: spec_fn(int) -> bool| separates(other, s, t) implies flow_value(a, b, s)
        <= #[trigger] cut_capacity(a, other) by {
        lemma_cut_bounds_flow(a, b, s, t, other);
    }
}

} // verus!
