//! Ordering a graph's nodes so that every connection runs forward, and what
//! stops such an order from existing.
use vstd::prelude::*;

use crate::graph::{GraphView, NodeId};

verus! {

/// Position (0-based) of the source node of connection `k`.
pub open spec fn src_of(g: GraphView, k: int) -> int {
    g.connections[k].from_node as int - 1
}

/// Position (0-based) of the target node of connection `k`.
pub open spec fn dst_of(g: GraphView, k: int) -> int {
    g.connections[k].to_node as int - 1
}

/// Every member of `s` is a node that some connection feeds from another
/// member of `s`: following connections backwards from `s` never leaves `s`.
pub open spec fn pred_closed(g: GraphView, s: Set<int>) -> bool {
    forall|x: int|
        #![trigger s.contains(x)]
        s.contains(x) ==> 0 <= x < g.nodes.len() && exists|k: int|
            0 <= k < g.connections.len() && dst_of(g, k) == x && #[trigger] s.contains(
                src_of(g, k),
            )
}

/// Node `x` lies on a cycle or downstream of one: it belongs to a set of
/// nodes that is closed under following connections backwards.
pub open spec fn blocked(g: GraphView, x: int) -> bool {
    exists|s: Set<int>| pred_closed(g, s) && #[trigger] s.contains(x)
}

/// No node lies on or downstream of a cycle.
pub open spec fn acyclic(g: GraphView) -> bool {
    forall|x: int| 0 <= x < g.nodes.len() ==> !#[trigger] blocked(g, x)
}

/// `x` is the first node, in the graph's order of nodes, that is blocked.
pub open spec fn first_blocked(g: GraphView, x: int) -> bool {
    &&& 0 <= x < g.nodes.len()
    &&& blocked(g, x)
    &&& forall|y: int| 0 <= y < x ==> !#[trigger] blocked(g, y)
}

/// `order` lists every node id of the graph exactly once, and every
/// connection's source comes before its target.
pub open spec fn is_topo_order(g: GraphView, order: Seq<NodeId>) -> bool {
    &&& order.len() == g.nodes.len()
    &&& forall|i: int| 0 <= i < order.len() ==> 1 <= (#[trigger] order[i]).0 <= g.nodes.len()
    &&& forall|i: int, j: int|
        0 <= i < order.len() && 0 <= j < order.len() && i != j ==> #[trigger] order[i]
            != #[trigger] order[j]
    &&& forall|k: int, i: int, j: int|
        0 <= k < g.connections.len() && 0 <= i <= j < order.len() ==> !((#[trigger] order[i]).0
            == (#[trigger] g.connections[k]).to_node && (#[trigger] order[j]).0
            == g.connections[k].from_node)
}

/// Among the first `m` connections, how many end at `j` and start at a node
/// outside `done`.
pub open spec fn pending(g: GraphView, done: Set<int>, j: int, m: int) -> nat
    decreases m,
{
    if m <= 0 {
        0
    } else {
        pending(g, done, j, m - 1) + if dst_of(g, m - 1) == j && !done.contains(src_of(g, m - 1)) {
            1nat
        } else {
            0nat
        }
    }
}

/// Among the first `m` connections, how many run from `x` to `j`.
pub open spec fn edges_between(g: GraphView, x: int, j: int, m: int) -> nat
    decreases m,
{
    if m <= 0 {
        0
    } else {
        edges_between(g, x, j, m - 1) + if src_of(g, m - 1) == x && dst_of(g, m - 1) == j {
            1nat
        } else {
            0nat
        }
    }
}

/// The targets of the first `m` connections that start at `x`, in order.
pub open spec fn succs(g: GraphView, x: int, m: int) -> Seq<usize>
    decreases m,
{
    if m <= 0 {
        Seq::empty()
    } else if src_of(g, m - 1) == x {
        succs(g, x, m - 1).push(dst_of(g, m - 1) as usize)
    } else {
        succs(g, x, m - 1)
    }
}

/// How many times `j` occurs in `s`.
pub open spec fn count_of(s: Seq<usize>, j: int) -> nat
    decreases s.len(),
{
    if s.len() == 0 {
        0
    } else {
        count_of(s.drop_last(), j) + if s.last() as int == j {
            1nat
        } else {
            0nat
        }
    }
}

pub proof fn lemma_pending_bound(g: GraphView, done: Set<int>, j: int, m: int)
    requires
        0 <= m,
    ensures
        pending(g, done, j, m) <= m,
    decreases m,
{
    if m > 0 {
        lemma_pending_bound(g, done, j, m - 1);
    }
}

pub proof fn lemma_pending_insert(g: GraphView, done: Set<int>, x: int, j: int, m: int)
    requires
        !done.contains(x),
    ensures
        pending(g, done, j, m) == pending(g, done.insert(x), j, m) + edges_between(g, x, j, m),
    decreases m,
{
    if m > 0 {
        lemma_pending_insert(g, done, x, j, m - 1);
    }
}

pub proof fn lemma_count_succs(g: GraphView, x: int, j: int, m: int)
    requires
        0 <= j,
        forall|k: int| 0 <= k < m ==> 0 <= #[trigger] dst_of(g, k) <= usize::MAX,
    ensures
        count_of(succs(g, x, m), j) == edges_between(g, x, j, m),
    decreases m,
{
    if m > 0 {
        lemma_count_succs(g, x, j, m - 1);
        let s = succs(g, x, m - 1);
        if src_of(g, m - 1) == x {
            assert(succs(g, x, m).drop_last() =~= s);
            assert(dst_of(g, m - 1) >= 0);
        }
    }
}

pub proof fn lemma_count_front(s: Seq<usize>, j: int)
    requires
        s.len() > 0,
    ensures
        count_of(s, j) == count_of(s.drop_first(), j) + if s[0] as int == j {
            1nat
        } else {
            0nat
        },
    decreases s.len(),
{
    if s.len() > 1 {
        lemma_count_front(s.drop_last(), j);
        assert(s.drop_last().drop_first() =~= s.drop_first().drop_last());
    } else {
        assert(s.drop_first() =~= Seq::<usize>::empty());
        assert(s.drop_last() =~= Seq::<usize>::empty());
    }
}

pub proof fn lemma_push_contains<A>(s: Seq<A>, x: A)
    ensures
        forall|z: A| #[trigger] s.push(x).contains(z) <==> (s.contains(z) || z == x),
{
    assert forall|z: A| #[trigger] s.push(x).contains(z) <==> (s.contains(z) || z == x) by {
        if s.contains(z) {
            let i = choose|i: int| 0 <= i < s.len() && s[i] == z;
            assert(s.push(x)[i] == z);
        }
        if z == x {
            assert(s.push(x)[s.len() as int] == x);
        }
        if s.push(x).contains(z) {
            let i = choose|i: int| 0 <= i < s.len() + 1 && s.push(x)[i] == z;
            if i < s.len() {
                assert(s[i] == z);
            }
        }
    }
}

pub proof fn lemma_drop_last_contains<A>(s: Seq<A>)
    requires
        s.len() > 0,
    ensures
        forall|z: A| #[trigger] s.contains(z) <==> (s.drop_last().contains(z) || z == s.last()),
{
    assert(s =~= s.drop_last().push(s.last()));
    lemma_push_contains(s.drop_last(), s.last());
}

/// An element at position `t` is counted.
pub proof fn lemma_count_split(s: Seq<usize>, t: int, j: int)
    requires
        0 <= t < s.len(),
        s[t] as int == j,
    ensures
        count_of(s, j) > 0,
    decreases s.len(),
{
    if t < s.len() - 1 {
        lemma_count_split(s.drop_last(), t, j);
    }
}

pub proof fn lemma_count_positive(s: Seq<usize>, j: int)
    requires
        count_of(s, j) > 0,
    ensures
        exists|t: int| 0 <= t < s.len() && s[t] as int == j,
    decreases s.len(),
{
    if s.last() as int != j {
        lemma_count_positive(s.drop_last(), j);
        let t = choose|t: int| 0 <= t < s.drop_last().len() && s.drop_last()[t] as int == j;
        assert(s[t] == s.drop_last()[t]);
    }
}

pub proof fn lemma_pending_zero(g: GraphView, done: Set<int>, j: int, m: int)
    requires
        pending(g, done, j, m) == 0,
    ensures
        forall|k: int| 0 <= k < m && #[trigger] dst_of(g, k) == j ==> done.contains(src_of(g, k)),
    decreases m,
{
    if m > 0 {
        lemma_pending_zero(g, done, j, m - 1);
    }
}

pub proof fn lemma_pending_positive(g: GraphView, done: Set<int>, j: int, m: int)
    requires
        pending(g, done, j, m) > 0,
    ensures
        exists|k: int| 0 <= k < m && dst_of(g, k) == j && !done.contains(#[trigger] src_of(g, k)),
    decreases m,
{
    if !(dst_of(g, m - 1) == j && !done.contains(src_of(g, m - 1))) {
        lemma_pending_positive(g, done, j, m - 1);
    }
}

pub proof fn lemma_edges_positive(g: GraphView, x: int, j: int, m: int)
    requires
        edges_between(g, x, j, m) > 0,
    ensures
        exists|k: int| 0 <= k < m && src_of(g, k) == x && #[trigger] dst_of(g, k) == j,
    decreases m,
{
    if !(src_of(g, m - 1) == x && dst_of(g, m - 1) == j) {
        lemma_edges_positive(g, x, j, m - 1);
    }
}

/// A sequence of distinct positions below `n` that misses `x` is shorter than `n`.
pub proof fn lemma_distinct_short(s: Seq<int>, n: int, x: int)
    requires
        s.no_duplicates(),
        forall|i: int| 0 <= i < s.len() ==> 0 <= #[trigger] s[i] < n,
        0 <= x < n,
        !s.contains(x),
    ensures
        s.len() < n,
{
    s.unique_seq_to_set();
    vstd::set_lib::lemma_int_range(0, n);
    let r = vstd::set_lib::set_int_range(0, n).remove(x);
    assert(s.to_set().subset_of(r));
    vstd::set_lib::lemma_len_subset(s.to_set(), r);
}

/// `n` distinct positions below `n` hold each of them.
pub proof fn lemma_perm_covers(s: Seq<usize>, n: int)
    requires
        s.no_duplicates(),
        s.len() == n,
        forall|i: int| 0 <= i < s.len() ==> (#[trigger] s[i]) < n,
    ensures
        forall|x: int| 0 <= x < n ==> #[trigger] s.contains(x as usize),
{
    let t = s.map_values(|v: usize| v as int);
    assert forall|x: int| 0 <= x < n implies #[trigger] s.contains(x as usize) by {
        if !s.contains(x as usize) {
            assert forall|i: int| 0 <= i < t.len() implies 0 <= #[trigger] t[i] < n by {}
            if t.contains(x) {
                let i = choose|i: int| 0 <= i < t.len() && t[i] == x;
                assert(s[i] == x as usize);
            }
            lemma_distinct_short(t, n, x);
        }
    }
}

/// A sequence of distinct positions below `n` that holds each of them has length `n`.
pub proof fn lemma_distinct_full(s: Seq<int>, n: int)
    requires
        0 <= n,
        s.no_duplicates(),
        forall|i: int| 0 <= i < s.len() ==> 0 <= #[trigger] s[i] < n,
        forall|x: int| 0 <= x < n ==> s.contains(x),
    ensures
        s.len() == n,
{
    s.unique_seq_to_set();
    vstd::set_lib::lemma_int_range(0, n);
    assert(s.to_set() =~= vstd::set_lib::set_int_range(0, n));
}

/// Where node `x` (0-based) stands in `order`.
pub open spec fn order_pos_of(order: Seq<NodeId>, x: int) -> int {
    choose|i: int| 0 <= i < order.len() && order[i].0 == x + 1
}

proof fn lemma_order_covers(g: GraphView, order: Seq<NodeId>)
    requires
        is_topo_order(g, order),
    ensures
        forall|x: int|
            0 <= x < g.nodes.len() ==> 0 <= #[trigger] order_pos_of(order, x) < order.len() && order[order_pos_of(
                order,
                x,
            )].0 == x + 1,
{
    let n = g.nodes.len() as int;
    let t = order.map_values(|id: NodeId| id.0 - 1);
    assert(t.no_duplicates()) by {
        assert forall|i: int, j: int| 0 <= i < t.len() && 0 <= j < t.len() && i != j implies t[i] != t[j] by {
            assert(order[i] != order[j]);
        }
    }
    assert forall|x: int| 0 <= x < n implies 0 <= #[trigger] order_pos_of(order, x) < order.len()
        && order[order_pos_of(order, x)].0 == x + 1 by {
        assert forall|i: int| 0 <= i < t.len() implies 0 <= #[trigger] t[i] < n by {
            assert(1 <= order[i].0 <= n);
        }
        if !t.contains(x) {
            lemma_distinct_short(t, n, x);
        }
        let i = choose|i: int| 0 <= i < t.len() && t[i] == x;
        assert(order[i].0 == x + 1);
    }
}

proof fn lemma_nothing_before(g: GraphView, order: Seq<NodeId>, s: Set<int>, p: int)
    requires
        is_topo_order(g, order),
        pred_closed(g, s),
        0 <= p <= g.nodes.len(),
    ensures
        forall|x: int| #[trigger] s.contains(x) ==> order_pos_of(order, x) >= p,
    decreases p,
{
    if p > 0 {
        lemma_nothing_before(g, order, s, p - 1);
        lemma_order_covers(g, order);
        assert forall|x: int| #[trigger] s.contains(x) implies order_pos_of(order, x) >= p by {
            let k = choose|k: int|
                0 <= k < g.connections.len() && dst_of(g, k) == x && #[trigger] s.contains(src_of(g, k));
            let y = src_of(g, k);
            let px = order_pos_of(order, x);
            let py = order_pos_of(order, y);
            assert(order[px].0 == g.connections[k].to_node);
            assert(order[py].0 == g.connections[k].from_node);
            assert(py < px);
        }
    } else {
        lemma_order_covers(g, order);
        assert forall|x: int| #[trigger] s.contains(x) implies order_pos_of(order, x) >= p by {
            assert(0 <= x < g.nodes.len());
        }
    }
}

/// A graph with a processing order, one in which every connection runs
/// forward, has no node on or downstream of a cycle.
pub proof fn lemma_topo_order_acyclic(g: GraphView, order: Seq<NodeId>)
    requires
        is_topo_order(g, order),
    ensures
        acyclic(g),
{
    assert forall|x: int| 0 <= x < g.nodes.len() implies !#[trigger] blocked(g, x) by {
        if blocked(g, x) {
            let s = choose|s: Set<int>| pred_closed(g, s) && #[trigger] s.contains(x);
            lemma_nothing_before(g, order, s, g.nodes.len() as int);
            lemma_order_covers(g, order);
            assert(order_pos_of(order, x) >= g.nodes.len());
        }
    }
}

} // verus!
