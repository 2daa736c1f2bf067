//! What the search for combinational cycles knows while it follows the path
//! that starts at one component.

use vstd::prelude::*;
use crate::model::{Node, has_cycle, on_cycle, successor, walk};
use crate::paths::{lemma_pigeonhole, lemma_walk_split};

verus! {

/// The first `hops` components on the path from `root` are combinational,
/// differ from one another, and are exactly the members of `seen`.
pub open spec fn traced(nodes: Seq<Node>, root: usize, hops: nat, seen: Set<usize>) -> bool {
    &&& forall|j: nat|
        j < hops ==> (#[trigger] walk(nodes, root, j) matches Some(v) && v < nodes.len()
            && nodes[v as int].combinational() && seen.contains(v))
    &&& forall|v: usize|
        seen.contains(v) ==> exists|j: nat| j < hops && #[trigger] walk(nodes, root, j) == Some(v)
    &&& forall|i: nat, j: nat|
        i < j < hops ==> #[trigger] walk(nodes, root, i) != #[trigger] walk(nodes, root, j)
}

/// The path from `root` goes no further than `hops` hops: there it has left
/// the network or has met a delay.
pub open spec fn ended(nodes: Seq<Node>, root: usize, hops: nat) -> bool {
    walk(nodes, root, hops) matches Some(v) ==> v < nodes.len() && !nodes[v as int].combinational()
}

/// The path has been followed for no hop yet.
pub proof fn lemma_trace_begins(nodes: Seq<Node>, root: usize)
    ensures
        traced(nodes, root, 0, Set::empty()),
        walk(nodes, root, 0) == Some(root),
{
}

/// The next component on the path has not been met before: the trace grows.
pub proof fn lemma_trace_grows(
    nodes: Seq<Node>,
    root: usize,
    hops: nat,
    seen: Set<usize>,
    id: usize,
)
    requires
        traced(nodes, root, hops, seen),
        walk(nodes, root, hops) == Some(id),
        id < nodes.len(),
        nodes[id as int].combinational(),
        !seen.contains(id),
    ensures
        traced(nodes, root, hops + 1, seen.insert(id)),
        walk(nodes, root, hops + 1) == successor(nodes, id),
{
    lemma_walk_split(nodes, root, hops, 1);
    assert(walk(nodes, id, 1) == successor(nodes, id)) by {
        if let Some(t) = successor(nodes, id) {
            assert(walk(nodes, t, 0) == Some(t));
        }
    }
    let grown = seen.insert(id);
    assert forall|v: usize| grown.contains(v) implies exists|j: nat|
        j < hops + 1 && #[trigger] walk(nodes, root, j) == Some(v) by {
        if v == id {
            assert(walk(nodes, root, hops) == Some(v));
        } else {
            let j = choose|j: nat| j < hops && #[trigger] walk(nodes, root, j) == Some(v);
            assert(j < hops + 1 && walk(nodes, root, j) == Some(v));
        }
    }
    assert forall|i: nat, j: nat| i < j < hops + 1 implies #[trigger] walk(nodes, root, i)
        != #[trigger] walk(nodes, root, j) by {
        if j == hops {
            assert(seen.contains(walk(nodes, root, i)->0));
        }
    }
}

/// The next component on the path has been met before: it lies on a cycle.
pub proof fn lemma_trace_closes(
    nodes: Seq<Node>,
    root: usize,
    hops: nat,
    seen: Set<usize>,
    id: usize,
)
    requires
        traced(nodes, root, hops, seen),
        walk(nodes, root, hops) == Some(id),
        id < nodes.len(),
        seen.contains(id),
    ensures
        has_cycle(nodes),
{
    let j = choose|j: nat| j < hops && #[trigger] walk(nodes, root, j) == Some(id);
    lemma_walk_split(nodes, root, j, (hops - j) as nat);
    assert(walk(nodes, id, (hops - j) as nat) == Some(id));
    assert(on_cycle(nodes, id));
}

/// A trace is no longer than the network is large.
pub proof fn lemma_trace_bounded(nodes: Seq<Node>, root: usize, hops: nat, seen: Set<usize>)
    requires
        traced(nodes, root, hops, seen),
    ensures
        hops <= nodes.len(),
{
    if hops > nodes.len() {
        let s = Seq::new(hops, |j: int| walk(nodes, root, j as nat)->0 as int);
        assert forall|j: int| 0 <= j < s.len() implies 0 <= #[trigger] s[j] < nodes.len() by {
            assert(walk(nodes, root, j as nat) is Some);
        }
        let (i, j) = lemma_pigeonhole(s, nodes.len());
        assert(walk(nodes, root, i as nat) is Some);
        assert(walk(nodes, root, j as nat) is Some);
        assert(walk(nodes, root, i as nat) != walk(nodes, root, j as nat));
    }
}

/// Where the traced path has ended, none of its components lies on a cycle.
pub proof fn lemma_trace_clears(
    nodes: Seq<Node>,
    root: usize,
    hops: nat,
    seen: Set<usize>,
    j: nat,
    v: usize,
)
    requires
        traced(nodes, root, hops, seen),
        ended(nodes, root, hops),
        j <= hops,
        walk(nodes, root, j) == Some(v),
    ensures
        !on_cycle(nodes, v),
{
    if on_cycle(nodes, v) {
        let k = choose|k: nat| k > 0 && walk(nodes, v, k) == Some(v);
        lemma_walk_split(nodes, root, j, k);
        assert(walk(nodes, root, j + k) == Some(v));
        if j + k < hops {
            assert(walk(nodes, root, j) != walk(nodes, root, j + k));
        } else {
            lemma_walk_split(nodes, root, hops, (j + k - hops) as nat);
            let x = walk(nodes, root, hops)->0;
            assert(walk(nodes, root, hops) is Some);
            assert(successor(nodes, x) is None);
            if j + k > hops {
                assert(walk(nodes, x, (j + k - hops) as nat) is None);
            } else {
                assert(walk(nodes, x, 0) == Some(x));
                assert(x == v);
                assert(j < hops);
                assert(walk(nodes, root, j) is Some);
            }
        }
    }
}

} // verus!
