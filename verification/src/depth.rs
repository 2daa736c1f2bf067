//! How many ticks a network without feedback needs to come to rest.

use vstd::prelude::*;
use crate::effects::{
    differs_at_one, differs_at_two, lemma_run_shape, lemma_same_wiring, lemma_step_keeps_wiring,
    lemma_step_on_one, lemma_step_on_two,
};
use crate::model::{
    Kind, Network, Node, Tick, Wire, below, has_cycle, on_cycle, same_wiring, sound, successor,
    walk, wired,
};
use crate::paths::{height, lemma_height_bounds, lemma_height_descends};

verus! {

/// The network with every `Delay` taken for a gate.  A path in it is a path
/// along output connections through components of any kind.
pub open spec fn through_delays(nodes: Seq<Node>) -> Seq<Node> {
    Seq::new(
        nodes.len(),
        |i: int|
            Node {
                kind: if nodes[i].kind is Delay {
                    Kind::Not
                } else {
                    nodes[i].kind
                },
                ..nodes[i]
            },
    )
}

/// Some component reaches itself along output connections, be it through
/// delays.
pub open spec fn has_feedback(nodes: Seq<Node>) -> bool {
    has_cycle(through_delays(nodes))
}

/// The number of components on the path that starts at `c`, whatever their
/// kind, `c` included.
pub open spec fn depth(nodes: Seq<Node>, c: usize) -> nat {
    height(through_delays(nodes), c)
}

/// How far a pending component is from rest: twice its depth, less one for a
/// `Delay` whose input equals what it holds.
pub open spec fn urgency(nodes: Seq<Node>, i: usize) -> nat {
    let node = nodes[i as int];
    if node.kind is Delay && node.in0 == node.held {
        (2 * depth(nodes, i) - 1) as nat
    } else {
        2 * depth(nodes, i)
    }
}

/// No pending component has an urgency above `bound`.
pub open spec fn within(net: Network, bound: nat) -> bool {
    forall|i: usize| net.dirty.contains(i) ==> urgency(net.nodes, i) <= bound
}

/// A network and the same network with its delays taken for gates are
/// connected alike but for the kinds.
pub proof fn lemma_through_delays(nodes: Seq<Node>)
    ensures
        through_delays(nodes).len() == nodes.len(),
        wired(nodes) == wired(through_delays(nodes)),
        has_cycle(nodes) ==> has_feedback(nodes),
        forall|c: usize|
            c < nodes.len() ==> successor(through_delays(nodes), c) == match nodes[c as int].wire {
                Some(w) => Some(w.target),
                None => None,
            },
{
    let g = through_delays(nodes);
    if wired(nodes) {
        assert forall|i: int| 0 <= i < g.len() implies #[trigger] sound(g, i) by {
            assert(sound(nodes, i));
        }
    }
    if wired(g) {
        assert forall|i: int| 0 <= i < nodes.len() implies #[trigger] sound(nodes, i) by {
            assert(sound(g, i));
        }
    }
    if has_cycle(nodes) {
        let c = choose|c: usize| c < nodes.len() && on_cycle(nodes, c);
        let steps = choose|steps: nat| steps > 0 && walk(nodes, c, steps) == Some(c);
        lemma_walk_through(nodes, c, steps);
        assert(on_cycle(g, c));
    }
}

/// A combinational path is a path of the network with its delays taken for
/// gates.
proof fn lemma_walk_through(nodes: Seq<Node>, c: usize, steps: nat)
    requires
        walk(nodes, c, steps) is Some,
    ensures
        walk(through_delays(nodes), c, steps) == walk(nodes, c, steps),
    decreases steps,
{
    if steps > 0 {
        let t = successor(nodes, c)->0;
        assert(successor(through_delays(nodes), c) == Some(t));
        lemma_walk_through(nodes, t, (steps - 1) as nat);
    }
}

/// Networks that are connected alike give every component the same depth.
pub proof fn lemma_same_depth(a: Seq<Node>, b: Seq<Node>)
    requires
        same_wiring(a, b),
    ensures
        forall|c: usize| depth(a, c) == depth(b, c),
        has_feedback(a) == has_feedback(b),
{
    let ga = through_delays(a);
    let gb = through_delays(b);
    assert(same_wiring(ga, gb)) by {
        assert forall|i: int| 0 <= i < ga.len() implies (#[trigger] ga[i]).kind == gb[i].kind
            && ga[i].wire == gb[i].wire by {
            assert(a[i].kind == b[i].kind);
        }
    }
    lemma_same_wiring(ga, gb);
}

/// Without feedback, the depth of a component is at least 1 and at most the
/// number of components, and what a component drives is less deep than the
/// component itself.
pub proof fn lemma_depth(nodes: Seq<Node>, c: usize)
    requires
        wired(nodes),
        !has_feedback(nodes),
        c < nodes.len(),
    ensures
        1 <= depth(nodes, c) <= nodes.len(),
        nodes[c as int].wire matches Some(w) ==> w.target != c && depth(nodes, w.target) < depth(
            nodes,
            c,
        ),
{
    let g = through_delays(nodes);
    lemma_through_delays(nodes);
    lemma_height_bounds(g, c);
    if let Some(w) = nodes[c as int].wire {
        assert(successor(g, c) == Some(w.target));
        lemma_height_descends(g, c);
    }
}

/// Where a tick stands on its way to rest, `bound` being the highest urgency
/// at its start: nothing more urgent is pending, and a delay that has captured
/// a changed bit was no more urgent and has its input equal to what it holds,
/// unless it lies below the bound by its depth alone.
pub open spec fn calming(t: Tick, bound: nat) -> bool {
    &&& forall|i: usize|
        i < t.nodes.len() && t.dirty.contains(i) ==> urgency(t.nodes, i) <= bound
    &&& forall|i: usize|
        i < t.nodes.len() && t.latched.contains(i) ==> 2 * depth(t.nodes, i) <= bound && (2
            * depth(t.nodes, i) < bound || t.nodes[i as int].in0 == t.nodes[i as int].held)
}

/// What a recomputation leaves of the urgency of the component `i`, where
/// the recomputed component `id` drives another one.
proof fn lemma_calming_at(t: Tick, u: Tick, id: usize, i: usize, bound: nat, far: Option<Wire>)
    requires
        id < t.nodes.len(),
        i < t.nodes.len(),
        t.dirty.contains(id),
        calming(t, bound),
        u.nodes.len() == t.nodes.len(),
        forall|c: usize| depth(u.nodes, c) == depth(t.nodes, c),
        1 <= depth(t.nodes, id),
        1 <= depth(t.nodes, i),
        t.nodes[id as int].wire == far,
        match far {
            Some(w) => w.target != id && w.target < t.nodes.len() && w.slot
                < t.nodes[w.target as int].arity() && depth(t.nodes, w.target) < depth(
                t.nodes,
                id,
            ) && differs_at_two(t, u, id, w.target, w.slot),
            None => differs_at_one(t, u, id),
        },
    ensures
        u.dirty.contains(i) ==> urgency(u.nodes, i) <= bound,
        u.latched.contains(i) ==> 2 * depth(u.nodes, i) <= bound && (2 * depth(u.nodes, i) < bound
            || u.nodes[i as int].in0 == u.nodes[i as int].held),
{
    assert(depth(u.nodes, i) == depth(t.nodes, i));
    assert(urgency(t.nodes, id) <= bound);
    if i != id && !(far matches Some(w) && w.target == i) {
        assert(u.nodes[i as int] == t.nodes[i as int]);
        assert(u.dirty.contains(i) == t.dirty.contains(i));
        assert(u.latched.contains(i) == t.latched.contains(i));
    }
}

/// A recomputation keeps a tick on its way to rest.
proof fn lemma_calming_step(t: Tick, id: usize, bound: nat)
    requires
        wired(t.nodes),
        !has_feedback(t.nodes),
        id < t.nodes.len(),
        t.dirty.contains(id),
        calming(t, bound),
    ensures
        calming(t.step(id), bound),
{
    let u = t.step(id);
    lemma_step_keeps_wiring(t, id);
    lemma_same_depth(t.nodes, u.nodes);
    lemma_depth(t.nodes, id);
    assert(sound(t.nodes, id as int));
    let far = t.nodes[id as int].wire;
    match far {
        Some(w) => {
            lemma_step_on_two(t, id, w.target, w.slot);
        },
        None => {
            lemma_step_on_one(t, id);
        },
    }
    assert forall|i: usize| i < u.nodes.len() && u.dirty.contains(i) implies urgency(u.nodes, i)
        <= bound by {
        lemma_depth(t.nodes, i);
        lemma_calming_at(t, u, id, i, bound, far);
    }
    assert forall|i: usize| i < u.nodes.len() && u.latched.contains(i) implies 2 * depth(
        u.nodes,
        i,
    ) <= bound && (2 * depth(u.nodes, i) < bound || u.nodes[i as int].in0
        == u.nodes[i as int].held) by {
        lemma_depth(t.nodes, i);
        lemma_calming_at(t, u, id, i, bound, far);
    }
}

/// A tick that starts on its way to rest stays on it.
pub proof fn lemma_calming_run(start: Tick, order: Seq<usize>, bound: nat)
    requires
        wired(start.nodes),
        !has_feedback(start.nodes),
        below(start.dirty, start.nodes.len()),
        start.admits(order),
        calming(start, bound),
    ensures
        calming(start.run(order), bound),
    decreases order.len(),
{
    if order.len() > 0 {
        let before = start.run(order.drop_last());
        lemma_calming_run(start, order.drop_last(), bound);
        lemma_run_shape(start, order.drop_last());
        lemma_same_depth(start.nodes, before.nodes);
        lemma_calming_step(before, order.last(), bound);
    }
}

} // verus!
