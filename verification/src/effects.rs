//! What one recomputation changes, and what it leaves alone.

use vstd::prelude::*;
use crate::model::{
    Node, Tick, Wire, below, has_cycle, on_cycle, same_wiring, sound, successor, walk, wired,
};
use crate::paths::{height, reach};

verus! {

/// Recomputing a component changes inputs and held bits, never a kind or a
/// connection.
pub proof fn lemma_step_keeps_wiring(t: Tick, id: usize)
    requires
        wired(t.nodes),
        id < t.nodes.len(),
    ensures
        same_wiring(t.nodes, t.step(id).nodes),
{
    let node = t.nodes[id as int];
    assert(sound(t.nodes, id as int));
}

/// Networks that are connected alike have their wiring properties in common.
pub proof fn lemma_same_wiring(a: Seq<Node>, b: Seq<Node>)
    requires
        same_wiring(a, b),
    ensures
        wired(a) == wired(b),
        has_cycle(a) == has_cycle(b),
        forall|c: usize| height(a, c) == height(b, c),
{
    assert forall|c: usize, steps: nat| walk(a, c, steps) == walk(b, c, steps) by {
        lemma_same_walk(a, b, c, steps);
    }
    assert forall|c: usize| on_cycle(a, c) == on_cycle(b, c) by {
        if on_cycle(a, c) {
            let steps = choose|steps: nat| steps > 0 && walk(a, c, steps) == Some(c);
            assert(walk(b, c, steps) == Some(c));
        }
        if on_cycle(b, c) {
            let steps = choose|steps: nat| steps > 0 && walk(b, c, steps) == Some(c);
            assert(walk(a, c, steps) == Some(c));
        }
    }
    assert forall|c: usize| height(a, c) == height(b, c) by {
        reveal(height);
        lemma_same_reach(a, b, c, a.len());
    }
    assert(wired(a) == wired(b)) by {
        if wired(a) {
            assert forall|i: int| 0 <= i < b.len() implies #[trigger] sound(b, i) by {
                assert(sound(a, i));
                assert(a[i].wire == b[i].wire);
                if let Some(w) = a[i].wire {
                    assert(a[w.target as int].kind == b[w.target as int].kind);
                }
            }
        }
        if wired(b) {
            assert forall|i: int| 0 <= i < a.len() implies #[trigger] sound(a, i) by {
                assert(sound(b, i));
                assert(a[i].wire == b[i].wire);
                if let Some(w) = b[i].wire {
                    assert(a[w.target as int].kind == b[w.target as int].kind);
                }
            }
        }
    }
}

/// Networks that are connected alike have the same instantaneous hops.
proof fn lemma_same_successor(a: Seq<Node>, b: Seq<Node>, c: usize)
    requires
        same_wiring(a, b),
    ensures
        successor(a, c) == successor(b, c),
{
    if c < a.len() {
        assert(a[c as int].kind == b[c as int].kind);
    }
}

/// Networks that are connected alike have the same instantaneous paths.
proof fn lemma_same_walk(a: Seq<Node>, b: Seq<Node>, c: usize, steps: nat)
    requires
        same_wiring(a, b),
    ensures
        walk(a, c, steps) == walk(b, c, steps),
    decreases steps,
{
    lemma_same_successor(a, b, c);
    if steps > 0 {
        if let Some(t) = successor(a, c) {
            lemma_same_walk(a, b, t, (steps - 1) as nat);
        }
    }
}

/// Networks that are connected alike have combinational paths of the same
/// length.
proof fn lemma_same_reach(a: Seq<Node>, b: Seq<Node>, c: usize, fuel: nat)
    requires
        same_wiring(a, b),
    ensures
        reach(a, c, fuel) == reach(b, c, fuel),
    decreases fuel,
{
    if fuel > 0 && c < a.len() {
        assert(a[c as int].kind == b[c as int].kind);
        if let Some(w) = a[c as int].wire {
            lemma_same_reach(a, b, w.target, (fuel - 1) as nat);
        }
    }
}

/// The bit that the recomputation of `node` drives, if it drives any: a delay
/// that has captured a changed bit in this tick drives none.
pub open spec fn driven(node: Node, latched: bool) -> Option<bool> {
    if node.combinational() {
        Some(node.signal())
    } else if latched {
        None
    } else {
        Some(node.held)
    }
}

/// The recomputed component itself after its recomputation, but for what
/// it may have written to an input of its own.
pub open spec fn recomputed(node: Node, latched: bool) -> Node {
    if node.combinational() || latched {
        node
    } else {
        node.capture()
    }
}

/// `u` differs from `t` as the recomputation of `id` makes it differ, where
/// `id` drives input `slot` of another component `target`.
pub open spec fn differs_at_two(t: Tick, u: Tick, id: usize, target: usize, slot: usize) -> bool {
    let node = t.nodes[id as int];
    let far = t.nodes[target as int];
    let latched = t.latched.contains(id);
    let change = driven(node, latched) matches Some(bit) && far.input(slot as int) != bit;
    &&& u.nodes.len() == t.nodes.len()
    &&& u.nodes[id as int] == recomputed(node, latched)
    &&& !u.dirty.contains(id)
    &&& u.latched.contains(id) == (latched || (!node.combinational() && node.in0 != node.held))
    &&& u.nodes[target as int] == if change {
        far.with_input(slot as int, driven(node, latched)->0)
    } else {
        far
    }
    &&& u.dirty.contains(target) == (t.dirty.contains(target) || change)
    &&& u.latched.contains(target) == t.latched.contains(target)
    &&& forall|i: int|
        0 <= i < t.nodes.len() && i != id && i != target ==> u.nodes[i] == t.nodes[i]
    &&& forall|i: usize|
        i != id && i != target ==> u.dirty.contains(i) == t.dirty.contains(i)
            && u.latched.contains(i) == t.latched.contains(i)
}

/// `u` differs from `t` as the recomputation of `id` makes it differ, where
/// `id` drives nothing or is a delay that drives itself.
pub open spec fn differs_at_one(t: Tick, u: Tick, id: usize) -> bool {
    let node = t.nodes[id as int];
    let latched = t.latched.contains(id);
    let kept = recomputed(node, latched);
    let change = node.wire matches Some(w) && !latched && kept.input(w.slot as int) != node.held;
    &&& u.nodes.len() == t.nodes.len()
    &&& u.nodes[id as int] == if change {
        kept.with_input(node.wire->0.slot as int, node.held)
    } else {
        kept
    }
    &&& !u.dirty.contains(id)
    &&& u.latched.contains(id) == (latched || (!node.combinational() && node.in0 != node.held))
    &&& forall|i: int| 0 <= i < t.nodes.len() && i != id ==> u.nodes[i] == t.nodes[i]
    &&& forall|i: usize|
        i != id ==> u.dirty.contains(i) == t.dirty.contains(i) && u.latched.contains(i)
            == t.latched.contains(i)
}

/// The recomputation of a component that drives another one.
pub proof fn lemma_step_on_two(t: Tick, id: usize, target: usize, slot: usize)
    requires
        id < t.nodes.len(),
        target < t.nodes.len(),
        target != id,
        t.nodes[id as int].wire == Some(Wire { target, slot }),
    ensures
        differs_at_two(t, t.step(id), id, target, slot),
{
}

/// The recomputation of a component that drives nothing, or of a delay that
/// drives itself.
pub proof fn lemma_step_on_one(t: Tick, id: usize)
    requires
        id < t.nodes.len(),
        t.nodes[id as int].wire matches Some(w) ==> w.target == id
            && !t.nodes[id as int].combinational(),
    ensures
        differs_at_one(t, t.step(id), id),
{
}

/// While a tick runs, the network keeps its wiring, and only existing
/// components are pending.
pub proof fn lemma_run_shape(start: Tick, order: Seq<usize>)
    requires
        wired(start.nodes),
        below(start.dirty, start.nodes.len()),
        start.admits(order),
    ensures
        same_wiring(start.nodes, start.run(order).nodes),
        wired(start.run(order).nodes),
        has_cycle(start.run(order).nodes) == has_cycle(start.nodes),
        below(start.run(order).dirty, start.nodes.len()),
    decreases order.len(),
{
    if order.len() > 0 {
        let before = start.run(order.drop_last());
        let id = order.last();
        lemma_run_shape(start, order.drop_last());
        lemma_step_keeps_wiring(before, id);
        lemma_same_wiring(before.nodes, before.step(id).nodes);
        lemma_same_wiring(start.nodes, before.step(id).nodes);
        assert(sound(before.nodes, id as int));
    } else {
        lemma_same_wiring(start.nodes, start.nodes);
    }
}

} // verus!
