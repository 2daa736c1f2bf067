//! Why a tick comes to an end: a measure of the work that is left, which every
//! recomputation lowers.

use vstd::prelude::*;
use crate::effects::{
    differs_at_one, differs_at_two, driven, lemma_same_wiring, lemma_step_keeps_wiring,
    lemma_step_on_one, lemma_step_on_two, recomputed,
};
use crate::model::{Node, Tick, has_cycle, sound, successor, walk, wired};
use crate::paths::{height, lemma_height_bounds, lemma_height_descends};
use crate::sums::{lemma_sum_one, lemma_sum_two, sum};

verus! {

/// The share of one component in the work that a tick has left, given the
/// number `n` of components, the component's height `h`, its state, and
/// whether it is pending and whether it has captured a changed bit.
///
/// A pending component counts for more than any change that its
/// recomputation can cause further down its combinational path.  A delay
/// counts for the one recomputation that finds its input equal to its held
/// bit, and for the one capture of a changed bit that a tick allows it.
#[verifier::opaque]
pub open spec fn share(n: nat, h: nat, node: Node, pending: bool, latched: bool) -> nat {
    let settled = node.in0 == node.held;
    (if pending {
        n + 2 + h
    } else {
        0
    }) + (if node.kind is Delay && settled == pending {
        n + 1
    } else {
        0
    }) + (if node.kind is Delay && !latched {
        n + 1
    } else {
        0
    })
}

/// The share of component `i` in the work that the tick `t` has left.
pub open spec fn weight(t: Tick, i: int) -> nat {
    share(
        t.nodes.len(),
        height(t.nodes, i as usize),
        t.nodes[i],
        t.dirty.contains(i as usize),
        t.latched.contains(i as usize),
    )
}

/// The work that a tick has left: the sum of the weights of all components.
pub open spec fn potential(t: Tick) -> nat {
    sum(|i: int| weight(t, i), t.nodes.len())
}

/// Where two states differ in the weight of `p` alone, and `p` weighs less in
/// `u`, the potential of `u` is lower.
proof fn lemma_lower_at_one(t: Tick, u: Tick, p: usize)
    requires
        u.nodes.len() == t.nodes.len(),
        p < t.nodes.len(),
        forall|i: int| 0 <= i < t.nodes.len() && i != p ==> weight(u, i) == weight(t, i),
        weight(u, p as int) < weight(t, p as int),
    ensures
        potential(u) < potential(t),
{
    let f = |i: int| weight(t, i);
    let g = |i: int| weight(u, i);
    assert forall|i: int| 0 <= i < t.nodes.len() && i != p implies #[trigger] f(i) == g(i) by {
        assert(weight(u, i) == weight(t, i));
    }
    lemma_sum_one(f, g, t.nodes.len(), p as int);
}

/// Where two states differ in the weights of `p` and `q` alone, and the two
/// together weigh less in `u`, the potential of `u` is lower.
proof fn lemma_lower_at_two(t: Tick, u: Tick, p: usize, q: usize)
    requires
        u.nodes.len() == t.nodes.len(),
        p < t.nodes.len(),
        q < t.nodes.len(),
        p != q,
        forall|i: int|
            0 <= i < t.nodes.len() && i != p && i != q ==> weight(u, i) == weight(t, i),
        weight(u, p as int) + weight(u, q as int) < weight(t, p as int) + weight(t, q as int),
    ensures
        potential(u) < potential(t),
{
    let f = |i: int| weight(t, i);
    let g = |i: int| weight(u, i);
    assert forall|i: int| 0 <= i < t.nodes.len() && i != p && i != q implies #[trigger] f(i)
        == g(i) by {
        assert(weight(u, i) == weight(t, i));
    }
    lemma_sum_two(f, g, t.nodes.len(), p as int, q as int);
}

/// Without a combinational cycle, a combinational component drives a lower
/// component, never itself.
proof fn lemma_driven_is_lower(nodes: Seq<Node>, id: usize)
    requires
        wired(nodes),
        !has_cycle(nodes),
        id < nodes.len(),
    ensures
        nodes[id as int].combinational() ==> (nodes[id as int].wire matches Some(w) ==> w.target
            != id && height(nodes, w.target) < height(nodes, id)),
{
    let node = nodes[id as int];
    if node.combinational() && node.wire is Some {
        let target = node.wire->0.target;
        assert(successor(nodes, id) == Some(target));
        lemma_height_descends(nodes, id);
        if target == id {
            assert(walk(nodes, id, 0) == Some(id));
            assert(walk(nodes, id, 1) == Some(id));
        }
    }
}

/// The two components that a recomputation touches weigh less after it.
proof fn lemma_shares_two(
    n: nat,
    h: nat,
    k: nat,
    node: Node,
    far: Node,
    slot: int,
    latched: bool,
    far_pending: bool,
    far_latched: bool,
)
    requires
        h <= n,
        k <= n,
        node.combinational() ==> k < h,
        !far.combinational() ==> k == 0,
        0 <= slot < far.arity(),
    ensures
        ({
            let change = driven(node, latched) matches Some(bit) && far.input(slot) != bit;
            share(
                n,
                h,
                recomputed(node, latched),
                false,
                latched || (!node.combinational() && node.in0 != node.held),
            ) + share(
                n,
                k,
                if change {
                    far.with_input(slot, driven(node, latched)->0)
                } else {
                    far
                },
                far_pending || change,
                far_latched,
            ) < share(n, h, node, true, latched) + share(n, k, far, far_pending, far_latched)
        }),
{
    reveal(share);
}

/// A component that drives nothing, or a delay that drives itself, weighs
/// less after its recomputation.
proof fn lemma_shares_one(n: nat, h: nat, node: Node, latched: bool)
    requires
        node.wire matches Some(w) ==> !node.combinational() && w.slot == 0,
    ensures
        ({
            let kept = recomputed(node, latched);
            let change = node.wire matches Some(w) && !latched && kept.input(w.slot as int)
                != node.held;
            share(
                n,
                h,
                if change {
                    kept.with_input(node.wire->0.slot as int, node.held)
                } else {
                    kept
                },
                false,
                latched || (!node.combinational() && node.in0 != node.held),
            ) < share(n, h, node, true, latched)
        }),
{
    reveal(share);
}

/// The recomputed component and the one it drives weigh less together
/// after the recomputation.
proof fn lemma_pair_is_lighter(t: Tick, u: Tick, id: usize, target: usize, slot: usize)
    requires
        t.nodes.len() <= usize::MAX,
        id < t.nodes.len(),
        target < t.nodes.len(),
        target != id,
        t.dirty.contains(id),
        slot < t.nodes[target as int].arity(),
        differs_at_two(t, u, id, target, slot),
        height(u.nodes, id) == height(t.nodes, id),
        height(u.nodes, target) == height(t.nodes, target),
        height(t.nodes, id) <= t.nodes.len(),
        height(t.nodes, target) <= t.nodes.len(),
        t.nodes[id as int].combinational() ==> height(t.nodes, target) < height(t.nodes, id),
        !t.nodes[target as int].combinational() ==> height(t.nodes, target) == 0,
    ensures
        weight(u, id as int) + weight(u, target as int) < weight(t, id as int) + weight(
            t,
            target as int,
        ),
{
    let n = t.nodes.len();
    let node = t.nodes[id as int];
    let far = t.nodes[target as int];
    let latched = t.latched.contains(id);
    let h = height(t.nodes, id);
    let k = height(t.nodes, target);
    let change = driven(node, latched) matches Some(bit) && far.input(slot as int) != bit;
    assert(weight(t, id as int) == share(n, h, node, true, latched));
    assert(weight(t, target as int) == share(
        n,
        k,
        far,
        t.dirty.contains(target),
        t.latched.contains(target),
    ));
    assert(weight(u, id as int) == share(
        n,
        h,
        recomputed(node, latched),
        false,
        latched || (!node.combinational() && node.in0 != node.held),
    ));
    assert(weight(u, target as int) == share(
        n,
        k,
        if change {
            far.with_input(slot as int, driven(node, latched)->0)
        } else {
            far
        },
        t.dirty.contains(target) || change,
        t.latched.contains(target),
    ));
    lemma_shares_two(
        n,
        h,
        k,
        node,
        far,
        slot as int,
        latched,
        t.dirty.contains(target),
        t.latched.contains(target),
    );
}

/// The components that a recomputation does not touch keep their weight.
proof fn lemma_rest_keeps_weight(t: Tick, u: Tick, id: usize, target: usize, slot: usize)
    requires
        t.nodes.len() <= usize::MAX,
        differs_at_two(t, u, id, target, slot),
        forall|c: usize| height(u.nodes, c) == height(t.nodes, c),
    ensures
        forall|i: int|
            0 <= i < t.nodes.len() && i != id && i != target ==> weight(u, i) == weight(t, i),
{
    assert forall|i: int| 0 <= i < t.nodes.len() && i != id && i != target implies weight(u, i)
        == weight(t, i) by {
        assert(height(u.nodes, i as usize) == height(t.nodes, i as usize));
    }
}

/// The recomputation of a component that drives another one lowers the
/// potential.
proof fn lemma_descends_two(t: Tick, u: Tick, id: usize, target: usize, slot: usize)
    requires
        t.nodes.len() <= usize::MAX,
        id < t.nodes.len(),
        target < t.nodes.len(),
        target != id,
        t.dirty.contains(id),
        slot < t.nodes[target as int].arity(),
        differs_at_two(t, u, id, target, slot),
        forall|c: usize| height(u.nodes, c) == height(t.nodes, c),
        height(t.nodes, id) <= t.nodes.len(),
        height(t.nodes, target) <= t.nodes.len(),
        t.nodes[id as int].combinational() ==> height(t.nodes, target) < height(t.nodes, id),
        !t.nodes[target as int].combinational() ==> height(t.nodes, target) == 0,
    ensures
        potential(u) < potential(t),
{
    lemma_pair_is_lighter(t, u, id, target, slot);
    lemma_rest_keeps_weight(t, u, id, target, slot);
    lemma_lower_at_two(t, u, id, target);
}

/// The recomputation of a component that drives nothing, or of a delay that
/// drives itself, lowers the potential.
proof fn lemma_descends_one(t: Tick, u: Tick, id: usize)
    requires
        t.nodes.len() <= usize::MAX,
        id < t.nodes.len(),
        t.dirty.contains(id),
        t.nodes[id as int].wire matches Some(w) ==> w.target == id
            && !t.nodes[id as int].combinational() && w.slot == 0,
        differs_at_one(t, u, id),
        forall|c: usize| height(u.nodes, c) == height(t.nodes, c),
    ensures
        potential(u) < potential(t),
{
    let n = t.nodes.len();
    lemma_shares_one(n, height(t.nodes, id), t.nodes[id as int], t.latched.contains(id));
    assert(height(u.nodes, id) == height(t.nodes, id));
    assert forall|i: int| 0 <= i < n && i != id implies weight(u, i) == weight(t, i) by {
        assert(height(u.nodes, i as usize) == height(t.nodes, i as usize));
    }
    lemma_lower_at_one(t, u, id);
}

/// In a wired network without combinational cycles, recomputing a pending
/// component lowers the potential.
pub proof fn lemma_step_descends(t: Tick, id: usize)
    requires
        wired(t.nodes),
        !has_cycle(t.nodes),
        t.nodes.len() <= usize::MAX,
        id < t.nodes.len(),
        t.dirty.contains(id),
    ensures
        potential(t.step(id)) < potential(t),
{
    let node = t.nodes[id as int];
    lemma_step_keeps_wiring(t, id);
    lemma_same_wiring(t.nodes, t.step(id).nodes);
    lemma_height_bounds(t.nodes, id);
    lemma_driven_is_lower(t.nodes, id);
    assert(sound(t.nodes, id as int));
    match node.wire {
        Some(w) if w.target != id => {
            lemma_height_bounds(t.nodes, w.target);
            lemma_step_on_two(t, id, w.target, w.slot);
            lemma_descends_two(t, t.step(id), id, w.target, w.slot);
        },
        _ => {
            lemma_step_on_one(t, id);
            lemma_descends_one(t, t.step(id), id);
        },
    }
}

} // verus!
