//! What holds of every tick, whatever the order in which the pending
//! components are recomputed.

use vstd::prelude::*;
use crate::depth::{
    depth, has_feedback, lemma_calming_run, lemma_depth, lemma_same_depth, lemma_through_delays,
    urgency, within,
};
use crate::effects::{
    differs_at_one, differs_at_two, lemma_run_shape, lemma_step_keeps_wiring, lemma_step_on_one,
    lemma_step_on_two,
};
use crate::model::{
    Network, Node, Tick, Wire, agrees, below, drains, drives_alone, has_cycle, noticed, on_cycle,
    one_driver_each, same_wiring, sound, successor, ticks_to, undriven, walk, wired,
};
use crate::paths::{height, lemma_height_bounds, lemma_height_descends, lemma_walk_split};

verus! {

/// What one recomputation changes of the network, whichever way the
/// recomputed component is connected.
proof fn lemma_step(t: Tick, id: usize)
    requires
        wired(t.nodes),
        !has_cycle(t.nodes),
        id < t.nodes.len(),
    ensures
        match t.nodes[id as int].wire {
            Some(w) if w.target != id => differs_at_two(t, t.step(id), id, w.target, w.slot)
                && w.target < t.nodes.len() && w.slot < t.nodes[w.target as int].arity(),
            Some(w) => differs_at_one(t, t.step(id), id) && !t.nodes[id as int].combinational()
                && w.slot == 0,
            None => differs_at_one(t, t.step(id), id),
        },
{
    let node = t.nodes[id as int];
    assert(sound(t.nodes, id as int));
    match node.wire {
        Some(w) if w.target != id => {
            lemma_step_on_two(t, id, w.target, w.slot);
        },
        Some(w) => {
            if node.combinational() {
                assert(successor(t.nodes, id) == Some(id));
                assert(walk(t.nodes, id, 0) == Some(id));
                assert(walk(t.nodes, id, 1) == Some(id));
                assert(on_cycle(t.nodes, id));
            }
            lemma_step_on_one(t, id);
        },
        None => {
            lemma_step_on_one(t, id);
        },
    }
}

/// A combinational component that is pending or in agreement with the input
/// it drives is so after any recomputation, if no other component drives
/// that input.
proof fn lemma_settling_step(t: Tick, id: usize, c: usize)
    requires
        wired(t.nodes),
        !has_cycle(t.nodes),
        id < t.nodes.len(),
        c < t.nodes.len(),
        t.nodes[c as int].combinational(),
        drives_alone(t.nodes, c),
        t.dirty.contains(c) || agrees(t.nodes, c),
    ensures
        t.step(id).dirty.contains(c) || agrees(t.step(id).nodes, c),
{
    lemma_step(t, id);
    lemma_step(t, c);
    if id != c {
        assert(t.nodes[id as int].wire != t.nodes[c as int].wire);
    }
}

/// The same, after any number of recomputations.
proof fn lemma_settling_run(start: Tick, order: Seq<usize>, c: usize)
    requires
        wired(start.nodes),
        !has_cycle(start.nodes),
        below(start.dirty, start.nodes.len()),
        start.admits(order),
        c < start.nodes.len(),
        start.nodes[c as int].combinational(),
        drives_alone(start.nodes, c),
        start.dirty.contains(c) || agrees(start.nodes, c),
    ensures
        start.run(order).dirty.contains(c) || agrees(start.run(order).nodes, c),
    decreases order.len(),
{
    if order.len() > 0 {
        let before = start.run(order.drop_last());
        lemma_settling_run(start, order.drop_last(), c);
        lemma_run_shape(start, order.drop_last());
        assert(drives_alone(before.nodes, c)) by {
            assert forall|i: int| 0 <= i < before.nodes.len() && i != c implies (
            #[trigger] before.nodes[i]).wire != before.nodes[c as int].wire by {
                assert(start.nodes[i].wire == before.nodes[i].wire);
                assert(start.nodes[c as int].wire == before.nodes[c as int].wire);
            }
        }
        assert(start.nodes[c as int].kind == before.nodes[c as int].kind);
        lemma_settling_step(before, order.last(), c);
    }
}

/// Settling.  Take a `Not` or an `Or` that alone drives the input it is
/// connected to, and that is pending or in agreement with that input when a
/// tick begins.  When the tick is over, the input holds the component's signal:
/// the negation of the input of a `Not`, the disjunction of the inputs of an
/// `Or`.
pub proof fn law_tick_settles(before: Network, after: Network, c: usize)
    requires
        wired(before.nodes),
        !has_cycle(before.nodes),
        below(before.dirty, before.nodes.len()),
        ticks_to(before, after),
        c < before.nodes.len(),
        before.nodes[c as int].combinational(),
        drives_alone(before.nodes, c),
        before.dirty.contains(c) || agrees(before.nodes, c),
    ensures
        agrees(after.nodes, c),
{
    let order = choose|order: Seq<usize>| #[trigger]
        drains(before, order) && after == before.begin().run(order).finish();
    lemma_settling_run(before.begin(), order, c);
}

/// A tick changes neither the kind of a component nor a connection, and
/// leaves only existing components pending.
pub proof fn law_tick_keeps_wiring(before: Network, after: Network)
    requires
        wired(before.nodes),
        below(before.dirty, before.nodes.len()),
        ticks_to(before, after),
    ensures
        same_wiring(before.nodes, after.nodes),
        wired(after.nodes),
        has_cycle(after.nodes) == has_cycle(before.nodes),
        below(after.dirty, after.nodes.len()),
{
    let order = choose|order: Seq<usize>| #[trigger]
        drains(before, order) && after == before.begin().run(order).finish();
    lemma_run_shape(before.begin(), order);
    lemma_latched_run(before.begin(), order);
}

/// An input that no component drives keeps its value during a recomputation.
proof fn lemma_undriven_step(t: Tick, id: usize, target: usize, slot: usize)
    requires
        wired(t.nodes),
        !has_cycle(t.nodes),
        id < t.nodes.len(),
        target < t.nodes.len(),
        slot <= 1,
        undriven(t.nodes, target, slot),
    ensures
        t.step(id).nodes[target as int].input(slot as int) == t.nodes[target as int].input(
            slot as int,
        ),
{
    lemma_step(t, id);
    assert(t.nodes[id as int].wire != Some(Wire { target, slot }));
}

/// The same, after any number of recomputations.
proof fn lemma_undriven_run(start: Tick, order: Seq<usize>, target: usize, slot: usize)
    requires
        wired(start.nodes),
        !has_cycle(start.nodes),
        below(start.dirty, start.nodes.len()),
        start.admits(order),
        target < start.nodes.len(),
        slot <= 1,
        undriven(start.nodes, target, slot),
    ensures
        start.run(order).nodes[target as int].input(slot as int)
            == start.nodes[target as int].input(slot as int),
    decreases order.len(),
{
    if order.len() > 0 {
        let before = start.run(order.drop_last());
        lemma_undriven_run(start, order.drop_last(), target, slot);
        lemma_run_shape(start, order.drop_last());
        assert(undriven(before.nodes, target, slot)) by {
            assert forall|i: int| 0 <= i < before.nodes.len() implies (
            #[trigger] before.nodes[i]).wire != Some(Wire { target, slot }) by {
                assert(start.nodes[i].wire == before.nodes[i].wire);
            }
        }
        lemma_undriven_step(before, order.last(), target, slot);
    }
}

/// An input that no component drives holds after a tick what it held before.
/// The slots are 0 and 1; slot 1 of a component with one input is never
/// driven.
pub proof fn law_undriven_input_stays(before: Network, after: Network, target: usize, slot: usize)
    requires
        wired(before.nodes),
        !has_cycle(before.nodes),
        below(before.dirty, before.nodes.len()),
        ticks_to(before, after),
        target < before.nodes.len(),
        slot <= 1,
        undriven(before.nodes, target, slot),
    ensures
        after.nodes[target as int].input(slot as int) == before.nodes[target as int].input(
            slot as int,
        ),
{
    let order = choose|order: Seq<usize>| #[trigger]
        drains(before, order) && after == before.begin().run(order).finish();
    lemma_undriven_run(before.begin(), order, target, slot);
}

/// A `Not` settles on the negation of its input.  If the `Not` alone drives the
/// input it is connected to, and is pending or in agreement with it when a tick
/// begins, that input holds the negation of the input of the `Not` when the
/// tick is over; where nothing drives the `Not`, this is the negation of what
/// its input held before the tick.
pub proof fn law_not_settles(before: Network, after: Network, c: usize)
    requires
        wired(before.nodes),
        !has_cycle(before.nodes),
        below(before.dirty, before.nodes.len()),
        ticks_to(before, after),
        c < before.nodes.len(),
        before.nodes[c as int].kind is Not,
        before.nodes[c as int].wire is Some,
        drives_alone(before.nodes, c),
        before.dirty.contains(c) || agrees(before.nodes, c),
    ensures
        ({
            let w = before.nodes[c as int].wire->0;
            let driven = after.nodes[w.target as int].input(w.slot as int);
            &&& driven == !after.nodes[c as int].in0
            &&& undriven(before.nodes, c, 0) ==> driven == !before.nodes[c as int].in0
        }),
{
    law_tick_settles(before, after, c);
    law_tick_keeps_wiring(before, after);
    assert(after.nodes[c as int].kind == before.nodes[c as int].kind);
    if undriven(before.nodes, c, 0) {
        law_undriven_input_stays(before, after, c, 0);
    }
}

/// An `Or` settles on the disjunction of its inputs.  If the `Or` alone drives
/// the input it is connected to, and is pending or in agreement with it when a
/// tick begins, that input holds the disjunction of the inputs of the `Or` when
/// the tick is over; where nothing drives the `Or`, this is the disjunction of
/// what its inputs held before the tick.
pub proof fn law_or_settles(before: Network, after: Network, c: usize)
    requires
        wired(before.nodes),
        !has_cycle(before.nodes),
        below(before.dirty, before.nodes.len()),
        ticks_to(before, after),
        c < before.nodes.len(),
        before.nodes[c as int].kind is Or,
        before.nodes[c as int].wire is Some,
        drives_alone(before.nodes, c),
        before.dirty.contains(c) || agrees(before.nodes, c),
    ensures
        ({
            let w = before.nodes[c as int].wire->0;
            let driven = after.nodes[w.target as int].input(w.slot as int);
            &&& driven == (after.nodes[c as int].in0 || after.nodes[c as int].in1)
            &&& undriven(before.nodes, c, 0) && undriven(before.nodes, c, 1) ==> driven == (
            before.nodes[c as int].in0 || before.nodes[c as int].in1)
        }),
{
    law_tick_settles(before, after, c);
    law_tick_keeps_wiring(before, after);
    assert(after.nodes[c as int].kind == before.nodes[c as int].kind);
    if undriven(before.nodes, c, 0) && undriven(before.nodes, c, 1) {
        law_undriven_input_stays(before, after, c, 0);
        law_undriven_input_stays(before, after, c, 1);
    }
}

/// Where a tick stands with the held bits: a delay that has captured a changed
/// bit holds another bit than at the start, every other component holds the
/// same.
spec fn held_tracked(start: Tick, t: Tick) -> bool {
    &&& forall|i: usize|
        i < start.nodes.len() && #[trigger] t.latched.contains(i) ==> {
            &&& t.nodes[i as int].kind is Delay
            &&& t.nodes[i as int].held != start.nodes[i as int].held
        }
    &&& forall|i: usize|
        i < start.nodes.len() && !t.latched.contains(i) ==> (#[trigger] t.nodes[i as int]).held
            == start.nodes[i as int].held
}

/// A recomputation keeps track of the held bits.
proof fn lemma_held_step(start: Tick, t: Tick, id: usize)
    requires
        wired(t.nodes),
        !has_cycle(t.nodes),
        id < t.nodes.len(),
        t.nodes.len() == start.nodes.len(),
        held_tracked(start, t),
    ensures
        held_tracked(start, t.step(id)),
{
    lemma_step(t, id);
    let u = t.step(id);
    assert forall|i: usize| i < start.nodes.len() && #[trigger] u.latched.contains(i) implies
        u.nodes[i as int].kind is Delay && u.nodes[i as int].held != start.nodes[i as int].held by {
        if i != id {
            assert(t.latched.contains(i));
        }
    }
    assert forall|i: usize| i < start.nodes.len() && !u.latched.contains(i) implies (
    #[trigger] u.nodes[i as int]).held == start.nodes[i as int].held by {
        assert(!t.latched.contains(i));
        assert(t.nodes[i as int].held == start.nodes[i as int].held);
    }
}

/// A tick keeps track of the held bits from its start.
proof fn lemma_held_run(start: Tick, order: Seq<usize>)
    requires
        wired(start.nodes),
        !has_cycle(start.nodes),
        below(start.dirty, start.nodes.len()),
        start.latched == Set::<usize>::empty(),
        start.admits(order),
    ensures
        held_tracked(start, start.run(order)),
        below(start.run(order).latched, start.nodes.len()),
    decreases order.len(),
{
    if order.len() > 0 {
        let before = start.run(order.drop_last());
        let id = order.last();
        lemma_held_run(start, order.drop_last());
        lemma_run_shape(start, order.drop_last());
        lemma_held_step(start, before, id);
        lemma_step_keeps_kind(before, id, id);
    }
}

/// Only existing components capture a changed bit.
proof fn lemma_latched_run(start: Tick, order: Seq<usize>)
    requires
        wired(start.nodes),
        below(start.dirty, start.nodes.len()),
        below(start.latched, start.nodes.len()),
        start.admits(order),
    ensures
        below(start.run(order).latched, start.nodes.len()),
    decreases order.len(),
{
    if order.len() > 0 {
        let before = start.run(order.drop_last());
        let id = order.last();
        lemma_latched_run(start, order.drop_last());
        lemma_run_shape(start, order.drop_last());
        lemma_step_keeps_kind(before, id, id);
    }
}

/// A recomputation changes no kind, and lets only the recomputed component
/// capture a changed bit.
proof fn lemma_step_keeps_kind(t: Tick, id: usize, i: usize)
    requires
        wired(t.nodes),
        id < t.nodes.len(),
        i < t.nodes.len(),
    ensures
        t.step(id).nodes[i as int].kind == t.nodes[i as int].kind,
        forall|x: usize| t.step(id).latched.contains(x) ==> t.latched.contains(x) || x == id,
{
    lemma_step_keeps_wiring(t, id);
}

/// When a tick is over, exactly those components are pending whose held bit
/// the tick has changed, and these are delays.
pub proof fn law_changed_delays_pend(before: Network, after: Network, i: usize)
    requires
        wired(before.nodes),
        !has_cycle(before.nodes),
        below(before.dirty, before.nodes.len()),
        ticks_to(before, after),
    ensures
        after.dirty.contains(i) <==> i < before.nodes.len() && after.nodes[i as int].held
            != before.nodes[i as int].held,
        after.dirty.contains(i) ==> before.nodes[i as int].kind is Delay,
{
    let order = choose|order: Seq<usize>| #[trigger]
        drains(before, order) && after == before.begin().run(order).finish();
    let end = before.begin().run(order);
    lemma_held_run(before.begin(), order);
    lemma_run_shape(before.begin(), order);
    assert(after.dirty.contains(i) == end.latched.contains(i));
    if i < before.nodes.len() && !end.latched.contains(i) {
        assert(end.nodes[i as int].held == before.nodes[i as int].held);
    }
}

/// Where a tick stands with the delay `d` that alone drives `wire`, having
/// held `bit` when the tick began: as long as `d` has captured no changed bit
/// it still holds `bit`, and is pending unless the driven input holds `bit`;
/// once it has, the driven input holds `bit`.
spec fn exposing(t: Tick, d: usize, wire: Wire, bit: bool) -> bool {
    let shown = t.nodes[wire.target as int].input(wire.slot as int);
    if t.latched.contains(d) {
        shown == bit
    } else {
        t.nodes[d as int].held == bit && (t.dirty.contains(d) || shown == bit)
    }
}

/// A recomputation keeps a delay that drives alone on showing the bit it held
/// when the tick began.
proof fn lemma_exposing_step(t: Tick, id: usize, d: usize, bit: bool)
    requires
        wired(t.nodes),
        !has_cycle(t.nodes),
        id < t.nodes.len(),
        d < t.nodes.len(),
        t.nodes[d as int].kind is Delay,
        t.nodes[d as int].wire is Some,
        drives_alone(t.nodes, d),
        exposing(t, d, t.nodes[d as int].wire->0, bit),
    ensures
        exposing(t.step(id), d, t.nodes[d as int].wire->0, bit),
{
    lemma_step(t, id);
    lemma_step(t, d);
    if id != d {
        assert(t.nodes[id as int].wire != t.nodes[d as int].wire);
    }
}

/// The same, after any number of recomputations.
proof fn lemma_exposing_run(start: Tick, order: Seq<usize>, d: usize, bit: bool)
    requires
        wired(start.nodes),
        !has_cycle(start.nodes),
        below(start.dirty, start.nodes.len()),
        start.admits(order),
        d < start.nodes.len(),
        start.nodes[d as int].kind is Delay,
        start.nodes[d as int].wire is Some,
        drives_alone(start.nodes, d),
        exposing(start, d, start.nodes[d as int].wire->0, bit),
    ensures
        exposing(start.run(order), d, start.nodes[d as int].wire->0, bit),
    decreases order.len(),
{
    if order.len() > 0 {
        let before = start.run(order.drop_last());
        lemma_exposing_run(start, order.drop_last(), d, bit);
        lemma_run_shape(start, order.drop_last());
        assert(drives_alone(before.nodes, d)) by {
            assert forall|i: int| 0 <= i < before.nodes.len() && i != d implies (
            #[trigger] before.nodes[i]).wire != before.nodes[d as int].wire by {
                assert(start.nodes[i].wire == before.nodes[i].wire);
                assert(start.nodes[d as int].wire == before.nodes[d as int].wire);
            }
        }
        assert(start.nodes[d as int].kind == before.nodes[d as int].kind);
        lemma_exposing_step(before, order.last(), d, bit);
    }
}

/// A `Delay` shows what it held before the tick.  If the `Delay` alone drives
/// the input it is connected to, and is pending or in agreement with it when a
/// tick begins, that input holds, when the tick is over, the bit that the
/// `Delay` held when the tick began: never what the `Delay` captured in the
/// course of this tick.
pub proof fn law_delay_shows_held(before: Network, after: Network, d: usize)
    requires
        wired(before.nodes),
        !has_cycle(before.nodes),
        below(before.dirty, before.nodes.len()),
        ticks_to(before, after),
        d < before.nodes.len(),
        before.nodes[d as int].kind is Delay,
        before.nodes[d as int].wire is Some,
        drives_alone(before.nodes, d),
        before.dirty.contains(d) || agrees(before.nodes, d),
    ensures
        ({
            let w = before.nodes[d as int].wire->0;
            after.nodes[w.target as int].input(w.slot as int) == before.nodes[d as int].held
        }),
{
    let order = choose|order: Seq<usize>| #[trigger]
        drains(before, order) && after == before.begin().run(order).finish();
    lemma_exposing_run(before.begin(), order, d, before.nodes[d as int].held);
}

/// Where a tick stands with the pending delay `d`, whose input nothing
/// drives: either `d` still waits, or it has captured its input, and has
/// captured a changed bit exactly if the input differed from what it held.
spec fn capturing(start: Tick, t: Tick, d: usize) -> bool {
    let first = start.nodes[d as int];
    let now = t.nodes[d as int];
    &&& now.in0 == first.in0
    &&& if t.dirty.contains(d) {
        !t.latched.contains(d) && now.held == first.held
    } else {
        now.held == first.in0 && (t.latched.contains(d) <==> first.in0 != first.held)
    }
}

/// A recomputation keeps a delay with an undriven input on capturing that
/// input once.
proof fn lemma_capturing_step(start: Tick, t: Tick, id: usize, d: usize)
    requires
        wired(t.nodes),
        !has_cycle(t.nodes),
        id < t.nodes.len(),
        d < t.nodes.len(),
        t.dirty.contains(id),
        t.nodes[d as int].kind is Delay,
        undriven(t.nodes, d, 0),
        capturing(start, t, d),
    ensures
        capturing(start, t.step(id), d),
{
    lemma_step(t, id);
    assert(t.nodes[id as int].wire != Some(Wire { target: d, slot: 0 }));
}

/// The same, after any number of recomputations.
proof fn lemma_capturing_run(start: Tick, order: Seq<usize>, d: usize)
    requires
        wired(start.nodes),
        !has_cycle(start.nodes),
        below(start.dirty, start.nodes.len()),
        start.admits(order),
        d < start.nodes.len(),
        start.nodes[d as int].kind is Delay,
        undriven(start.nodes, d, 0),
        start.dirty.contains(d),
        !start.latched.contains(d),
    ensures
        capturing(start, start.run(order), d),
    decreases order.len(),
{
    if order.len() > 0 {
        let before = start.run(order.drop_last());
        lemma_capturing_run(start, order.drop_last(), d);
        lemma_run_shape(start, order.drop_last());
        assert(undriven(before.nodes, d, 0)) by {
            assert forall|i: int| 0 <= i < before.nodes.len() implies (
            #[trigger] before.nodes[i]).wire != Some(Wire { target: d, slot: 0 }) by {
                assert(start.nodes[i].wire == before.nodes[i].wire);
            }
        }
        assert(start.nodes[d as int].kind == before.nodes[d as int].kind);
        lemma_capturing_step(start, before, order.last(), d);
    }
}

/// A pending `Delay` captures its input.  When the tick is over, a `Delay` that
/// was pending and whose input nothing drives holds what its input held, and
/// is pending again exactly if that differs from what it held before.
pub proof fn law_delay_captures_input(before: Network, after: Network, d: usize)
    requires
        wired(before.nodes),
        !has_cycle(before.nodes),
        below(before.dirty, before.nodes.len()),
        ticks_to(before, after),
        d < before.nodes.len(),
        before.nodes[d as int].kind is Delay,
        undriven(before.nodes, d, 0),
        before.dirty.contains(d),
    ensures
        after.nodes[d as int].held == before.nodes[d as int].in0,
        after.nodes[d as int].in0 == before.nodes[d as int].in0,
        after.dirty.contains(d) <==> before.nodes[d as int].in0 != before.nodes[d as int].held,
{
    let order = choose|order: Seq<usize>| #[trigger]
        drains(before, order) && after == before.begin().run(order).finish();
    lemma_capturing_run(before.begin(), order, d);
}

/// The lag of a `Delay` is one tick.  Take a pending `Delay` whose input
/// nothing drives and which alone drives the input it is connected to.  After
/// one tick that input holds what the `Delay` held before; after a second tick
/// it holds what the input of the `Delay` held when the first tick captured it.
pub proof fn law_delay_lags_one_tick(before: Network, between: Network, after: Network, d: usize)
    requires
        wired(before.nodes),
        !has_cycle(before.nodes),
        below(before.dirty, before.nodes.len()),
        ticks_to(before, between),
        ticks_to(between, after),
        d < before.nodes.len(),
        before.nodes[d as int].kind is Delay,
        before.nodes[d as int].wire is Some,
        drives_alone(before.nodes, d),
        undriven(before.nodes, d, 0),
        before.dirty.contains(d),
    ensures
        ({
            let w = before.nodes[d as int].wire->0;
            &&& between.nodes[w.target as int].input(w.slot as int)
                == before.nodes[d as int].held
            &&& after.nodes[w.target as int].input(w.slot as int) == before.nodes[d as int].in0
        }),
{
    law_delay_shows_held(before, between, d);
    law_delay_captures_input(before, between, d);
    law_tick_keeps_wiring(before, between);
    assert(between.nodes[d as int].kind == before.nodes[d as int].kind);
    assert(between.nodes[d as int].wire == before.nodes[d as int].wire);
    assert(drives_alone(between.nodes, d)) by {
        assert forall|i: int| 0 <= i < between.nodes.len() && i != d implies (
        #[trigger] between.nodes[i]).wire != between.nodes[d as int].wire by {
            assert(before.nodes[i].wire == between.nodes[i].wire);
        }
    }
    law_delay_shows_held(between, after, d);
}

/// A cycle does not pass through a `Delay`: every component on a path that
/// comes back to where it began is a `Not` or an `Or`.
pub proof fn law_cycles_are_combinational(nodes: Seq<Node>, c: usize, steps: nat, j: nat)
    requires
        walk(nodes, c, steps) == Some(c),
        j < steps,
    ensures
        walk(nodes, c, j) matches Some(v) && v < nodes.len() && nodes[v as int].combinational(),
{
    lemma_walk_split(nodes, c, j, (steps - j) as nat);
}

/// `after` is what `count` ticks in a row can make of `before`.
pub open spec fn ticks_to_in(before: Network, after: Network, count: nat) -> bool
    decreases count,
{
    if count == 0 {
        after == before
    } else {
        exists|between: Network| #[trigger]
            ticks_to(before, between) && ticks_to_in(between, after, (count - 1) as nat)
    }
}

/// A tick calms a network without feedback: where no pending component had an
/// urgency above `bound` before the tick, none has an urgency of `bound` or
/// more after it.
pub proof fn law_tick_calms(before: Network, after: Network, bound: nat)
    requires
        wired(before.nodes),
        !has_feedback(before.nodes),
        below(before.dirty, before.nodes.len()),
        ticks_to(before, after),
        within(before, bound),
    ensures
        within(after, if bound > 0 {
            (bound - 1) as nat
        } else {
            0
        }),
{
    let order = choose|order: Seq<usize>| #[trigger]
        drains(before, order) && after == before.begin().run(order).finish();
    let start = before.begin();
    let end = start.run(order);
    lemma_through_delays(before.nodes);
    lemma_calming_run(start, order, bound);
    lemma_held_run(start, order);
    lemma_run_shape(start, order);
    lemma_same_depth(before.nodes, end.nodes);
    assert forall|i: usize| after.dirty.contains(i) implies urgency(after.nodes, i) + 1
        <= bound by {
        assert(end.latched.contains(i));
        assert(i < end.nodes.len());
        assert(end.nodes[i as int].kind is Delay);
        lemma_depth(before.nodes, i);
        assert(depth(end.nodes, i) == depth(before.nodes, i));
        assert(2 * depth(end.nodes, i) <= bound && (2 * depth(end.nodes, i) < bound
            || end.nodes[i as int].in0 == end.nodes[i as int].held));
    }
}

/// In a network without feedback, the urgency of a component is at least 1
/// and at most twice the number of components.
pub proof fn law_urgency_is_bounded(nodes: Seq<Node>, i: usize)
    requires
        wired(nodes),
        !has_feedback(nodes),
        i < nodes.len(),
    ensures
        1 <= urgency(nodes, i) <= 2 * nodes.len(),
{
    lemma_depth(nodes, i);
}

/// Convergence.  A network without feedback is at rest after as many ticks as
/// the highest urgency among its pending components, which is at most twice
/// the depth of the network: the tick after these has nothing to do.
pub proof fn law_ticks_converge(before: Network, after: Network, count: nat)
    requires
        wired(before.nodes),
        !has_feedback(before.nodes),
        below(before.dirty, before.nodes.len()),
        within(before, count),
        ticks_to_in(before, after, count),
    ensures
        after.dirty == Set::<usize>::empty(),
    decreases count,
{
    if count == 0 {
        assert forall|i: usize| !before.dirty.contains(i) by {
            if before.dirty.contains(i) {
                law_urgency_is_bounded(before.nodes, i);
            }
        }
        assert(before.dirty =~= Set::<usize>::empty());
    } else {
        let between = choose|between: Network| #[trigger]
            ticks_to(before, between) && ticks_to_in(between, after, (count - 1) as nat);
        law_tick_calms(before, between, count);
        lemma_through_delays(before.nodes);
        law_tick_keeps_wiring(before, between);
        lemma_same_depth(before.nodes, between.nodes);
        law_ticks_converge(between, after, (count - 1) as nat);
    }
}

/// Without delays, one tick is enough: a network of `Not` and `Or` components
/// has nothing pending when a tick is over.
pub proof fn law_gates_rest_after_one_tick(before: Network, after: Network)
    requires
        wired(before.nodes),
        !has_cycle(before.nodes),
        below(before.dirty, before.nodes.len()),
        ticks_to(before, after),
        forall|i: int| 0 <= i < before.nodes.len() ==> (#[trigger] before.nodes[i]).combinational(),
    ensures
        after.dirty == Set::<usize>::empty(),
{
    assert forall|i: usize| !after.dirty.contains(i) by {
        if after.dirty.contains(i) {
            law_changed_delays_pend(before, after, i);
        }
    }
    assert(after.dirty =~= Set::<usize>::empty());
}

/// Two outcomes of a tick on a network of gates agree on every component of
/// height `h` or more.
proof fn lemma_alike_from(before: Network, one: Network, other: Network, h: nat)
    requires
        before.nodes.len() <= usize::MAX,
        wired(before.nodes),
        !has_cycle(before.nodes),
        below(before.dirty, before.nodes.len()),
        forall|i: int| 0 <= i < before.nodes.len() ==> (#[trigger] before.nodes[i]).combinational(),
        one_driver_each(before.nodes),
        noticed(before),
        ticks_to(before, one),
        ticks_to(before, other),
    ensures
        forall|i: usize|
            i < before.nodes.len() && height(before.nodes, i) >= h ==> one.nodes[i as int]
                == other.nodes[i as int],
    decreases before.nodes.len() + 1 - h,
{
    let n = before.nodes.len();
    law_tick_keeps_wiring(before, one);
    law_tick_keeps_wiring(before, other);
    if h <= n {
        lemma_alike_from(before, one, other, h + 1);
    }
    assert forall|i: usize| i < n && height(before.nodes, i) >= h implies one.nodes[i as int]
        == other.nodes[i as int] by {
        lemma_height_bounds(before.nodes, i);
        if height(before.nodes, i) == h {
            let a = one.nodes[i as int];
            let b = other.nodes[i as int];
            assert(a.kind == before.nodes[i as int].kind && b.kind == before.nodes[i as int].kind);
            assert(a.wire == b.wire);
            law_changed_delays_pend(before, one, i);
            law_changed_delays_pend(before, other, i);
            law_gates_rest_after_one_tick(before, one);
            law_gates_rest_after_one_tick(before, other);
            assert(a.held == b.held);
            lemma_alike_slot(before, one, other, h, i, 0);
            lemma_alike_slot(before, one, other, h, i, 1);
        }
    }
}

/// Two outcomes of a tick on a network of gates agree on input `slot` of
/// component `i`, if they agree on every component higher than `i`.
proof fn lemma_alike_slot(
    before: Network,
    one: Network,
    other: Network,
    h: nat,
    i: usize,
    slot: usize,
)
    requires
        before.nodes.len() <= usize::MAX,
        wired(before.nodes),
        !has_cycle(before.nodes),
        below(before.dirty, before.nodes.len()),
        forall|i: int| 0 <= i < before.nodes.len() ==> (#[trigger] before.nodes[i]).combinational(),
        one_driver_each(before.nodes),
        noticed(before),
        ticks_to(before, one),
        ticks_to(before, other),
        i < before.nodes.len(),
        slot <= 1,
        height(before.nodes, i) == h,
        forall|c: usize|
            c < before.nodes.len() && height(before.nodes, c) >= h + 1 ==> one.nodes[c as int]
                == other.nodes[c as int],
    ensures
        one.nodes[i as int].input(slot as int) == other.nodes[i as int].input(slot as int),
{
    if undriven(before.nodes, i, slot) {
        law_undriven_input_stays(before, one, i, slot);
        law_undriven_input_stays(before, other, i, slot);
    } else {
        let c = choose|c: int|
            0 <= c < before.nodes.len() && (#[trigger] before.nodes[c]).wire == Some(
                Wire { target: i, slot },
            );
        let c = c as usize;
        assert(before.nodes[c as int].wire == Some(Wire { target: i, slot }));
        assert(successor(before.nodes, c) == Some(i));
        lemma_height_descends(before.nodes, c);
        assert(drives_alone(before.nodes, c));
        assert(before.dirty.contains(c) || agrees(before.nodes, c));
        law_tick_settles(before, one, c);
        law_tick_settles(before, other, c);
        law_tick_keeps_wiring(before, one);
        law_tick_keeps_wiring(before, other);
        assert(one.nodes[c as int].wire == before.nodes[c as int].wire);
        assert(other.nodes[c as int].wire == before.nodes[c as int].wire);
    }
}

/// A network of gates settles alike in any order.  Take a wired network of
/// `Not` and `Or` components without cycles, in which no input has two drivers
/// and no change has gone unnoticed.  Whatever the order in which a tick
/// recomputes the pending components, it leaves the same network behind.
///
/// The number of components must fit a position, as it does in every scene.
pub proof fn law_gates_settle_alike(before: Network, one: Network, other: Network)
    requires
        before.nodes.len() <= usize::MAX,
        wired(before.nodes),
        !has_cycle(before.nodes),
        below(before.dirty, before.nodes.len()),
        forall|i: int| 0 <= i < before.nodes.len() ==> (#[trigger] before.nodes[i]).combinational(),
        one_driver_each(before.nodes),
        noticed(before),
        ticks_to(before, one),
        ticks_to(before, other),
    ensures
        one == other,
{
    lemma_alike_from(before, one, other, 0);
    law_tick_keeps_wiring(before, one);
    law_tick_keeps_wiring(before, other);
    law_gates_rest_after_one_tick(before, one);
    law_gates_rest_after_one_tick(before, other);
    assert forall|j: int| 0 <= j < one.nodes.len() implies one.nodes[j] == other.nodes[j] by {
        let i = j as usize;
        assert(height(before.nodes, i) >= 0);
        assert(one.nodes[i as int] == other.nodes[i as int]);
    }
    assert(one.nodes =~= other.nodes);
}

} // verus!
