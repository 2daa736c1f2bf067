//! The scene: the component store and the set of components awaiting
//! recomputation.

use std::collections::HashSet;
use vstd::prelude::*;
use vstd::set_lib::lemma_len_subset;
use vstd::std_specs::iter::IteratorSpec;
use crate::components::{Component, ComponentType, Output, wire_of};
use crate::effects::{lemma_same_wiring, lemma_step_keeps_wiring};
use crate::index_set;
use crate::model::{
    Network, Node, Tick, Wire, below, drains, has_cycle, on_cycle, same_wiring, sound, successor,
    ticks_to, walk, wired,
};
use crate::paths::lemma_walk_in_range;
use crate::progress::{lemma_step_descends, potential};
use crate::search::{
    ended, lemma_trace_begins, lemma_trace_bounded, lemma_trace_clears, lemma_trace_closes,
    lemma_trace_grows, traced,
};

verus! {

/// Handle of a component: its position in the scene that created it.
#[derive(Clone, Copy, PartialEq, Eq)]
pub struct ComponentID(usize);

impl ComponentID {
    /// The position this handle stands for.
    pub closed spec fn spec_index(self) -> usize {
        self.0
    }

    /// The position this handle stands for.
    #[verifier::when_used_as_spec(spec_index)]
    pub fn index(self) -> (i: usize)
        ensures
            i == self.index(),
    {
        self.0
    }
}

/// A network of components and the set of those awaiting recomputation.
pub struct Scene<P> {
    components: Vec<Component<P>>,
    changed: HashSet<usize>,
}

impl<P> View for Scene<P> {
    type V = Network;

    /// The scene as the model sees it: the logic state of the components and
    /// the set of pending positions.
    open spec fn view(&self) -> Network {
        Network { nodes: self.nodes(), dirty: self.dirty() }
    }
}

impl<P> Scene<P> {
    /// The components, in creation order.
    pub closed spec fn components(&self) -> Seq<Component<P>> {
        self.components@
    }

    /// Positions of the components that await recomputation.
    pub closed spec fn dirty(&self) -> Set<usize> {
        self.changed@
    }

    /// The logic state of each component, without its payload.
    pub open spec fn nodes(&self) -> Seq<Node> {
        self.components().map_values(|c: Component<P>| c.typ@)
    }

    /// The payload of each component.
    pub open spec fn payloads(&self) -> Seq<P> {
        self.components().map_values(|c: Component<P>| c.position)
    }

    /// What holds of every scene: only existing components are pending.
    pub open spec fn inv(&self) -> bool {
        below(self.dirty(), self.components().len())
    }

    /// An empty scene.
    pub fn new() -> (scene: Self)
        ensures
            scene.inv(),
            scene.components() == Seq::<Component<P>>::empty(),
            scene.dirty() == Set::<usize>::empty(),
    {
        Default::default()
    }

    /// Appends a component and marks it pending.  Its handle is its position.
    pub fn add_component(&mut self, component: Component<P>) -> (id: ComponentID)
        requires
            old(self).inv(),
        ensures
            final(self).inv(),
            id.index() == old(self).components().len(),
            final(self).components() == old(self).components().push(component),
            final(self).dirty() == old(self).dirty().insert(id.index()),
    {
        let id = self.components.len();
        self.components.push(component);
        index_set::insert(&mut self.changed, id);
        ComponentID(id)
    }

    /// Read access to a component.
    pub fn get_component(&self, id: ComponentID) -> (component: &Component<P>)
        requires
            id.index() < self.components().len(),
        ensures
            *component == self.components()[id.index() as int],
    {
        &self.components[id.0]
    }

    /// Write access to a component.  The component is marked pending whether or
    /// not the caller changes it.
    pub fn get_component_mut(&mut self, id: ComponentID) -> (component: &mut Component<P>)
        requires
            old(self).inv(),
            id.index() < old(self).components().len(),
        ensures
            *component == old(self).components()[id.index() as int],
            final(self).components() == old(self).components().update(
                id.index() as int,
                *final(component),
            ),
            final(self).dirty() == old(self).dirty().insert(id.index()),
            final(self).inv(),
    {
        index_set::insert(&mut self.changed, id.0);
        &mut self.components[id.0]
    }

    /// The handles of all components, in creation order.
    pub fn ids(&self) -> (ids: Vec<ComponentID>)
        ensures
            ids@.len() == self.components().len(),
            forall|i: int| 0 <= i < ids@.len() ==> (#[trigger] ids@[i]).index() == i,
    {
        let mut ids: Vec<ComponentID> = Vec::new();
        let mut next: usize = 0;
        while next < self.components.len()
            invariant
                next <= self.components().len(),
                ids@.len() == next,
                forall|i: int| 0 <= i < ids@.len() ==> (#[trigger] ids@[i]).index() == i,
            decreases self.components().len() - next,
        {
            ids.push(ComponentID(next));
            next += 1;
        }
        ids
    }

    /// Tells whether every connection leads to an existing input slot of an
    /// existing component.
    pub fn is_wired(&self) -> (ok: bool)
        ensures
            ok == wired(self.nodes()),
    {
        let mut next: usize = 0;
        while next < self.components.len()
            invariant
                next <= self.components().len(),
                forall|i: int| 0 <= i < next ==> #[trigger] sound(self.nodes(), i),
            decreases self.components().len() - next,
        {
            proof {
                self.components()[next as int].typ.lemma_view();
            }
            if let Some(output) = self.components[next].get_outputs()[0] {
                let target = output.component.index();
                if target >= self.components.len() {
                    assert(!sound(self.nodes(), next as int));
                    return false;
                }
                proof {
                    self.components()[target as int].typ.lemma_view();
                }
                if output.index >= self.components[target].get_inputs().len() {
                    assert(!sound(self.nodes(), next as int));
                    return false;
                }
            }
            next += 1;
        }
        true
    }

    /// Disconnects output `output_index` of `source`.  The input that it drove,
    /// if any, is reset to `false`, and its owner is marked pending, so that no
    /// stale signal stays behind; `source` is marked pending too.
    ///
    /// Every variant has one output, so `output_index` is 0.  The connection to
    /// be taken away must lead to an existing input slot.
    pub fn disconnect(&mut self, source: ComponentID, output_index: usize)
        requires
            old(self).inv(),
            source.index() < old(self).nodes().len(),
            sound(old(self).nodes(), source.index() as int),
            output_index == 0,
        ensures
            final(self).inv(),
            final(self)@ == old(self)@.disconnect(source.index()),
            final(self).payloads() == old(self).payloads(),
            final(self).nodes().len() == old(self).nodes().len(),
            final(self).nodes()[source.index() as int].wire is None,
            old(self).nodes()[source.index() as int].wire matches Some(w) ==> {
                &&& !final(self).nodes()[w.target as int].input(w.slot as int)
                &&& final(self).dirty().contains(w.target)
            },
            wired(old(self).nodes()) ==> wired(final(self).nodes()),
    {
        proof {
            self.components()[source.index() as int].typ.lemma_view();
        }
        let previous = self.get_component(source).get_outputs()[output_index];
        if let Some(output) = previous {
            proof {
                self.components()[output.component.index() as int].typ.lemma_view();
            }
            self.get_component_mut(output.component).get_inputs_mut()[output.index].state = false;
            proof {
                self.components()[output.component.index() as int].typ.lemma_view();
            }
        }
        proof {
            self.components()[source.index() as int].typ.lemma_view();
        }
        self.get_component_mut(source).get_outputs_mut()[output_index] = None;
        proof {
            self.components()[source.index() as int].typ.lemma_view();
            assert(self.nodes() =~= old(self)@.disconnect(source.index()).nodes);
            assert(self.dirty() =~= old(self)@.disconnect(source.index()).dirty);
            if wired(old(self).nodes()) {
                lemma_disconnect_keeps_wired(old(self).nodes(), source.index());
            }
        }
    }

    /// Connects output `output_index` of `source` to input `input_index` of
    /// `target`, after disconnecting it from where it led before.  `source` is
    /// marked pending.
    ///
    /// Whether the new connection closes a combinational cycle is for the caller
    /// to ask, with `has_cyclic_dependency`, before the next tick.
    pub fn connect(
        &mut self,
        source: ComponentID,
        output_index: usize,
        target: ComponentID,
        input_index: usize,
    )
        requires
            old(self).inv(),
            source.index() < old(self).nodes().len(),
            sound(old(self).nodes(), source.index() as int),
            output_index == 0,
            target.index() < old(self).nodes().len(),
            input_index < old(self).nodes()[target.index() as int].arity(),
        ensures
            final(self).inv(),
            final(self)@ == old(self)@.disconnect(source.index()).connect(
                source.index(),
                Wire { target: target.index(), slot: input_index },
            ),
            final(self).payloads() == old(self).payloads(),
            final(self).nodes().len() == old(self).nodes().len(),
            final(self).nodes()[source.index() as int].wire == Some(
                Wire { target: target.index(), slot: input_index },
            ),
            wired(old(self).nodes()) ==> wired(final(self).nodes()),
    {
        self.disconnect(source, output_index);
        let ghost loose = self@;
        proof {
            self.components()[source.index() as int].typ.lemma_view();
        }
        self.get_component_mut(source).get_outputs_mut()[output_index] = Some(
            Output { component: target, index: input_index },
        );
        proof {
            let wire = Wire { target: target.index(), slot: input_index };
            self.components()[source.index() as int].typ.lemma_view();
            assert(self.nodes() =~= loose.connect(source.index(), wire).nodes);
            assert(self.dirty() =~= loose.connect(source.index(), wire).dirty);
            if wired(old(self).nodes()) {
                lemma_connect_keeps_wired(loose.nodes, source.index(), wire);
            }
        }
    }

    /// The scene as a tick sees it, `latched` being the delays that have
    /// captured a changed bit so far.
    pub open spec fn in_tick(&self, latched: Set<usize>) -> Tick {
        Tick { nodes: self.nodes(), dirty: self.dirty(), latched }
    }

    /// Drives `signal` from component `source` along `output`.
    fn deliver(
        &mut self,
        source: usize,
        output: Option<Output>,
        signal: bool,
        Ghost(latched): Ghost<Set<usize>>,
    )
        requires
            old(self).inv(),
            source < old(self).nodes().len(),
            output matches Some(o) ==> o.component.index() < old(self).nodes().len() && o.index
                < old(self).nodes()[o.component.index() as int].arity(),
        ensures
            final(self).inv(),
            final(self).in_tick(latched) == old(self).in_tick(latched).deliver(
                source,
                wire_of(output),
                signal,
            ),
            final(self).payloads() == old(self).payloads(),
    {
        if let Some(output) = output {
            let target = output.component.index();
            proof {
                self.components()[target as int].typ.lemma_view();
            }
            if self.components[target].get_inputs()[output.index].state != signal {
                let delayed = self.components[source].ignore_cyclic();
                self.components[target].get_inputs_mut()[output.index].state = signal;
                if !(target == source && delayed) {
                    index_set::insert(&mut self.changed, target);
                }
                proof {
                    self.components()[target as int].typ.lemma_view();
                    assert(self.nodes() =~= old(self).nodes().update(
                        target as int,
                        old(self).nodes()[target as int].with_input(output.index as int, signal),
                    ));
                }
            }
        }
    }

    /// One step of a tick: recomputes the component `id`, which is no longer
    /// pending afterwards.  `latched` holds the positions of the delays that
    /// have captured a changed bit since the tick began.
    ///
    /// A `Not` or an `Or` writes its signal to the input it drives if that input
    /// differs, and only then is the driven component made pending.  A `Delay`
    /// that is not in `latched` captures its input, joins `latched` if that
    /// changed what it held, and drives the bit it held before; a `Delay` in
    /// `latched` is left as it is.
    ///
    /// `update` takes such steps until no component is pending, and then calls
    /// `requeue`.
    pub fn recompute(&mut self, id: ComponentID, latched: &mut HashSet<usize>)
        requires
            old(self).inv(),
            id.index() < old(self).nodes().len(),
            sound(old(self).nodes(), id.index() as int),
        ensures
            final(self).inv(),
            final(self).in_tick(final(latched)@) == old(self).in_tick(old(latched)@).step(
                id.index(),
            ),
            final(self).payloads() == old(self).payloads(),
            below(old(latched)@, old(self).nodes().len()) ==> below(
                final(latched)@,
                final(self).nodes().len(),
            ),
    {
        let id = id.index();
        index_set::remove(&mut self.changed, id);
        proof {
            self.components()[id as int].typ.lemma_view();
        }
        match &self.components[id].typ {
            ComponentType::Not { input, output } => {
                let signal = !input.state;
                let output = *output;
                self.deliver(id, output, signal, Ghost(latched@));
            },
            ComponentType::Or { inputs, output } => {
                let signal = inputs[0].state || inputs[1].state;
                let output = *output;
                self.deliver(id, output, signal, Ghost(latched@));
            },
            ComponentType::Delay { input, output, state_last_frame } => {
                if !index_set::contains(latched, id) {
                    let old_state = *state_last_frame;
                    let new_state = input.state;
                    let output = *output;
                    self.latch(id, new_state);
                    if old_state != new_state {
                        index_set::insert(latched, id);
                    }
                    self.deliver(id, output, old_state, Ghost(latched@));
                }
            },
        }
    }

    /// The end of a tick: marks the delays in `latched` pending.
    pub fn requeue(&mut self, latched: &HashSet<usize>)
        requires
            old(self).inv(),
            below(latched@, old(self).components().len()),
        ensures
            final(self).inv(),
            final(self).components() == old(self).components(),
            final(self).dirty() == old(self).dirty().union(latched@),
    {
        index_set::extend(&mut self.changed, latched);
    }

    /// Stores `state` as the bit held by the delay at `id`.
    fn latch(&mut self, id: usize, state: bool)
        requires
            old(self).inv(),
            id < old(self).nodes().len(),
            old(self).nodes()[id as int].kind is Delay,
        ensures
            final(self).inv(),
            final(self).nodes() == old(self).nodes().update(
                id as int,
                Node { held: state, ..old(self).nodes()[id as int] },
            ),
            final(self).dirty() == old(self).dirty(),
            final(self).payloads() == old(self).payloads(),
    {
        match &mut self.components[id].typ {
            ComponentType::Delay { input: _, output: _, state_last_frame } => {
                *state_last_frame = state;
            },
            _ => {},
        }
        proof {
            assert(self.nodes() =~= old(self).nodes().update(
                id as int,
                Node { held: state, ..old(self).nodes()[id as int] },
            ));
        }
    }

    /// Tells whether some component reaches itself through `Not` and `Or`
    /// components only.  A path that passes through a `Delay` closes no cycle.
    ///
    /// Every component is taken in turn as the start of a path along the
    /// output connections.  The path is followed until it ends, meets a
    /// `Delay`, or comes back to a component that it has passed already.
    /// Components met on the way are not taken as a start again.
    pub fn has_cyclic_dependency(&self) -> (cyclic: bool)
        requires
            wired(self.nodes()),
        ensures
            cyclic == has_cycle(self.nodes()),
    {
        let count = self.components.len();
        let ghost nodes = self.nodes();
        let mut to_check: HashSet<usize> = HashSet::new();
        let mut next: usize = 0;
        while next < count
            invariant
                next <= count,
                forall|i: usize| to_check@.contains(i) <==> i < next,
            decreases count - next,
        {
            index_set::insert(&mut to_check, next);
            next += 1;
        }
        loop
            invariant
                count == nodes.len(),
                nodes == self.nodes(),
                wired(nodes),
                below(to_check@, nodes.len()),
                forall|v: usize| v < count && !to_check@.contains(v) ==> !on_cycle(nodes, v),
            ensures
                !has_cycle(nodes),
            decreases to_check@.len(),
        {
            let root = match index_set::any(&to_check) {
                Some(root) => root,
                None => {
                    break ;
                },
            };
            let ghost roots = to_check@;
            proof {
                index_set::lemma_finite(&to_check);
            }
            index_set::remove(&mut to_check, root);
            let mut to_check_this_iteration: HashSet<usize> = HashSet::new();
            index_set::insert(&mut to_check_this_iteration, root);
            let mut checked: HashSet<usize> = HashSet::new();
            let ghost mut hops: nat = 0;
            proof {
                lemma_trace_begins(nodes, root);
            }
            loop
                invariant
                    count == nodes.len(),
                    nodes == self.nodes(),
                    wired(nodes),
                    root < count,
                    roots.finite(),
                    roots.contains(root),
                    to_check@.subset_of(roots.remove(root)),
                    hops <= count,
                    traced(nodes, root, hops, checked@),
                    to_check_this_iteration@.is_empty() ==> ended(nodes, root, hops),
                    !to_check_this_iteration@.is_empty() ==> walk(nodes, root, hops) is Some
                        && to_check_this_iteration@ == set![walk(nodes, root, hops)->0],
                    forall|v: usize|
                        v < count && !to_check@.contains(v) ==> !on_cycle(nodes, v) || exists|
                            j: nat,
                        |
                            j <= hops && #[trigger] walk(nodes, root, j) == Some(v),
                ensures
                    to_check@.subset_of(roots.remove(root)),
                    forall|v: usize| v < count && !to_check@.contains(v) ==> !on_cycle(nodes, v),
                decreases count - hops, to_check_this_iteration@.len(),
            {
                let id = match index_set::any(&to_check_this_iteration) {
                    Some(id) => id,
                    None => {
                        proof {
                            assert forall|v: usize|
                                v < count && !to_check@.contains(v) implies !on_cycle(nodes, v) by {
                                if on_cycle(nodes, v) {
                                    let j = choose|j: nat|
                                        j <= hops && #[trigger] walk(nodes, root, j) == Some(v);
                                    lemma_trace_clears(nodes, root, hops, checked@, j, v);
                                }
                            }
                        }
                        break ;
                    },
                };
                proof {
                    lemma_walk_in_range(nodes, root, hops);
                    assert(to_check_this_iteration@.contains(id));
                    assert(walk(nodes, root, hops) == Some(id));
                }
                index_set::remove(&mut to_check_this_iteration, id);
                assert(to_check_this_iteration@ =~= Set::<usize>::empty());
                if self.components[id].ignore_cyclic() {
                    continue ;
                }
                let ghost passed = checked@;
                if !index_set::insert(&mut checked, id) {
                    proof {
                        lemma_trace_closes(nodes, root, hops, passed, id);
                    }
                    return true;
                }
                proof {
                    lemma_trace_grows(nodes, root, hops, passed, id);
                    lemma_trace_bounded(nodes, root, hops + 1, checked@);
                    self.components()[id as int].typ.lemma_view();
                    assert(sound(nodes, id as int));
                }
                let outputs = self.components[id].get_outputs();
                let ghost seen_before = to_check@;
                let mut slot: usize = 0;
                while slot < outputs.len()
                    invariant
                        outputs@ == seq![self.components()[id as int].typ.output()],
                        slot <= outputs@.len(),
                        nodes[id as int].wire == wire_of(outputs@[0]),
                        nodes[id as int].wire matches Some(w) ==> w.target < count,
                        slot == 0 ==> to_check_this_iteration@ == Set::<usize>::empty()
                            && to_check@ == seen_before,
                        slot == 1 ==> to_check_this_iteration@ == (match nodes[id as int].wire {
                            Some(w) => set![w.target],
                            None => Set::<usize>::empty(),
                        }) && to_check@ == (match nodes[id as int].wire {
                            Some(w) => seen_before.remove(w.target),
                            None => seen_before,
                        }),
                    decreases outputs@.len() - slot,
                {
                    if let Some(output) = outputs[slot] {
                        index_set::insert(&mut to_check_this_iteration, output.component.index());
                        index_set::remove(&mut to_check, output.component.index());
                    }
                    slot += 1;
                }
                proof {
                    hops = hops + 1;
                    assert(walk(nodes, root, hops) == successor(nodes, id));
                    assert forall|v: usize| v < count && !to_check@.contains(v) implies !on_cycle(
                        nodes,
                        v,
                    ) || exists|j: nat| j <= hops && #[trigger] walk(nodes, root, j) == Some(v) by {
                        if !seen_before.contains(v) {
                            if on_cycle(nodes, v) {
                                let j = choose|j: nat|
                                    j <= hops - 1 && #[trigger] walk(nodes, root, j) == Some(v);
                                assert(j <= hops && walk(nodes, root, j) == Some(v));
                            }
                        } else {
                            assert(walk(nodes, root, hops) == Some(v));
                        }
                    }
                }
            }
            proof {
                lemma_len_subset(to_check@, roots.remove(root));
            }
        }
        false
    }

    /// One tick: recomputes pending components, in no particular order, until
    /// none is pending, and tells whether there was anything to do.
    ///
    /// A recomputed `Not` or `Or` writes its signal to the input it drives if
    /// that input differs, and only then is the driven component made pending.
    /// A `Delay` drives the bit it held when the tick began and captures its
    /// input for a later tick; after a capture that changed the held bit it is
    /// left alone for the rest of the tick and is pending when the tick ends.
    ///
    /// The scene must be wired and free of combinational cycles.
    pub fn update(&mut self) -> (worked: bool)
        requires
            old(self).inv(),
            wired(old(self).nodes()),
            !has_cycle(old(self).nodes()),
        ensures
            final(self).inv(),
            worked == !old(self).dirty().is_empty(),
            ticks_to(old(self)@, final(self)@),
            final(self).payloads() == old(self).payloads(),
            same_wiring(old(self).nodes(), final(self).nodes()),
            wired(final(self).nodes()),
            !has_cycle(final(self).nodes()),
            !worked ==> final(self).components() == old(self).components() && final(self).dirty()
                == old(self).dirty(),
    {
        let mut needs_update_next_frame: HashSet<usize> = HashSet::new();
        let had_changes = !index_set::is_empty(&self.changed);
        let count = self.components.len();
        let ghost start = self@.begin();
        let ghost mut order: Seq<usize> = Seq::empty();
        loop
            invariant
                self.inv(),
                self.nodes().len() == count,
                wired(self.nodes()),
                !has_cycle(self.nodes()),
                same_wiring(start.nodes, self.nodes()),
                below(needs_update_next_frame@, self.nodes().len()),
                start.admits(order),
                self.in_tick(needs_update_next_frame@) == start.run(order),
                self.payloads() == old(self).payloads(),
                order.len() == 0 ==> self.components() == old(self).components() && self.dirty()
                    == old(self).dirty() && needs_update_next_frame@ == Set::<usize>::empty(),
                !had_changes ==> order.len() == 0 && self.dirty().is_empty(),
            ensures
                self.dirty().is_empty(),
            decreases potential(self.in_tick(needs_update_next_frame@)),
        {
            let id = match index_set::any(&self.changed) {
                Some(id) => id,
                None => {
                    break ;
                },
            };
            proof {
                lemma_next(start, order, id);
                order = order.push(id);
                assert(sound(self.nodes(), id as int));
            }
            self.recompute(ComponentID(id), &mut needs_update_next_frame);
        }
        proof {
            assert(self.dirty() == Set::<usize>::empty());
            assert(drains(old(self)@, order));
        }
        self.requeue(&needs_update_next_frame);
        proof {
            lemma_same_wiring(start.nodes, self.nodes());
            assert(self@ == start.run(order).finish());
            if order.len() == 0 {
                assert(self.dirty() == old(self).dirty());
            }
        }
        had_changes
    }
}

impl<P: Clone> Clone for Scene<P> {
    /// The copy holds the same logic elements, with clones of their payloads,
    /// and the same components are pending in it.
    fn clone(&self) -> (copy: Self)
        ensures
            copy.nodes() == self.nodes(),
            copy.dirty() == self.dirty(),
            copy.payloads().len() == self.payloads().len(),
            forall|i: int|
                0 <= i < self.payloads().len() ==> cloned(
                    #[trigger] self.payloads()[i],
                    copy.payloads()[i],
                ),
            self.inv() ==> copy.inv(),
    {
        let mut components: Vec<Component<P>> = Vec::new();
        let mut next: usize = 0;
        while next < self.components.len()
            invariant
                next <= self.components@.len(),
                components@.len() == next,
                forall|i: int|
                    0 <= i < next ==> (#[trigger] components@[i]).typ == self.components@[i].typ
                        && cloned(self.components@[i].position, components@[i].position),
            decreases self.components@.len() - next,
        {
            components.push(self.components[next].clone());
            next += 1;
        }
        let mut changed: HashSet<usize> = HashSet::new();
        index_set::extend(&mut changed, &self.changed);
        let copy = Scene { components, changed };
        proof {
            assert(copy.nodes() =~= self.nodes());
            assert(copy.dirty() =~= self.dirty());
        }
        copy
    }
}

impl<'a, P> IntoIterator for &'a Scene<P> {
    type Item = ComponentID;

    type IntoIter = std::vec::IntoIter<ComponentID>;

    /// The handles of all components, in creation order.
    fn into_iter(self) -> (handles: Self::IntoIter)
        ensures
            handles.remaining().len() == self.components().len(),
            forall|i: int|
                0 <= i < handles.remaining().len() ==> (#[trigger] handles.remaining()[i]).index()
                    == i,
    {
        self.ids().into_iter()
    }
}

impl<P> Default for Scene<P> {
    /// An empty scene.
    fn default() -> (scene: Self)
        ensures
            scene.inv(),
            scene.components() == Seq::<Component<P>>::empty(),
            scene.dirty() == Set::<usize>::empty(),
    {
        Scene { components: Vec::new(), changed: HashSet::new() }
    }
}

/// Taking a connection away leaves the others in order.
proof fn lemma_disconnect_keeps_wired(nodes: Seq<Node>, source: usize)
    requires
        wired(nodes),
        source < nodes.len(),
    ensures
        wired(Network { nodes, dirty: Set::empty() }.disconnect(source).nodes),
{
    let after = Network { nodes, dirty: Set::empty() }.disconnect(source).nodes;
    assert(sound(nodes, source as int));
    assert forall|i: int| 0 <= i < after.len() implies #[trigger] sound(after, i) by {
        assert(sound(nodes, i));
    }
}

/// A connection to an existing input slot leaves the network in order.
proof fn lemma_connect_keeps_wired(nodes: Seq<Node>, source: usize, wire: Wire)
    requires
        wired(nodes),
        source < nodes.len(),
        wire.target < nodes.len(),
        wire.slot < nodes[wire.target as int].arity(),
    ensures
        wired(Network { nodes, dirty: Set::empty() }.connect(source, wire).nodes),
{
    let after = Network { nodes, dirty: Set::empty() }.connect(source, wire).nodes;
    assert forall|i: int| 0 <= i < after.len() implies #[trigger] sound(after, i) by {
        assert(sound(nodes, i));
    }
}

/// What one more recomputation adds to a tick that has recomputed `order`.
proof fn lemma_next(start: Tick, order: Seq<usize>, id: usize)
    requires
        start.admits(order),
        start.run(order).dirty.contains(id),
        wired(start.run(order).nodes),
        !has_cycle(start.run(order).nodes),
        same_wiring(start.nodes, start.run(order).nodes),
        start.nodes.len() <= usize::MAX,
        id < start.nodes.len(),
    ensures
        start.admits(order.push(id)),
        start.run(order.push(id)) == start.run(order).step(id),
        wired(start.run(order.push(id)).nodes),
        !has_cycle(start.run(order.push(id)).nodes),
        same_wiring(start.nodes, start.run(order.push(id)).nodes),
        potential(start.run(order.push(id))) < potential(start.run(order)),
{
    let before = start.run(order);
    assert(order.push(id).drop_last() == order);
    lemma_step_descends(before, id);
    lemma_step_keeps_wiring(before, id);
    lemma_same_wiring(before.nodes, before.step(id).nodes);
}


} // verus!
