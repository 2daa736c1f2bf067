//! The mathematical model of a network: what every contract of this crate
//! speaks about.

use vstd::prelude::*;

verus! {

/// The three kinds of logic element.
pub enum Kind {
    Not,
    Or,
    Delay,
}

/// A connection from an output to one input slot of a component.
pub struct Wire {
    /// Position of the driven component in the scene.
    pub target: usize,
    /// Input slot of that component.
    pub slot: usize,
}

/// The state of one logic element.
pub struct Node {
    pub kind: Kind,
    /// Input slot 0.
    pub in0: bool,
    /// Input slot 1.  Only an `Or` has it; it is `false` for the other kinds.
    pub in1: bool,
    /// The bit a `Delay` captured when it was last recomputed; `false` for the
    /// other kinds.
    pub held: bool,
    /// Where the output is connected, if anywhere.
    pub wire: Option<Wire>,
}

impl Kind {
    /// The name of the kind.
    pub open spec fn name(self) -> Seq<char> {
        match self {
            Kind::Not => "Not"@,
            Kind::Or => "Or"@,
            Kind::Delay => "Delay"@,
        }
    }
}

impl Node {
    /// Number of input slots.
    pub open spec fn arity(self) -> nat {
        if self.kind is Or {
            2
        } else {
            1
        }
    }

    /// The value stored in input slot `slot`.
    pub open spec fn input(self, slot: int) -> bool {
        if slot == 0 {
            self.in0
        } else {
            self.in1
        }
    }

    /// This node with input slot `slot` set to `state`.
    pub open spec fn with_input(self, slot: int, state: bool) -> Node {
        if slot == 0 {
            Node { in0: state, ..self }
        } else {
            Node { in1: state, ..self }
        }
    }

    /// `Not` and `Or` compute their output from their present inputs alone.
    pub open spec fn combinational(self) -> bool {
        !(self.kind is Delay)
    }

    /// The value this node drives onto its output: the negated input of a
    /// `Not`, the disjunction of the inputs of an `Or`, the held bit of a
    /// `Delay`.
    pub open spec fn signal(self) -> bool {
        match self.kind {
            Kind::Not => !self.in0,
            Kind::Or => self.in0 || self.in1,
            Kind::Delay => self.held,
        }
    }

    /// A `Delay` after it has captured its present input.
    pub open spec fn capture(self) -> Node {
        Node { held: self.in0, ..self }
    }
}

/// Every member of `set` is a position below `len`.
pub open spec fn below(set: Set<usize>, len: nat) -> bool {
    forall|i: usize| set.contains(i) ==> i < len
}

/// The connection of component `i`, if it has one, leads to an existing input
/// slot of an existing component.
pub open spec fn sound(nodes: Seq<Node>, i: int) -> bool {
    nodes[i].wire matches Some(w) ==> w.target < nodes.len() && w.slot
        < nodes[w.target as int].arity()
}

/// Every connection leads to an existing input slot of an existing component.
pub open spec fn wired(nodes: Seq<Node>) -> bool {
    forall|i: int| 0 <= i < nodes.len() ==> #[trigger] sound(nodes, i)
}

/// Two networks with the same components, kind by kind, connected alike.
pub open spec fn same_wiring(a: Seq<Node>, b: Seq<Node>) -> bool {
    &&& a.len() == b.len()
    &&& forall|i: int|
        0 <= i < a.len() ==> (#[trigger] a[i]).kind == b[i].kind && a[i].wire == b[i].wire
}

/// The component that `c` drives in the same instant: the target of its
/// output, provided `c` is combinational.  A `Delay` drives nothing in the same
/// instant, since what it exposes was captured on an earlier tick.
pub open spec fn successor(nodes: Seq<Node>, c: usize) -> Option<usize> {
    if c < nodes.len() && nodes[c as int].combinational() {
        match nodes[c as int].wire {
            Some(w) => Some(w.target),
            None => None,
        }
    } else {
        None
    }
}

/// Where `steps` instantaneous hops from `c` lead, if the path is that long.
pub open spec fn walk(nodes: Seq<Node>, c: usize, steps: nat) -> Option<usize>
    decreases steps,
{
    if steps == 0 {
        Some(c)
    } else {
        match successor(nodes, c) {
            Some(t) => walk(nodes, t, (steps - 1) as nat),
            None => None,
        }
    }
}

/// Component `c` reaches itself through `Not` and `Or` components only.
pub open spec fn on_cycle(nodes: Seq<Node>, c: usize) -> bool {
    exists|steps: nat| steps > 0 && walk(nodes, c, steps) == Some(c)
}

/// Some component lies on a combinational cycle.
pub open spec fn has_cycle(nodes: Seq<Node>) -> bool {
    exists|c: usize| c < nodes.len() && on_cycle(nodes, c)
}

/// No component but `c` is connected to the input that `c` drives.
pub open spec fn drives_alone(nodes: Seq<Node>, c: usize) -> bool {
    forall|i: int|
        0 <= i < nodes.len() && i != c ==> (#[trigger] nodes[i]).wire != nodes[c as int].wire
}

/// No component is connected to input `slot` of component `target`.
pub open spec fn undriven(nodes: Seq<Node>, target: usize, slot: usize) -> bool {
    forall|i: int|
        0 <= i < nodes.len() ==> (#[trigger] nodes[i]).wire != Some(Wire { target, slot })
}

/// Every connected output is the only one connected to its input.
pub open spec fn one_driver_each(nodes: Seq<Node>) -> bool {
    forall|c: usize|
        c < nodes.len() && nodes[c as int].wire is Some ==> #[trigger] drives_alone(nodes, c)
}

/// The input that `c` drives, if it drives one, holds the signal of `c`.
pub open spec fn agrees(nodes: Seq<Node>, c: usize) -> bool {
    nodes[c as int].wire matches Some(w) ==> nodes[w.target as int].input(w.slot as int)
        == nodes[c as int].signal()
}

/// A network at rest, between two ticks.
pub struct Network {
    /// The components, in creation order.
    pub nodes: Seq<Node>,
    /// Positions of the components that await recomputation.
    pub dirty: Set<usize>,
}

/// Every component that is not pending agrees with the input it drives: no
/// change has gone unnoticed.
pub open spec fn noticed(net: Network) -> bool {
    forall|c: usize|
        c < net.nodes.len() && !net.dirty.contains(c) ==> #[trigger] agrees(net.nodes, c)
}

/// A network in the middle of a tick.
pub struct Tick {
    pub nodes: Seq<Node>,
    /// Positions of the components that still await recomputation in this tick.
    pub dirty: Set<usize>,
    /// The delays that have captured a changed bit in this tick.  They are
    /// left alone until the tick is over and are pending again on the next.
    pub latched: Set<usize>,
}

impl Network {
    /// The network after the output of `source` was disconnected: the input
    /// that it drove, if any, is back at `false`, and its owner is pending, as is
    /// `source`.
    pub open spec fn disconnect(self, source: usize) -> Network {
        match self.nodes[source as int].wire {
            Some(w) => {
                let reset = self.nodes.update(
                    w.target as int,
                    self.nodes[w.target as int].with_input(w.slot as int, false),
                );
                Network {
                    nodes: reset.update(source as int, Node { wire: None, ..reset[source as int] }),
                    dirty: self.dirty.insert(source).insert(w.target),
                }
            },
            None => Network { nodes: self.nodes, dirty: self.dirty.insert(source) },
        }
    }

    /// The network after the output of `source`, so far unconnected, was
    /// connected along `wire`.  `source` is pending.
    pub open spec fn connect(self, source: usize, wire: Wire) -> Network {
        Network {
            nodes: self.nodes.update(
                source as int,
                Node { wire: Some(wire), ..self.nodes[source as int] },
            ),
            dirty: self.dirty.insert(source),
        }
    }

    /// The state in which a tick starts.
    pub open spec fn begin(self) -> Tick {
        Tick { nodes: self.nodes, dirty: self.dirty, latched: Set::empty() }
    }
}

impl Tick {
    /// The state in which a tick leaves the network.
    pub open spec fn finish(self) -> Network {
        Network { nodes: self.nodes, dirty: self.dirty.union(self.latched) }
    }

    /// Component `source` drives `signal` along `wire`: the input at the far end
    /// is written only if it differs, and only then is its owner made pending.
    /// A delay that feeds itself is not made pending by its own write.
    pub open spec fn deliver(self, source: usize, wire: Option<Wire>, signal: bool) -> Tick {
        match wire {
            Some(w) => {
                let target = self.nodes[w.target as int];
                if target.input(w.slot as int) != signal {
                    Tick {
                        nodes: self.nodes.update(
                            w.target as int,
                            target.with_input(w.slot as int, signal),
                        ),
                        dirty: if w.target == source && !self.nodes[source as int].combinational() {
                            self.dirty
                        } else {
                            self.dirty.insert(w.target)
                        },
                        latched: self.latched,
                    }
                } else {
                    self
                }
            },
            None => self,
        }
    }

    /// Recomputing the pending component `id`.
    ///
    /// A `Not` or an `Or` drives its present signal.  A `Delay` that has not
    /// captured a changed bit in this tick captures its present input, and
    /// drives the bit it held before; one that has is skipped.
    pub open spec fn step(self, id: usize) -> Tick {
        let node = self.nodes[id as int];
        let rest = Tick { dirty: self.dirty.remove(id), ..self };
        if node.combinational() {
            rest.deliver(id, node.wire, node.signal())
        } else if self.latched.contains(id) {
            rest
        } else {
            Tick {
                nodes: self.nodes.update(id as int, node.capture()),
                dirty: rest.dirty,
                latched: if node.in0 != node.held {
                    self.latched.insert(id)
                } else {
                    self.latched
                },
            }.deliver(id, node.wire, node.held)
        }
    }

    /// The state after the components at `order` were recomputed one after
    /// the other.
    pub open spec fn run(self, order: Seq<usize>) -> Tick
        decreases order.len(),
    {
        if order.len() == 0 {
            self
        } else {
            self.run(order.drop_last()).step(order.last())
        }
    }

    /// Each component of `order` was pending when its turn came.
    pub open spec fn admits(self, order: Seq<usize>) -> bool
        decreases order.len(),
    {
        order.len() == 0 || (self.admits(order.drop_last()) && self.run(
            order.drop_last(),
        ).dirty.contains(order.last()))
    }
}

/// `order` is a way to carry out one tick on `before`: it recomputes pending
/// components only, and goes on until none is pending.
pub open spec fn drains(before: Network, order: Seq<usize>) -> bool {
    &&& before.begin().admits(order)
    &&& before.begin().run(order).dirty == Set::<usize>::empty()
}

/// `after` is what one tick can make of `before`.  The order in which pending
/// components are recomputed is not fixed, so there may be several outcomes.
pub open spec fn ticks_to(before: Network, after: Network) -> bool {
    exists|order: Seq<usize>| #[trigger]
        drains(before, order) && after == before.begin().run(order).finish()
}

} // verus!
