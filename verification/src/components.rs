//! The component variants and their input and output slots.

use vstd::prelude::*;
use crate::model::{Kind, Node, Wire};
use crate::scene::ComponentID;

verus! {

/// Taken on trust: `core::array::from_ref` reinterprets a reference to one
/// value as a reference to an array of length one that holds that value.
pub assume_specification<T>[ core::array::from_ref::<T> ](s: &T) -> (r: &[T; 1])
    ensures
        r@ == seq![*s],
;

/// Taken on trust: `core::array::from_mut` reinterprets a mutable reference to
/// one value as a mutable reference to an array of length one.  The array
/// starts out holding that value, and what is left in the array is what the
/// value ends up as.
pub assume_specification<T>[ core::array::from_mut::<T> ](s: &mut T) -> (r: &mut [T; 1])
    ensures
        r@ == seq![*old(s)],
        *final(s) == final(r)@[0],
;

/// One boolean signal stored in an input slot.
#[derive(Clone, Copy)]
pub struct Input {
    pub state: bool,
}

/// The destination of an output: one input slot of one component.
#[derive(Clone, Copy)]
pub struct Output {
    pub component: ComponentID,
    pub index: usize,
}

impl View for Output {
    type V = Wire;

    /// The connection as the model sees it.
    open spec fn view(&self) -> Wire {
        Wire { target: self.component.index(), slot: self.index }
    }
}

/// The wire of an optional output connection.
pub open spec fn wire_of(output: Option<Output>) -> Option<Wire> {
    match output {
        Some(o) => Some(o@),
        None => None,
    }
}

/// A logic element: its variant, its input slots, its output connection and,
/// for a delay, the bit it holds.
pub enum ComponentType {
    /// Inverter: one input, one output.
    Not { input: Input, output: Option<Output> },
    /// Two-input OR gate.
    Or { inputs: [Input; 2], output: Option<Output> },
    /// One-tick register: exposes the input it saw when it was last
    /// recomputed on an earlier tick.
    Delay { input: Input, output: Option<Output>, state_last_frame: bool },
}

impl Clone for ComponentType {
    /// The copy equals the value it was made from.
    fn clone(&self) -> (copy: Self)
        ensures
            copy == *self,
    {
        match self {
            ComponentType::Not { input, output } => ComponentType::Not {
                input: *input,
                output: *output,
            },
            ComponentType::Or { inputs, output } => ComponentType::Or {
                inputs: *inputs,
                output: *output,
            },
            ComponentType::Delay { input, output, state_last_frame } => ComponentType::Delay {
                input: *input,
                output: *output,
                state_last_frame: *state_last_frame,
            },
        }
    }
}

impl View for ComponentType {
    type V = Node;

    /// The logic element as the model sees it.
    open spec fn view(&self) -> Node {
        match *self {
            ComponentType::Not { input, output } => Node {
                kind: Kind::Not,
                in0: input.state,
                in1: false,
                held: false,
                wire: wire_of(output),
            },
            ComponentType::Or { inputs, output } => Node {
                kind: Kind::Or,
                in0: inputs[0].state,
                in1: inputs[1].state,
                held: false,
                wire: wire_of(output),
            },
            ComponentType::Delay { input, output, state_last_frame } => Node {
                kind: Kind::Delay,
                in0: input.state,
                in1: false,
                held: state_last_frame,
                wire: wire_of(output),
            },
        }
    }
}

impl ComponentType {
    /// Whether this is the inverter.
    pub fn is_not(&self) -> (is: bool)
        ensures
            is == (self@.kind is Not),
    {
        match self {
            ComponentType::Not { .. } => true,
            _ => false,
        }
    }

    /// Whether this is the OR gate.
    pub fn is_or(&self) -> (is: bool)
        ensures
            is == (self@.kind is Or),
    {
        match self {
            ComponentType::Or { .. } => true,
            _ => false,
        }
    }

    /// Whether this is the delay.
    pub fn is_delay(&self) -> (is: bool)
        ensures
            is == (self@.kind is Delay),
    {
        match self {
            ComponentType::Delay { .. } => true,
            _ => false,
        }
    }

    /// The fields of an inverter; `None` for the other variants.
    pub fn as_not(&self) -> (fields: Option<(&Input, &Option<Output>)>)
        ensures
            fields is Some == (self@.kind is Not),
            fields matches Some((input, output)) ==> *self == (ComponentType::Not {
                input: *input,
                output: *output,
            }),
    {
        match self {
            ComponentType::Not { input, output } => Some((input, output)),
            _ => None,
        }
    }

    /// The fields of an inverter, for writing; `None` for the other variants.
    pub fn as_not_mut(&mut self) -> (fields: Option<(&mut Input, &mut Option<Output>)>)
        ensures
            fields is Some == (old(self)@.kind is Not),
            fields is None ==> *final(self) == *old(self),
            fields matches Some((input, output)) ==> *old(self) == (ComponentType::Not {
                input: *input,
                output: *output,
            }) && *final(self) == (ComponentType::Not {
                input: *final(input),
                output: *final(output),
            }),
    {
        match self {
            ComponentType::Not { input, output } => Some((input, output)),
            _ => None,
        }
    }

    /// The fields of an inverter; the component itself for the other variants.
    pub fn into_not(self) -> (fields: Result<(Input, Option<Output>), Self>)
        ensures
            fields is Ok == (self@.kind is Not),
            fields matches Ok((input, output)) ==> self == (ComponentType::Not { input, output }),
            fields matches Err(other) ==> other == self,
    {
        match self {
            ComponentType::Not { input, output } => Ok((input, output)),
            other => Err(other),
        }
    }

    /// The fields of an OR gate; `None` for the other variants.
    pub fn as_or(&self) -> (fields: Option<(&[Input; 2], &Option<Output>)>)
        ensures
            fields is Some == (self@.kind is Or),
            fields matches Some((inputs, output)) ==> *self == (ComponentType::Or {
                inputs: *inputs,
                output: *output,
            }),
    {
        match self {
            ComponentType::Or { inputs, output } => Some((inputs, output)),
            _ => None,
        }
    }

    /// The fields of an OR gate, for writing; `None` for the other variants.
    pub fn as_or_mut(&mut self) -> (fields: Option<(&mut [Input; 2], &mut Option<Output>)>)
        ensures
            fields is Some == (old(self)@.kind is Or),
            fields is None ==> *final(self) == *old(self),
            fields matches Some((inputs, output)) ==> *old(self) == (ComponentType::Or {
                inputs: *inputs,
                output: *output,
            }) && *final(self) == (ComponentType::Or {
                inputs: *final(inputs),
                output: *final(output),
            }),
    {
        match self {
            ComponentType::Or { inputs, output } => Some((inputs, output)),
            _ => None,
        }
    }

    /// The fields of an OR gate; the component itself for the other variants.
    pub fn into_or(self) -> (fields: Result<([Input; 2], Option<Output>), Self>)
        ensures
            fields is Ok == (self@.kind is Or),
            fields matches Ok((inputs, output)) ==> self == (ComponentType::Or { inputs, output }),
            fields matches Err(other) ==> other == self,
    {
        match self {
            ComponentType::Or { inputs, output } => Ok((inputs, output)),
            other => Err(other),
        }
    }

    /// The fields of a delay; `None` for the other variants.
    pub fn as_delay(&self) -> (fields: Option<(&Input, &Option<Output>, &bool)>)
        ensures
            fields is Some == (self@.kind is Delay),
            fields matches Some((input, output, held)) ==> *self == (ComponentType::Delay {
                input: *input,
                output: *output,
                state_last_frame: *held,
            }),
    {
        match self {
            ComponentType::Delay { input, output, state_last_frame } => Some(
                (input, output, state_last_frame),
            ),
            _ => None,
        }
    }

    /// The fields of a delay, for writing; `None` for the other variants.
    pub fn as_delay_mut(&mut self) -> (fields: Option<(&mut Input, &mut Option<Output>, &mut bool)>)
        ensures
            fields is Some == (old(self)@.kind is Delay),
            fields is None ==> *final(self) == *old(self),
            fields matches Some((input, output, held)) ==> *old(self) == (ComponentType::Delay {
                input: *input,
                output: *output,
                state_last_frame: *held,
            }) && *final(self) == (ComponentType::Delay {
                input: *final(input),
                output: *final(output),
                state_last_frame: *final(held),
            }),
    {
        match self {
            ComponentType::Delay { input, output, state_last_frame } => Some(
                (input, output, state_last_frame),
            ),
            _ => None,
        }
    }

    /// The fields of a delay; the component itself for the other variants.
    pub fn into_delay(self) -> (fields: Result<(Input, Option<Output>, bool), Self>)
        ensures
            fields is Ok == (self@.kind is Delay),
            fields matches Ok((input, output, held)) ==> self == (ComponentType::Delay {
                input,
                output,
                state_last_frame: held,
            }),
            fields matches Err(other) ==> other == self,
    {
        match self {
            ComponentType::Delay { input, output, state_last_frame } => Ok(
                (input, output, state_last_frame),
            ),
            other => Err(other),
        }
    }

    /// The input slots, in order.
    pub open spec fn inputs(self) -> Seq<Input> {
        match self {
            ComponentType::Not { input, output } => seq![input],
            ComponentType::Or { inputs, output } => inputs@,
            ComponentType::Delay { input, output, state_last_frame } => seq![input],
        }
    }

    /// How the model of a component reads its slots.
    pub proof fn lemma_view(self)
        ensures
            self.inputs().len() == self@.arity(),
            self@.in0 == self.inputs()[0].state,
            self@.in1 == (self@.kind is Or && self.inputs()[1].state),
            !(self@.kind is Delay) ==> !self@.held,
            self@.wire == wire_of(self.output()),
    {
    }

    /// The output connection.
    pub open spec fn output(self) -> Option<Output> {
        match self {
            ComponentType::Not { input, output } => output,
            ComponentType::Or { inputs, output } => output,
            ComponentType::Delay { input, output, state_last_frame } => output,
        }
    }
}

/// A logic element together with a payload that the simulation carries along
/// and never looks at (an editor keeps the element's position there).
pub struct Component<P> {
    pub typ: ComponentType,
    pub position: P,
}

impl<P: Clone> Clone for Component<P> {
    /// The copy is the same logic element; its payload is a clone of the
    /// payload.
    fn clone(&self) -> (copy: Self)
        ensures
            copy.typ == self.typ,
            cloned(self.position, copy.position),
    {
        Component { typ: self.typ.clone(), position: self.position.clone() }
    }
}

impl<P> Component<P> {
    /// The name of the variant.
    pub fn get_name(&self) -> (name: &str)
        ensures
            name@ == self.typ@.kind.name(),
    {
        match &self.typ {
            ComponentType::Not { input: _, output: _ } => "Not",
            ComponentType::Or { inputs: _, output: _ } => "Or",
            ComponentType::Delay { input: _, output: _, state_last_frame: _ } => "Delay",
        }
    }

    /// Whether the search for combinational cycles stops at this component:
    /// true of a `Delay`, whose output does not depend on its present input.
    pub fn ignore_cyclic(&self) -> (ignored: bool)
        ensures
            ignored == !self.typ@.combinational(),
    {
        match &self.typ {
            ComponentType::Delay { input: _, output: _, state_last_frame: _ } => true,
            _ => false,
        }
    }

    /// The input slots as a slice: one for `Not` and `Delay`, two for `Or`.
    pub fn get_inputs(&self) -> (inputs: &[Input])
        ensures
            inputs@ == self.typ.inputs(),
    {
        match &self.typ {
            ComponentType::Not { input, output: _ } => std::array::from_ref(input),
            ComponentType::Or { inputs, output: _ } => inputs,
            ComponentType::Delay { input, output: _, state_last_frame: _ } => std::array::from_ref(
                input,
            ),
        }
    }

    /// The output slots as a slice.  Every variant has exactly one.
    pub fn get_outputs(&self) -> (outputs: &[Option<Output>])
        ensures
            outputs@ == seq![self.typ.output()],
    {
        match &self.typ {
            ComponentType::Not { input: _, output } => std::array::from_ref(output),
            ComponentType::Or { inputs: _, output } => std::array::from_ref(output),
            ComponentType::Delay { input: _, output, state_last_frame: _ } => std::array::from_ref(
                output,
            ),
        }
    }

    /// The output slots, for writing.  The variant, the inputs, the held bit and
    /// the payload stay as they are.
    pub fn get_outputs_mut(&mut self) -> (outputs: &mut [Option<Output>])
        ensures
            outputs@ == seq![old(self).typ.output()],
            final(outputs)@.len() == 1,
            final(self).typ.output() == final(outputs)@[0],
            final(self).typ.inputs() == old(self).typ.inputs(),
            final(self).typ@.kind == old(self).typ@.kind,
            final(self).typ@.held == old(self).typ@.held,
            final(self).position == old(self).position,
    {
        match &mut self.typ {
            ComponentType::Not { input: _, output } => std::array::from_mut(output),
            ComponentType::Or { inputs: _, output } => std::array::from_mut(output),
            ComponentType::Delay { input: _, output, state_last_frame: _ } => std::array::from_mut(
                output,
            ),
        }
    }

    /// The input slots, for writing.  The variant, the output connection, the
    /// held bit and the payload stay as they are.
    pub fn get_inputs_mut(&mut self) -> (inputs: &mut [Input])
        ensures
            inputs@ == old(self).typ.inputs(),
            final(inputs)@.len() == inputs@.len(),
            final(self).typ.inputs() == final(inputs)@,
            final(self).typ.output() == old(self).typ.output(),
            final(self).typ@.kind == old(self).typ@.kind,
            final(self).typ@.held == old(self).typ@.held,
            final(self).position == old(self).position,
    {
        match &mut self.typ {
            ComponentType::Not { input, output: _ } => std::array::from_mut(input),
            ComponentType::Or { inputs, output: _ } => inputs,
            ComponentType::Delay { input, output: _, state_last_frame: _ } => std::array::from_mut(
                input,
            ),
        }
    }
}

} // verus!
