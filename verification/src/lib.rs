//! A discrete-event simulator for networks of digital-logic components.
//!
//! A [`Scene`] owns an append-only store of [`Component`]s (inverters, two-input
//! OR gates and one-tick delays) together with the set of components that wait
//! for recomputation.  Components are wired output-to-input by position;
//! feedback is legal as long as every loop passes through a delay.
//!
//! [`Scene::update`] carries out one tick: it recomputes pending components
//! until none is pending.  [`Scene::has_cyclic_dependency`] tells whether the
//! wiring has a loop that passes through no delay, which a tick cannot handle.
//!
//! Every function is verified against the model in [`model`]:
//!
//! - [`components`] and [`scene`] hold the executable types and functions;
//! - [`model`] says what a network is and what a tick does to it;
//! - [`laws`] states what holds of every tick, whatever the order in which the
//!   pending components are recomputed;
//! - [`paths`], [`search`], [`effects`], [`progress`], [`depth`] and [`sums`]
//!   hold the lemmas behind the cycle search, the termination of a tick and the
//!   laws.

pub mod components;
pub mod depth;
pub mod effects;
mod index_set;
pub mod laws;
pub mod model;
pub mod paths;
pub mod progress;
pub mod scene;
pub mod search;
pub mod sums;

pub use components::{Component, ComponentType, Input, Output};
pub use scene::{ComponentID, Scene};
