//! A simulator for relay computers, driven at the level of individual coils
//! and switches.
//!
//! A [`CircuitBuilder`] collects coils, switches and named nodes through
//! sub-circuits that share one set of names; `finalize` turns it into a
//! [`Circuit`], which is advanced one relay step at a time. In each step
//! voltage floods from the driven nodes and the ground rail `G` through the
//! closed switches; the coils it reaches flip their switches at the end of
//! the step.

pub mod builder;
pub mod circuit;
pub mod common;
pub mod graph;
pub mod handle;
pub mod labels;
pub mod text;

pub use builder::{CircuitBuilder, SubcircuitBuilder};
pub use circuit::{Circuit, Coil, Switch, SwitchId};
pub use common::{gate, gate_const, gate_const_into, gate_into};
pub use handle::{Bus, Handle};
pub use labels::NodeId;
