//! A NEAT (NeuroEvolution of Augmenting Topologies) toolkit: innovation bookkeeping,
//! genome topology mutation, crossover and the integer side of network construction.
pub mod crossover;
pub mod eval;
pub mod genome;
pub mod marks;
pub mod network;
pub mod playground;
pub mod random;
pub mod reproduce;
pub mod scenario;
pub mod serialize;
pub mod tui;

use vstd::prelude::*;

verus! {

/// Topology marker: network or genome allows recurrent (cyclic) connections.
pub trait Recurrent {}

/// Topology marker: network or genome guarantees acyclic (feedforward) connections.
pub trait Forward {}

} // verus!
