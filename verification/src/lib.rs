//! A digital logic circuit simulator: a directed graph of gates and wires,
//! re-evaluated on a simulation clock.
//!
//! The crate has three parts:
//! - the circuit graph: nodes, pins and connections, with structural queries
//!   and mutation (`graph`);
//! - the evaluator: a demand-driven, memoizing computation of the boolean
//!   value at any input pin, with feedback cycles resolved deterministically
//!   (`model` holds its mathematical definition, `graph` the executable code);
//! - the simulation clock: a pacing timer that decides when the next tick
//!   fires (`sim`).

pub mod graph;
pub mod laws;
pub mod model;
pub mod node;
pub mod sim;
