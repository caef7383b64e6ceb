//! Ingestion and layout of finite-state transition systems.
//!
//! A textual dump of a state space is parsed into a [`graph::StateSpace`],
//! which is built into a stably indexed display graph with a structurally
//! parallel physics graph. Every executable item carries a contract that is
//! proved against a mathematical model of the data it handles.

pub mod graph;
pub mod layout;
