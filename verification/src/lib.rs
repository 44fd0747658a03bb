//! Simulation of a small cluster: resource-aware placement of processes on
//! nodes, a timestamped request/reply handshake for mutual exclusion over a
//! shared resource, and majority voting over administrative actions.
//!
//! `session` holds the coordinator and `node` the participants; `model`
//! describes a session's state and its transitions, over which the
//! contracts are stated; `laws` proves what holds of every session, on
//! the facts in `lemmas`.

pub mod action_map;
pub mod laws;
pub mod lemmas;
pub mod message;
pub mod model;
pub mod node;
pub mod process;
pub mod recurso;
pub mod resource;
pub mod sequences;
pub mod session;
pub mod task;
