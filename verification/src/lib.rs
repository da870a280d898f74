//! Total-order multicast: one master collects proposals from workers, picks the
//! proposal with the lowest sequence number and broadcasts it, stamped with the
//! master's Lamport clock; every worker delivers accepted messages in the order
//! of those logical times, starting at 0 and without gaps, holding back any
//! message whose predecessors have not all been delivered yet.
//!
//! This crate holds the decision logic of the master and of the workers as
//! plain, verified state machines. The actor plumbing lives outside it. No
//! operation of the master advances its clock, so every request for
//! proposals, and every broadcast built from the answers, carries time 0;
//! a worker fed only such broadcasts delivers one message and queues the
//! rest under time 0.

pub mod errors;
pub mod master_types;
pub mod worker_types;
pub mod message_queue;
mod randomness;
