//! Static concurrency analysis for declarative, priority-preemptive
//! real-time applications distributed over one or more cores.
//!
//! An application declares resources, interrupt-bound hardware tasks,
//! message-dispatched software tasks, one init routine per core and an
//! optional idle routine per core ([`ast::App`]). Before any code runs,
//! this engine derives a complete concurrency plan: who owns each
//! resource and what synchronization it needs (the Immediate Priority
//! Ceiling Protocol, computed entirely ahead of time), which core
//! initializes each late resource and which cores must wait on which,
//! which payload types must be safe to hand across execution contexts,
//! and the message channels, free queues and timer queues with their
//! ceilings and capacities.
//!
//! [`check::app`] validates a model and rejects ill-formed applications;
//! [`analyze::app`] turns a validated model into an [`analyze::Analysis`]
//! record.

pub mod analyze;
pub mod ast;
pub mod check;
pub mod late;
pub mod ownership;
pub mod resources;
pub mod send;
pub mod sets;
pub mod topology;
