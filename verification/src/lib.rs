//! An in-memory, multi-tenant event bus.
//!
//! Clients create named apps, each holding named channels; events are
//! published into a channel, recorded in an append-only log, and fanned out
//! to subscribers through a bounded, lossy broadcast ring. Users own their
//! subscriptions; deleting a user cancels all of them.
//!
//! The crate is a pure state machine: every operation is a function from the
//! bus state (and an input) to the next state and a result. Transports,
//! timers and task scheduling live with the caller, which drives the worker
//! and subscription steps explicitly.

pub mod bus;
pub mod engine;
pub mod event;
pub mod laws;
pub mod subscription;
