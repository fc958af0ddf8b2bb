//! Realizing the configuration of a distributed computation on one host.
//!
//! Every participating process holds the same declarative description of the
//! whole system (which relations each logical node feeds from other
//! relations, reads from files, or writes to files) together with the
//! placement of the logical nodes on network addresses. From these, this
//! crate deduces what the local process has to wire up, and drives the
//! wiring:
//!
//! - [`schema`] holds the configuration and its mathematical model;
//! - [`deduce`] deduces the output map, the redirect map and the file sinks
//!   and sources of a node;
//! - [`laws`] states what holds of these deductions on every configuration;
//! - [`wiring`] plans the steps by which a node is realized;
//! - [`realize`] carries a plan out, step by step, on whatever performs the
//!   steps, and [`failure`] says what a failed step is reported as;
//! - [`driver`] realizes every node that is placed at the local address;
//! - [`groups`], [`keys`] and [`walks`] fix the order in which everything is
//!   visited, so that the same configuration is always wired the same way.
//!
//! The crate itself opens no socket and no file: the steps of a plan are
//! performed by the caller. What it computes is pinned down by contracts over
//! mathematical maps, sets and sequences.

pub mod deduce;
pub mod driver;
pub mod failure;
pub mod groups;
pub mod keys;
pub mod laws;
pub mod realize;
pub mod schema;
pub mod walks;
pub mod wiring;

pub use crate::driver::instantiate;
pub use crate::driver::Realization;
