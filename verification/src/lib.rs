//! A minimal topic-based publish/subscribe broker core.
//!
//! The broker's subscription registry, the line protocol, and the
//! per-connection command dispatch are modelled over byte strings and
//! verified; the TCP plumbing around them lives outside the library.

pub mod bytes;
pub mod msg;
pub mod registry;
pub mod broker;
pub mod laws;
pub mod node;
