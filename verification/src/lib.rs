//! A mark-and-sweep garbage collector exposed as a smart-pointer library.
//!
//! Managed values live in a registry ([`registry::GcAlloc`]) that owns every
//! allocation record. Application code holds [`traceable::Gc`] handles, which
//! vote on rootedness through a per-record root count; a full collection cycle
//! (unmark, mark from the roots, sweep) reclaims every record that is not
//! reachable from a rooted record. Reachability is specified over a ghost
//! graph model ([`graph`]), and the collector is proved to keep exactly the
//! reachable records.

pub mod example;
pub mod graph;
pub mod header;
pub mod registry;
pub mod roots;
pub mod traceable;
