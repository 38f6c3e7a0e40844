//! Keeps DNS SRV records in a hosted DNS provider in step with the
//! externally reachable (node-port) services of a cluster.
//!
//! The library holds the decisions: which records a service asks for, how
//! they differ from what the provider holds, which zone each change goes to,
//! how record listings are paged, and how the watch loop reacts to events.
//! Talking to the cluster and to the provider is left to the caller.

pub mod discovery;
pub mod kubernetes;
pub mod reconcile;
pub mod route53;
pub mod text;
