//! Verified core of an in-flight credential injector: the egress
//! classifier that swaps a dummy token for the real one inside TCP
//! payloads, its counters, and the daemon's pure decisions.
pub mod token;
pub mod skb;
pub mod counters;
pub mod intercept;
pub mod laws;
pub mod text;
pub mod report;
pub mod interfaces;
pub mod fault;
