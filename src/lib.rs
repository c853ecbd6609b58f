//! An ownership registry for non-fungible tokens: who owns which token, who may
//! move it on the owner's behalf, and per-token metadata that a fixed curator
//! may revise after mint. The host supplies the caller and the clock as
//! arguments; events are recorded as plain data for the host to collect.

pub mod identity;
pub mod naming;
pub mod types;
pub mod registry;
