//! Routing by remote configuration: a periodically refreshed routing
//! configuration is kept in a shared store, and each request is routed to one
//! of two destinations by evaluating a numeric comparison expression with
//! caller-supplied substitutions.

pub mod laws;
pub mod sink_config;
pub mod text;
