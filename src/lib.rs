//! A multicast DNS service-discovery engine: a wire codec for DNS messages,
//! a registry of local services and discovered nodes, and the rules that
//! build advertisements, answer queries and absorb responses.

pub mod codec;
pub mod error;
pub mod registry;
pub mod text;
pub mod engine;
