//! The speed-limit service: its wire messages, and the routing of tickets
//! to the dispatchers that cover their roads.
pub mod wire;
pub mod registry;
pub mod client;
