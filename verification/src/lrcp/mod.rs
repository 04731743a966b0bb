//! The Line Reversal Control Protocol: its packets and the decisions of a
//! session.
pub mod packets;
pub mod session;
pub mod reversal;
