//! A job centre: clients put jobs in named queues, take the most urgent
//! one, and finish or give back what they took.
pub mod codec;
pub mod message;
pub mod centre;
pub mod json;
