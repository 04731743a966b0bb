//! A chat room over lines of text: users pick a name, see who is present,
//! and exchange messages; the others hear of each arrival and departure.
pub mod room;
pub mod client;
