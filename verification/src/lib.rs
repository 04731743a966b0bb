//! Verified protocol logic for a collection of small network services:
//! byte codecs, framing, state machines and in-memory stores.

pub mod buf;
pub mod endian;
pub mod cipher;
pub mod text;
pub mod lrcp;
pub mod vcs;
pub mod jobs;
pub mod pest;
pub mod speed;
pub mod chat;
pub mod kv;
pub mod mob;
pub mod means;
pub mod prime;
