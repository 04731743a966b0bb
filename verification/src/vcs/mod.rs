//! A versioned file store: files under directories, each file a list of
//! releases, and the text commands that clients speak to it.
pub mod path;
pub mod store;
pub mod command;
pub mod order;
