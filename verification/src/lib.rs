//! A daemon core for a shared table of named text resources.
//!
//! The library holds the verified logic: the config-text parser, the
//! resource table with its load/merge/set/add/remove/query semantics, and
//! the decision of when a change notification is due.  Transport (the bus),
//! file reading and the external preprocessor live outside the library and
//! hand it plain strings.

pub mod manager;
pub mod parse;
pub mod query;
pub mod store;
pub mod text;
