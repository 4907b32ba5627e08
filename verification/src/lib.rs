//! Synchronizes a pipe-delimited markdown table, embedded in a document, into
//! a key-value store: one table column supplies each record's key, the other
//! columns its field/value pairs.
#![verifier::loop_isolation(false)]

pub mod config;
pub mod pipeline;
pub mod table;
pub mod text;
