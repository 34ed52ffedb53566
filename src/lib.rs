//! A read-only catalog of media entries kept as one JSON file per entry.
//!
//! The library decides which files of a collection are entries, turns the text
//! of each into an [`record::Entry`], encodes and decodes durations, and orders
//! listings; reading directories and files is left to the caller.

pub mod digits;
pub mod duration;
pub mod json;
pub mod record;
pub mod catalog;
