//! A date-partitioned record store for scheduling playlists.
//!
//! A calendar date (`YYYY-MM-DD`) is mapped to a playlist document stored
//! under a year/month-partitioned directory tree. The crate provides
//! lexical, root-confined resolution of untrusted candidate paths, the
//! date-keyed layout convention, a store with conflict detection, and the
//! pure steps of playlist generation (template path sanitisation and
//! interpretation of the generator's output).

pub mod document;
pub mod generate;
pub mod layout;
pub mod outcome;
pub mod path;
pub mod store;
