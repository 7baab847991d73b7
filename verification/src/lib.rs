//! A verified FM-Index: a full-text index built on the Burrows-Wheeler
//! Transform, supporting exact pattern counting and range queries through
//! backward search over rank tables.

pub mod counting;
pub mod index;
pub mod laws;
pub mod lex;
pub mod perm;
