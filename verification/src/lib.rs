//! Duplicate-file discovery by content digest: digesting, tree scanning,
//! the digest-keyed index, its text format and the reports derived from it.

pub mod cli;
pub mod error;
pub mod text;
