//! The building blocks of the command-line tools.

pub mod fs;
pub mod io;
