//! The failures that the library and the tools around it report.

use vstd::prelude::*;

verus! {

/// `std::io::Error`, carried through as it came.
#[verifier::external_type_specification]
#[verifier::external_body]
pub struct ExIoError(std::io::Error);

/// `std::fmt::Error`, carried through as it came.
#[verifier::external_type_specification]
#[verifier::external_body]
pub struct ExFmtError(std::fmt::Error);

/// What can go wrong.
#[derive(Debug)]
pub enum Error {
    /// A read, write, seek, metadata lookup or directory listing failed.
    IoError(std::io::Error),
    /// Output could not be formatted.
    FmtError(std::fmt::Error),
    /// The logger could not be set up.
    LogError(String),
    /// The path does not point at a directory.
    NotADir(String),
    /// The path does not point at a regular file.
    NotAFile(String),
    /// The index text is malformed; the message names the line.
    InvalidFormat(String),
}

impl Error {
    /// The text that describes this error to a user.
    pub open spec fn spec_message(&self) -> Seq<char> {
        match self {
            Error::IoError(_) => "io error"@,
            Error::FmtError(_) => "fmt error"@,
            Error::LogError(m) => "log error "@ + m@,
            Error::NotADir(_) => "not a directory path"@,
            Error::NotAFile(_) => "not a file path"@,
            Error::InvalidFormat(m) => "invalid file format "@ + m@,
        }
    }

    /// The text that describes this error to a user.
    pub fn message(&self) -> (text: String)
        ensures
            text@ == self.spec_message(),
    {
        match self {
            Error::IoError(_) => String::from_str("io error"),
            Error::FmtError(_) => String::from_str("fmt error"),
            Error::LogError(m) => String::from_str("log error ").concat(m.as_str()),
            Error::NotADir(_) => String::from_str("not a directory path"),
            Error::NotAFile(_) => String::from_str("not a file path"),
            Error::InvalidFormat(m) => String::from_str("invalid file format ").concat(m.as_str()),
        }
    }
}

} // verus!
