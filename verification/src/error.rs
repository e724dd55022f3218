//! Error type of the filesystem library.

use vstd::prelude::*;

verus! {

/// `std::io::Error`, carried through unchanged.
#[verifier::external_type_specification]
#[verifier::external_body]
pub struct ExIoError(std::io::Error);

/// `std::path::PathBuf`, carried through unchanged.
#[verifier::external_type_specification]
#[verifier::external_body]
pub struct ExPathBuf(std::path::PathBuf);

/// Errors reported by indexing, searching and query parsing.
#[derive(Debug)]
pub enum FilesystemError {
    Io(std::io::Error),
    PathNotFound(std::path::PathBuf),
    Path(String),
    Index(String),
    QueryParse(String),
    Serialization(String),
    FileTooLarge(std::path::PathBuf),
    NotTextFile(std::path::PathBuf),
    Unsupported(String),
    InvalidInput(String),
    Internal(String),
}

/// Result type of the filesystem library.
pub type Result<T> = std::result::Result<T, FilesystemError>;

/// Builds a query parse error from a message.
pub fn query_error(message: &str) -> (e: FilesystemError)
    ensures
        e matches FilesystemError::QueryParse(m) && m@ == message@,
{
    FilesystemError::QueryParse(message.to_owned())
}

} // verus!
