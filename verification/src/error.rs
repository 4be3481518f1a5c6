//! The errors that cross the boundary to Python, as plain values.

use vstd::prelude::*;

verus! {

/// An error of the library, with the message of its cause.
#[derive(Debug)]
pub enum PyRattlerError {
    /// A version did not parse.
    InvalidVersion(String),
    /// A match specification did not parse.
    InvalidMatchSpec(String),
    /// A package name is not valid.
    InvalidPackageName(String),
    /// Reading or writing failed.
    IoError(String),
    /// Repository data could not be fetched.
    FetchRepoDataError(String),
    /// The platform directory of a package could not be told from its index.
    ConvertSubdirError(String),
    /// Anything else.
    Unknown,
}

/// The exception that an error is raised as.
#[derive(Clone, Copy, Debug, PartialEq, Eq, Structural)]
pub enum PyExceptionKind {
    /// `InvalidVersionError`.
    InvalidVersion,
    /// `InvalidMatchSpecError`.
    InvalidMatchSpec,
    /// `InvalidPackageNameError`.
    InvalidPackageName,
    /// `IoError`.
    Io,
    /// `FetchRepoDataError`.
    FetchRepoData,
    /// `ConvertSubdirError`.
    ConvertSubdir,
    /// The exception for unknown errors.
    Unknown,
}

impl PyRattlerError {
    /// The message of the error: the message of its cause, or
    /// `Unknown Error`.
    pub open spec fn message_text(&self) -> Seq<char> {
        match self {
            PyRattlerError::InvalidVersion(m) => m@,
            PyRattlerError::InvalidMatchSpec(m) => m@,
            PyRattlerError::InvalidPackageName(m) => m@,
            PyRattlerError::IoError(m) => m@,
            PyRattlerError::FetchRepoDataError(m) => m@,
            PyRattlerError::ConvertSubdirError(m) => m@,
            PyRattlerError::Unknown => "Unknown Error"@,
        }
    }

    /// The exception that the error is raised as.
    pub open spec fn kind(&self) -> PyExceptionKind {
        match self {
            PyRattlerError::InvalidVersion(_) => PyExceptionKind::InvalidVersion,
            PyRattlerError::InvalidMatchSpec(_) => PyExceptionKind::InvalidMatchSpec,
            PyRattlerError::InvalidPackageName(_) => PyExceptionKind::InvalidPackageName,
            PyRattlerError::IoError(_) => PyExceptionKind::Io,
            PyRattlerError::FetchRepoDataError(_) => PyExceptionKind::FetchRepoData,
            PyRattlerError::ConvertSubdirError(_) => PyExceptionKind::ConvertSubdir,
            PyRattlerError::Unknown => PyExceptionKind::Unknown,
        }
    }

    /// The message of the error.
    pub fn message(&self) -> (text: String)
        ensures
            text@ == self.message_text(),
    {
        match self {
            PyRattlerError::InvalidVersion(m) => m.clone(),
            PyRattlerError::InvalidMatchSpec(m) => m.clone(),
            PyRattlerError::InvalidPackageName(m) => m.clone(),
            PyRattlerError::IoError(m) => m.clone(),
            PyRattlerError::FetchRepoDataError(m) => m.clone(),
            PyRattlerError::ConvertSubdirError(m) => m.clone(),
            PyRattlerError::Unknown => "Unknown Error".to_owned(),
        }
    }

    /// The exception to raise for the error, and its message.
    pub fn into_exception(self) -> (raised: (PyExceptionKind, String))
        ensures
            raised.0 == self.kind(),
            raised.1@ == self.message_text(),
    {
        match self {
            PyRattlerError::InvalidVersion(m) => (PyExceptionKind::InvalidVersion, m),
            PyRattlerError::InvalidMatchSpec(m) => (PyExceptionKind::InvalidMatchSpec, m),
            PyRattlerError::InvalidPackageName(m) => (PyExceptionKind::InvalidPackageName, m),
            PyRattlerError::IoError(m) => (PyExceptionKind::Io, m),
            PyRattlerError::FetchRepoDataError(m) => (PyExceptionKind::FetchRepoData, m),
            PyRattlerError::ConvertSubdirError(m) => (PyExceptionKind::ConvertSubdir, m),
            PyRattlerError::Unknown => (PyExceptionKind::Unknown, "Unknown Error".to_owned()),
        }
    }
}

} // verus!
