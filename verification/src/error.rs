//! The error type returned by rotation.

use vstd::prelude::*;

verus! {

/// Why a rotation request was rejected before any file was touched.
#[non_exhaustive]
#[derive(Debug)]
pub enum FileRotationError {
    /// The configured path cannot denote a file: it ends in a path
    /// separator, or no usable file name can be derived from it.
    /// Carries the offending path.
    NotAFile(String),
    /// Reading the target directory's listing failed.  Carries the
    /// message of the underlying I/O failure.
    Io(String),
}

impl FileRotationError {
    /// A human-readable description of the error.
    pub fn message(&self) -> (r: String)
        ensures
            match self {
                FileRotationError::NotAFile(p) => r@ == "FileRotation: not a file: "@ + p@,
                FileRotationError::Io(m) => r@ == "FileRotation io error: "@ + m@,
            },
    {
        match self {
            FileRotationError::NotAFile(p) => {
                let r = String::from_str("FileRotation: not a file: ");
                r.concat(p.as_str())
            },
            FileRotationError::Io(m) => {
                let r = String::from_str("FileRotation io error: ");
                r.concat(m.as_str())
            },
        }
    }
}

} // verus!
