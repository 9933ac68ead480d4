//! The error type of the codec.

use vstd::prelude::*;

verus! {

/// Error variants returned by the codec.
#[derive(Debug, Clone, PartialEq, Eq)]
pub enum HdrError {
    /// The byte stream is malformed.
    InvalidData(String),
    /// The byte stream or the request uses a feature this codec does not
    /// implement.
    Unsupported(String),
    /// The resolution line declares a picture larger than the configured
    /// limits.
    TooLarge(String),
}

impl HdrError {
    /// An [`HdrError::InvalidData`] carrying `msg`.
    pub fn invalid(msg: &str) -> (e: HdrError)
        ensures
            e matches HdrError::InvalidData(s) && s@ == msg@,
    {
        HdrError::InvalidData(msg.to_owned())
    }

    /// An [`HdrError::Unsupported`] carrying `msg`.
    pub fn unsupported(msg: &str) -> (e: HdrError)
        ensures
            e matches HdrError::Unsupported(s) && s@ == msg@,
    {
        HdrError::Unsupported(msg.to_owned())
    }

    /// An [`HdrError::TooLarge`] carrying `msg`.
    pub fn too_large(msg: &str) -> (e: HdrError)
        ensures
            e matches HdrError::TooLarge(s) && s@ == msg@,
    {
        HdrError::TooLarge(msg.to_owned())
    }

    /// The message the error carries.
    pub fn message(&self) -> (r: &String)
        ensures
            r == match self {
                HdrError::InvalidData(s) => s,
                HdrError::Unsupported(s) => s,
                HdrError::TooLarge(s) => s,
            },
    {
        match self {
            HdrError::InvalidData(s) => s,
            HdrError::Unsupported(s) => s,
            HdrError::TooLarge(s) => s,
        }
    }
}

} // verus!
