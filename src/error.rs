use vstd::prelude::*;
use crate::ebml::{EbmlError, WriteError};

verus! {

/// Errors of the streaming pipeline.
#[derive(Debug, Clone, PartialEq, Eq)]
pub enum WebmetroError {
    /// a buffer grew past its hard cap
    ResourcesExceeded,
    /// the input is not well-formed EBML
    EbmlError { source: EbmlError },
    /// a value could not be written as EBML
    WriteError { cause: WriteError },
    /// startup or configuration failed
    ApplicationError { message: String },
}

impl WebmetroError {
    /// An application error with the given message.
    pub fn from_message(message: &str) -> (r: WebmetroError)
        ensures
            r matches WebmetroError::ApplicationError { message: m } && m@ == message@,
    {
        WebmetroError::ApplicationError { message: message.to_string() }
    }
}

} // verus!
