//! Core error type.
use vstd::prelude::*;

verus! {

/// Errors produced by the consensus core.
#[derive(Debug)]
pub enum CoreError {
    Log(String),
}

impl CoreError {
    /// The error's message: `log inconsistency: ` and its detail.
    pub fn message(&self) -> (s: String)
        ensures
            match self {
                CoreError::Log(detail) => s@ == "log inconsistency: "@ + detail@,
            },
    {
        match self {
            CoreError::Log(detail) => {
                let mut s = String::from_str("log inconsistency: ");
                s.append(detail.as_str());
                s
            },
        }
    }
}

} // verus!
