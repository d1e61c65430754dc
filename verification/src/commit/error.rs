//! Errors of commitments.
use crate::text::{joined, quote, quoted};
use vstd::prelude::*;
use vstd::string::*;

verus! {

/// Errors that can occur when dealing with commitments while a model is proved or verified.
#[derive(Clone, Debug)]
pub enum PCSError {
    /// Incorrect parameters were provided.
    ParameterError(String),
    /// The commitment scheme failed. Holds what it said.
    MPCSError(String),
}

impl PCSError {
    /// The text of the error.
    pub open spec fn text(self) -> Seq<char> {
        match self {
            PCSError::ParameterError(s) => "Commitment Error: Incorrect Parameters: "@ + s@,
            PCSError::MPCSError(e) => "Error in mpcs crate method, internal error: "@ + e@,
        }
    }

    /// The error in debug notation.
    pub open spec fn debug_text(self) -> Seq<char> {
        match self {
            PCSError::ParameterError(s) => "ParameterError("@ + quoted(s@) + ")"@,
            PCSError::MPCSError(e) => "MPCSError("@ + e@ + ")"@,
        }
    }

    /// The error in debug notation.
    pub fn debug_message(&self) -> (r: String)
        ensures
            r@ == self.debug_text(),
    {
        match self {
            PCSError::ParameterError(s) => joined(
                joined("ParameterError(", quote(s.as_str()).as_str()).as_str(),
                ")",
            ),
            PCSError::MPCSError(e) => joined(joined("MPCSError(", e.as_str()).as_str(), ")"),
        }
    }

    /// The text of the error.
    pub fn message(&self) -> (r: String)
        ensures
            r@ == self.text(),
    {
        match self {
            PCSError::ParameterError(s) => joined(
                "Commitment Error: Incorrect Parameters: ",
                s.as_str(),
            ),
            PCSError::MPCSError(e) => joined(
                "Error in mpcs crate method, internal error: ",
                e.as_str(),
            ),
        }
    }
}

} // verus!
