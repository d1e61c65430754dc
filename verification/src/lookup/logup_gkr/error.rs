//! Errors of the lookup argument.
use crate::commit::error::PCSError;
use crate::text::joined;
use vstd::prelude::*;
use vstd::string::*;

verus! {

/// What can go wrong in the lookup argument.
#[derive(Clone, Debug)]
pub enum LogUpError {
    PolynomialError(String),
    ProvingError(String),
    VerifierError(String),
    ParamterError(String),
    PCSError(PCSError),
}

impl LogUpError {
    /// The text of the error.
    pub open spec fn text(self) -> Seq<char> {
        match self {
            LogUpError::PolynomialError(s) => "Polynomial related error: "@ + s@,
            LogUpError::ProvingError(s) => "Error during LogUp proving: "@ + s@,
            LogUpError::VerifierError(s) => "Error while verifying LogUp proof: "@ + s@,
            LogUpError::ParamterError(s) => "Parameters were incorrect: "@ + s@,
            LogUpError::PCSError(e) => "Error occurred with commitments: "@
                + e.debug_text(),
        }
    }

    /// The text of the error.
    pub fn message(&self) -> (r: String)
        ensures
            r@ == self.text(),
    {
        match self {
            LogUpError::PolynomialError(s) => joined("Polynomial related error: ", s.as_str()),
            LogUpError::ProvingError(s) => joined("Error during LogUp proving: ", s.as_str()),
            LogUpError::VerifierError(s) => joined(
                "Error while verifying LogUp proof: ",
                s.as_str(),
            ),
            LogUpError::ParamterError(s) => joined("Parameters were incorrect: ", s.as_str()),
            LogUpError::PCSError(e) => commitment_message(e.debug_message().as_str()),
        }
    }
}

/// The text of an error of the commitments, given its debug notation.
pub fn commitment_message(debug: &str) -> (r: String)
    ensures
        r@ == "Error occurred with commitments: "@ + debug@,
{
    joined("Error occurred with commitments: ", debug)
}

impl From<PCSError> for LogUpError {
    fn from(error: PCSError) -> (r: Self) {
        LogUpError::PCSError(error)
    }
}

impl vstd::std_specs::convert::FromSpecImpl<PCSError> for LogUpError {
    open spec fn obeys_from_spec() -> bool {
        true
    }

    open spec fn from_spec(error: PCSError) -> Self {
        LogUpError::PCSError(error)
    }
}

} // verus!
