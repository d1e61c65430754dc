//! Errors of the operations of a model.
use crate::commit::error::PCSError;
use crate::text::joined;
use vstd::prelude::*;
use vstd::string::*;

verus! {

/// What can go wrong in an operation that can be proved.
#[derive(Debug)]
pub enum ProvableOpError {
    /// The parameters of a function are incorrect, for instance their number.
    ParameterError(String),
    /// Types do not line up, for example if a constant tensor cannot be cast into the right type.
    TypeError(String),
    /// A conversion between types failed.
    ConversionError(String),
    /// Any other error.
    GenericError(String),
    /// A layer that cannot be proved was to be proved or verified.
    NotProvableLayer(String),
    /// The ONNX model could not be parsed.
    OnnxParsingError(String),
    /// A polynomial commitment failed.
    PCSError(PCSError),
}

impl ProvableOpError {
    /// The text of the error.
    pub open spec fn text(self) -> Seq<char> {
        match self {
            ProvableOpError::ParameterError(s) => "Incorrect parameters passed to ProvableOp: "@
                + s@,
            ProvableOpError::TypeError(s) => "Incompatible type used in ProvableOp: "@ + s@,
            ProvableOpError::ConversionError(s) => "Provable Op conversion error: "@ + s@,
            ProvableOpError::GenericError(s) => "ProvableOp generic error: "@ + s@,
            ProvableOpError::NotProvableLayer(s) =>
                "Trying to prove or verify a non provable layer: "@ + s@,
            ProvableOpError::OnnxParsingError(s) => "Error parsing ONNX model: "@ + s@,
            ProvableOpError::PCSError(e) => "Commitment Error: "@ + e.text(),
        }
    }

    /// The text of the error.
    pub fn message(&self) -> (r: String)
        ensures
            r@ == self.text(),
    {
        match self {
            ProvableOpError::ParameterError(s) => joined(
                "Incorrect parameters passed to ProvableOp: ",
                s.as_str(),
            ),
            ProvableOpError::TypeError(s) => joined(
                "Incompatible type used in ProvableOp: ",
                s.as_str(),
            ),
            ProvableOpError::ConversionError(s) => joined(
                "Provable Op conversion error: ",
                s.as_str(),
            ),
            ProvableOpError::GenericError(s) => joined("ProvableOp generic error: ", s.as_str()),
            ProvableOpError::NotProvableLayer(s) => joined(
                "Trying to prove or verify a non provable layer: ",
                s.as_str(),
            ),
            ProvableOpError::OnnxParsingError(s) => joined(
                "Error parsing ONNX model: ",
                s.as_str(),
            ),
            ProvableOpError::PCSError(e) => joined("Commitment Error: ", e.message().as_str()),
        }
    }
}

impl From<PCSError> for ProvableOpError {
    fn from(error: PCSError) -> (r: Self) {
        ProvableOpError::PCSError(error)
    }
}

impl vstd::std_specs::convert::FromSpecImpl<PCSError> for ProvableOpError {
    open spec fn obeys_from_spec() -> bool {
        true
    }

    open spec fn from_spec(error: PCSError) -> Self {
        ProvableOpError::PCSError(error)
    }
}

/// `r` failed because of its parameters, with the message `m`.
pub open spec fn parameter_error<T>(r: Result<T, ProvableOpError>, m: Seq<char>) -> bool {
    r matches Err(ProvableOpError::ParameterError(s)) && s@ == m
}

/// `r` failed with the message `m`.
pub open spec fn generic_error<T>(r: Result<T, ProvableOpError>, m: Seq<char>) -> bool {
    r matches Err(ProvableOpError::GenericError(s)) && s@ == m
}

pub fn parameter_err<T>(m: &str) -> (r: Result<T, ProvableOpError>)
    ensures
        parameter_error(r, m@),
{
    Err(ProvableOpError::ParameterError(String::from_str(m)))
}

pub fn generic_err<T>(m: &str) -> (r: Result<T, ProvableOpError>)
    ensures
        generic_error(r, m@),
{
    Err(ProvableOpError::GenericError(String::from_str(m)))
}

} // verus!
