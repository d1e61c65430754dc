//! Errors of the verification.
use crate::field::GoldilocksExt2;
use crate::layers::provable::error::ProvableOpError;
use vstd::prelude::*;
use vstd::string::*;

verus! {

/// Why a proof is not accepted.
#[derive(Debug)]
pub enum VerifierError {
    /// A part of the proof is missing or does not fit, as the message says.
    Message(String),
    /// The proof of a layer is not valid.
    Operation(ProvableOpError),
    /// The fractions of the lookups do not add up to zero: their common numerator.
    NumeratorNotZero(GoldilocksExt2),
    /// The common denominator of the fractions of the lookups is zero.
    DenominatorZero,
    /// The value of a column of a lookup table is wrong: the claimed value and the right one.
    TableEvaluation(GoldilocksExt2, GoldilocksExt2),
}

/// `r` failed with the message `m`.
pub open spec fn message_error<T>(r: Result<T, VerifierError>, m: Seq<char>) -> bool {
    r matches Err(VerifierError::Message(s)) && s@ == m
}

pub fn message_err<T>(m: &str) -> (r: Result<T, VerifierError>)
    ensures
        message_error(r, m@),
{
    Err(VerifierError::Message(String::from_str(m)))
}

} // verus!
