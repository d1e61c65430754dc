//! The tables that values are looked up in.
use crate::layers::activation::Relu;
use crate::quantization::Element;
use crate::text::{append_decimal, decimal};
use vstd::prelude::*;
use vstd::string::*;

verus! {

/// What separates two columns that are merged into one value.
pub const COLUMN_SEPARATOR: Element = 4294967296;

/// The kinds of tables.
#[derive(Clone, Copy, Debug, PartialEq, Eq, Hash, PartialOrd, Ord, Structural)]
pub enum TableType {
    /// The table of the activation function.
    Relu,
    /// The table of the values of one quantised value, for range checks.
    Range,
    /// The table that brings values back into range. Holds the number of bits that a value may
    /// have before.
    Clamping(usize),
}

impl TableType {
    /// The name of the table.
    pub open spec fn label(self) -> Seq<char> {
        match self {
            TableType::Relu => "Relu"@,
            TableType::Range => "Range"@,
            TableType::Clamping(size) => "Clamping: "@ + decimal(size as nat),
        }
    }

    /// The name of the table.
    pub fn name(&self) -> (r: String)
        ensures
            r@ == self.label(),
    {
        match self {
            TableType::Relu => String::from_str("Relu"),
            TableType::Range => String::from_str("Range"),
            TableType::Clamping(size) => {
                let mut s = String::from_str("Clamping: ");
                append_decimal(&mut s, *size);
                s
            },
        }
    }
}

} // verus!
