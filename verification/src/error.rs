//! The errors of the library.

use vstd::prelude::*;
use vstd::string::StringExecFns;

verus! {

/// What can go wrong while building or slicing sequence data.
#[derive(Clone, Copy, Debug, PartialEq, Eq, Structural, Hash)]
pub enum SeqError {
    /// A character outside `AaTtGgCcNn` was met while decoding a sequence.
    InvalidSymbol,
    /// A slice was asked for with a bound beyond the data, or a quality
    /// string does not cover its sequence position for position.
    LengthMismatch,
    /// A row of the barcode table does not have exactly three columns.
    MalformedBarcodeTable,
    /// A locus or sample name that was never declared.
    UnresolvedBucketKey,
}

/// An error together with the record or table row that it came from.
#[derive(Clone, Copy, Debug, PartialEq, Eq, Structural, Hash)]
pub struct RecordError {
    /// The position of the record in its input, counted from zero.
    pub record: usize,
    pub kind: SeqError,
}

impl SeqError {
    /// The wording of the message for each error.
    pub open spec fn spec_message(self) -> Seq<char> {
        match self {
            SeqError::InvalidSymbol => "symbol outside the alphabet AaTtGgCcNn"@,
            SeqError::LengthMismatch => "bound exceeds the available length"@,
            SeqError::MalformedBarcodeTable => "barcode table row does not have three columns"@,
            SeqError::UnresolvedBucketKey => "locus or sample was not declared"@,
        }
    }

    /// A short human-readable description of the error.
    pub fn message(&self) -> (text: String)
        ensures
            text@ == self.spec_message(),
    {
        match self {
            SeqError::InvalidSymbol => String::from_str("symbol outside the alphabet AaTtGgCcNn"),
            SeqError::LengthMismatch => String::from_str("bound exceeds the available length"),
            SeqError::MalformedBarcodeTable => String::from_str(
                "barcode table row does not have three columns",
            ),
            SeqError::UnresolvedBucketKey => String::from_str("locus or sample was not declared"),
        }
    }
}

} // verus!
