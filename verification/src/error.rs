//! The errors of encoding and decoding.

use vstd::prelude::*;

use crate::fourcc::FourCC;

verus! {

/// Why reading or writing bytes failed.
#[derive(Clone, Copy, Debug, PartialEq, Eq, Structural)]
pub enum IoError {
    /// The input ended before a field or a box body was complete.
    UnexpectedEof,
    /// The input is long enough but does not follow the layout: an unknown
    /// version, a reserved field that is not zero, a box size below eight,
    /// text that is not UTF-8.
    InvalidData,
    /// The value cannot be written: a box would be longer than its 32-bit size
    /// field can say.
    InvalidInput,
}

/// The ways in which encoding and decoding fail.
#[derive(Clone, Copy, Debug, PartialEq, Eq, Structural)]
pub enum Error {
    /// A short or malformed buffer, or a value that cannot be written.
    Io(IoError),
    /// A child box occurs more or less often than its parent allows.
    InvalidBoxQuantity {
        /// The type of the child box.
        box_type: FourCC,
        /// How many were seen when decoding stopped.
        quantity: usize,
        /// How many the parent allows.
        expected: usize,
    },
}

/// The error for an input that ends too early.
pub open spec fn eof() -> Error {
    Error::Io(IoError::UnexpectedEof)
}

/// The error for an input that breaks the layout.
pub open spec fn malformed() -> Error {
    Error::Io(IoError::InvalidData)
}

/// The error for a value too large to be written.
pub open spec fn too_large() -> Error {
    Error::Io(IoError::InvalidInput)
}

/// The error for a child box of type `box_type` that was seen `quantity`
/// times where `expected` are allowed.
pub open spec fn bad_quantity(box_type: u32, quantity: usize, expected: usize) -> Error {
    Error::InvalidBoxQuantity { box_type: FourCC(box_type), quantity, expected }
}

impl Error {
    /// A one-line description of the error.
    pub fn message(&self) -> (r: &'static str)
        ensures
            r@ == (match *self {
                Error::Io(_) => "IO error"@,
                Error::InvalidBoxQuantity { .. } => "Invalid box quantity"@,
            }),
    {
        match self {
            Error::Io(_) => "IO error",
            Error::InvalidBoxQuantity { .. } => "Invalid box quantity",
        }
    }
}

} // verus!
