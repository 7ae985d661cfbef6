//! What the index refuses, and why.

use vstd::prelude::*;

verus! {

/// Why an operation of the index did not succeed.
#[derive(Clone, Copy, Debug, PartialEq, Eq, Structural)]
pub enum Error {
    /// The key is longer than a key field.
    KeyTooLong,
    /// The value is longer than a value field.
    ValueTooLong,
    /// The key holds a zero byte, which a field cannot tell from its padding.
    NulInKey,
    /// The value holds a zero byte.
    NulInValue,
    /// A page, or the header, breaks the layout's rules.
    Corrupt,
    /// The page numbers that a split may need are used up.
    Full,
    /// The fan-out is zero, or a page of this shape is too large for the machine.
    InvalidParameters,
}

/// What the textual interface says of an error.
pub open spec fn message_spec(e: Error) -> Seq<char> {
    match e {
        Error::KeyTooLong => "Key too long"@,
        Error::ValueTooLong => "Value too long"@,
        Error::NulInKey => "Key holds a zero byte"@,
        Error::NulInValue => "Value holds a zero byte"@,
        Error::Corrupt => "Index is corrupt"@,
        Error::Full => "Index is full"@,
        Error::InvalidParameters => "Invalid parameters"@,
    }
}

impl Error {
    /// The error in words.
    pub fn message(&self) -> (r: &'static str)
        ensures
            r@ == message_spec(*self),
    {
        match self {
            Error::KeyTooLong => "Key too long",
            Error::ValueTooLong => "Value too long",
            Error::NulInKey => "Key holds a zero byte",
            Error::NulInValue => "Value holds a zero byte",
            Error::Corrupt => "Index is corrupt",
            Error::Full => "Index is full",
            Error::InvalidParameters => "Invalid parameters",
        }
    }
}

} // verus!
