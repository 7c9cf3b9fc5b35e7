use vstd::prelude::*;
use vstd::string::StringExecFns;

verus! {

/// What can go wrong while decoding a register dump, reading a field sheet,
/// or looking a field up in the dump.
#[derive(Debug, Clone, Copy, PartialEq, Eq, Structural)]
pub enum JesdError {
    /// The dump text, without its trailing newline, is not 1024 digits long.
    WrongContentLength,
    /// The dump text holds a character that is not a hex digit in a place
    /// where decoding it would leave the range of a byte.
    InvalidDigit,
    /// A field's CSD slice holds neither one nor two bounds.
    BadSliceLength,
    /// A field's CSD slice ends past the end of the register dump.
    IndexOutOfBounds,
    /// A bound of a CSD slice text is not a decimal `u16`.
    InvalidInteger,
    /// A CSD slice text has more than one `:`.
    InvalidCsdFormat,
    /// A text is not a JSON document.
    InvalidJson,
}

/// The message that reports an error.
pub open spec fn spec_message(e: JesdError) -> Seq<char> {
    match e {
        JesdError::WrongContentLength => "Content length is not 512 bytes"@,
        JesdError::InvalidDigit => "Content holds a character that is not a hex digit"@,
        JesdError::BadSliceLength => "Content length is not 1 or 2 bytes"@,
        JesdError::IndexOutOfBounds => "Index out of bounds"@,
        JesdError::InvalidInteger => "expected an integer"@,
        JesdError::InvalidCsdFormat => "Invalid format: expected format [start:end] or [num]"@,
        JesdError::InvalidJson => "Content is not a JSON document"@,
    }
}

impl JesdError {
    /// The message that reports the error.
    pub fn message(&self) -> (r: String)
        ensures
            r@ == spec_message(*self),
    {
        match self {
            JesdError::WrongContentLength => String::from_str("Content length is not 512 bytes"),
            JesdError::InvalidDigit => String::from_str(
                "Content holds a character that is not a hex digit",
            ),
            JesdError::BadSliceLength => String::from_str("Content length is not 1 or 2 bytes"),
            JesdError::IndexOutOfBounds => String::from_str("Index out of bounds"),
            JesdError::InvalidInteger => String::from_str("expected an integer"),
            JesdError::InvalidCsdFormat => String::from_str(
                "Invalid format: expected format [start:end] or [num]",
            ),
            JesdError::InvalidJson => String::from_str("Content is not a JSON document"),
        }
    }
}

} // verus!
