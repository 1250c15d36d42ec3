use vstd::prelude::*;

verus! {

/// Declares `std::io::Error`, which `Error::IO` carries unread.
#[verifier::external_type_specification]
#[verifier::external_body]
pub struct ExIoError(std::io::Error);

/// Serialize or deserialize error.
#[derive(Debug)]
pub enum Error {
    /// Error coming from the underlying I/O source or sink.
    IO(std::io::Error),
    /// Unexpected end of input.
    EOF,
    /// Expected a marker of one type but received something else.
    ExpectedMarker(&'static str),
    /// Expected a value of one type but received something else.
    ExpectedValue(&'static str),
    /// Received an unexpected value.
    UnexpectedValue(&'static str),
    /// The bytes are not UTF-8; holds the length of the longest valid prefix.
    UTF8(usize),
    /// A number could not be parsed, or it overflowed.
    Parse,
    /// A NaN was offered for encoding.
    NaN,
    /// A custom error, carrying its message.
    Custom(String),
}

/// Result of a serialize or deserialize step.
pub type Result<T> = std::result::Result<T, Error>;

impl Error {
    pub fn io(err: std::io::Error) -> (r: Self)
        ensures
            r == Error::IO(err),
    {
        Error::IO(err)
    }

    pub fn eof() -> (r: Self)
        ensures
            r == Error::EOF,
    {
        Error::EOF
    }

    pub fn expected_marker(expecting: &'static str) -> (r: Self)
        ensures
            r == Error::ExpectedMarker(expecting),
    {
        Error::ExpectedMarker(expecting)
    }

    /// Expected some value but got something else.
    pub fn expected_value(expecting: &'static str) -> (r: Self)
        ensures
            r == Error::ExpectedValue(expecting),
    {
        Error::ExpectedValue(expecting)
    }

    pub fn unexpected_value(unexpected: &'static str) -> (r: Self)
        ensures
            r == Error::UnexpectedValue(unexpected),
    {
        Error::UnexpectedValue(unexpected)
    }

    pub fn utf8(valid_up_to: usize) -> (r: Self)
        ensures
            r == Error::UTF8(valid_up_to),
    {
        Error::UTF8(valid_up_to)
    }

    pub fn overflow() -> (r: Self)
        ensures
            r == Error::Parse,
    {
        Error::Parse
    }

    pub fn parse() -> (r: Self)
        ensures
            r == Error::Parse,
    {
        Error::Parse
    }

    pub fn nan() -> (r: Self)
        ensures
            r == Error::NaN,
    {
        Error::NaN
    }

    /// A custom error with the given message.
    pub fn custom(msg: String) -> (r: Self)
        ensures
            r == Error::Custom(msg),
    {
        Error::Custom(msg)
    }
}

} // verus!
