//! The errors that encoding and decoding report.
use vstd::prelude::*;
use vstd::string::StringExecFns;

verus! {

/// An error that carries only a message.
#[derive(Debug)]
pub struct MessageError(pub String);

impl MessageError {
    /// The message.
    pub fn describe(&self) -> (r: String)
        ensures
            r@ == self.0@,
    {
        self.0.clone()
    }
}

/// What can go wrong while encoding.
#[derive(Debug)]
pub enum EncodeError {
    /// The byte sink failed; the text describes how.
    Io(String),
    /// A codec of the caller's own refused the value.
    Custom(MessageError),
}

impl EncodeError {
    /// Turns a message error into a custom error.
    pub fn custom(e: MessageError) -> (r: Self)
        ensures
            r == EncodeError::Custom(e),
    {
        EncodeError::Custom(e)
    }

    /// A custom error with the given message.
    pub fn message(s: &str) -> (r: Self)
        ensures
            r matches EncodeError::Custom(m) && m.0@ == s@,
    {
        EncodeError::Custom(MessageError(s.to_owned()))
    }

    /// A description of the error for people to read.
    pub fn describe(&self) -> (r: String)
        ensures
            match self {
                EncodeError::Io(e) => r@ == "Io Error: "@ + e@,
                EncodeError::Custom(m) => r@ == m.0@,
            },
    {
        match self {
            EncodeError::Io(e) => "Io Error: ".to_owned().concat(e.as_str()),
            EncodeError::Custom(m) => m.describe(),
        }
    }
}

/// What can go wrong while decoding.
#[derive(Debug)]
pub enum DecodeError {
    /// The byte source failed; the text describes how.
    Io(String),
    /// The input ended before the value did.
    UnexpectedEnd,
    /// Bytes were left over after the value.
    BytesRemaining,
    /// A tag, discriminant or code point out of range.
    InvalidFormat,
    /// A string that is not valid UTF-8.
    Utf8,
    /// A codec of the caller's own refused the input.
    Custom(MessageError),
}

impl DecodeError {
    /// Turns a message error into a custom error.
    pub fn custom(e: MessageError) -> (r: Self)
        ensures
            r == DecodeError::Custom(e),
    {
        DecodeError::Custom(e)
    }

    /// A custom error with the given message.
    pub fn message(s: &str) -> (r: Self)
        ensures
            r matches DecodeError::Custom(m) && m.0@ == s@,
    {
        DecodeError::Custom(MessageError(s.to_owned()))
    }

    /// A description of the error for people to read.
    pub fn describe(&self) -> (r: String)
        ensures
            match self {
                DecodeError::Io(e) => r@ == "Io Error: "@ + e@,
                DecodeError::UnexpectedEnd => r@
                    == "Reader did not have enough data to properly decode type"@,
                DecodeError::BytesRemaining => r@
                    == "Reader had data remaining after type was fully decoded."@,
                DecodeError::InvalidFormat => r@
                    == "Found an invalid byte sequence which could not be deserialized properly."@,
                DecodeError::Utf8 => r@ == "Could not decode string due to invalid utf8"@,
                DecodeError::Custom(m) => r@ == m.0@,
            },
    {
        match self {
            DecodeError::Io(e) => "Io Error: ".to_owned().concat(e.as_str()),
            DecodeError::UnexpectedEnd => {
                "Reader did not have enough data to properly decode type".to_owned()
            },
            DecodeError::BytesRemaining => {
                "Reader had data remaining after type was fully decoded.".to_owned()
            },
            DecodeError::InvalidFormat => {
                "Found an invalid byte sequence which could not be deserialized properly.".to_owned()
            },
            DecodeError::Utf8 => "Could not decode string due to invalid utf8".to_owned(),
            DecodeError::Custom(m) => m.describe(),
        }
    }
}

} // verus!
