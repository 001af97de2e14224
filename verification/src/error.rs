//! The failures that the link reports.

use crate::text::{append_decimal, decimal_chars};
use vstd::prelude::*;
use vstd::string::*;

verus! {

/// What went wrong, by kind.
#[derive(Debug)]
pub enum UshError {
    /// A message broke the schema: too long, wrong kind, or not text.
    Protocol { message: String },
    /// Received samples or bytes could not be turned back into data.
    Decoding { message: String },
    /// An outgoing message could not be put on the wire.
    Encoding { message: String },
    /// The checksum carried by a message is not the one computed from it.
    CrcMismatch { expected: u32, actual: u32 },
    /// No signal arrived in time.
    Timeout,
    /// A parameter is invalid or unsupported.
    Config { message: String },
}

pub type UshResult<T> = Result<T, UshError>;

impl UshError {
    /// The failure in words, as [`UshError::describe`] gives it.
    pub open spec fn description(self) -> Seq<char> {
        match self {
            UshError::Protocol { message } => "Protocol error: "@ + message@,
            UshError::Decoding { message } => "Decoding error: "@ + message@,
            UshError::Encoding { message } => "Encoding error: "@ + message@,
            UshError::CrcMismatch { expected, actual } => "CRC mismatch: expected "@
                + decimal_chars(expected as nat) + ", got "@ + decimal_chars(actual as nat),
            UshError::Timeout => "Timeout waiting for signal"@,
            UshError::Config { message } => "Invalid configuration: "@ + message@,
        }
    }

    /// The failure in words: its kind, then what the failure itself says.
    pub fn describe(&self) -> (text: String)
        ensures
            text@ == self.description(),
    {
        match self {
            UshError::Protocol { message } => String::from_str("Protocol error: ").concat(
                message.as_str(),
            ),
            UshError::Decoding { message } => String::from_str("Decoding error: ").concat(
                message.as_str(),
            ),
            UshError::Encoding { message } => String::from_str("Encoding error: ").concat(
                message.as_str(),
            ),
            UshError::CrcMismatch { expected, actual } => {
                let mut text = String::from_str("CRC mismatch: expected ");
                append_decimal(&mut text, *expected as u64);
                text.append(", got ");
                append_decimal(&mut text, *actual as u64);
                text
            },
            UshError::Timeout => String::from_str("Timeout waiting for signal"),
            UshError::Config { message } => String::from_str("Invalid configuration: ").concat(
                message.as_str(),
            ),
        }
    }
}

/// Whether `res` is a protocol failure whose message reads `text`.
pub open spec fn protocol_failure<T>(res: UshResult<T>, text: Seq<char>) -> bool {
    match res {
        Err(UshError::Protocol { message }) => message@ == text,
        _ => false,
    }
}

/// Whether `res` is a decoding failure whose message reads `text`.
pub open spec fn decoding_failure<T>(res: UshResult<T>, text: Seq<char>) -> bool {
    match res {
        Err(UshError::Decoding { message }) => message@ == text,
        _ => false,
    }
}

/// Whether `res` is an encoding failure whose message reads `text`.
pub open spec fn encoding_failure<T>(res: UshResult<T>, text: Seq<char>) -> bool {
    match res {
        Err(UshError::Encoding { message }) => message@ == text,
        _ => false,
    }
}

/// Whether `res` is a configuration failure whose message reads `text`.
pub open spec fn config_failure<T>(res: UshResult<T>, text: Seq<char>) -> bool {
    match res {
        Err(UshError::Config { message }) => message@ == text,
        _ => false,
    }
}

} // verus!
