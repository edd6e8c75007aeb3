//! The failures of the rainbow-table operations.
use vstd::prelude::*;
use vstd::string::*;
use crate::password::PasswordError;

verus! {

/// Why a rainbow-table operation failed.
#[derive(Debug)]
pub enum RainbowError {
    Password(PasswordError),
    EmptyInput,
    VaryingLengths,
    InvalidMagic,
    InvalidHeader,
    InvalidAlgorithm,
    InvalidChainData,
    AlgorithmMismatch,
    PasswordLengthMismatch,
    NoPasswordsFound,
    UnicodeError(String),
    NumericError(String),
}

/// A `RainbowError` with its message as a sequence of characters.
pub enum RainbowFault {
    Password(PasswordError),
    EmptyInput,
    VaryingLengths,
    InvalidMagic,
    InvalidHeader,
    InvalidAlgorithm,
    InvalidChainData,
    AlgorithmMismatch,
    PasswordLengthMismatch,
    NoPasswordsFound,
    UnicodeError(Seq<char>),
    NumericError(Seq<char>),
}

impl View for RainbowError {
    type V = RainbowFault;

    open spec fn view(&self) -> RainbowFault {
        match self {
            RainbowError::Password(e) => RainbowFault::Password(*e),
            RainbowError::EmptyInput => RainbowFault::EmptyInput,
            RainbowError::VaryingLengths => RainbowFault::VaryingLengths,
            RainbowError::InvalidMagic => RainbowFault::InvalidMagic,
            RainbowError::InvalidHeader => RainbowFault::InvalidHeader,
            RainbowError::InvalidAlgorithm => RainbowFault::InvalidAlgorithm,
            RainbowError::InvalidChainData => RainbowFault::InvalidChainData,
            RainbowError::AlgorithmMismatch => RainbowFault::AlgorithmMismatch,
            RainbowError::PasswordLengthMismatch => RainbowFault::PasswordLengthMismatch,
            RainbowError::NoPasswordsFound => RainbowFault::NoPasswordsFound,
            RainbowError::UnicodeError(text) => RainbowFault::UnicodeError(text@),
            RainbowError::NumericError(text) => RainbowFault::NumericError(text@),
        }
    }
}

impl RainbowFault {
    /// What the error says.
    pub open spec fn message(self) -> Seq<char> {
        match self {
            RainbowFault::Password(e) => "Password error: "@ + e.message(),
            RainbowFault::EmptyInput => "Empty input file"@,
            RainbowFault::VaryingLengths => "Passwords have varying lengths"@,
            RainbowFault::InvalidMagic => "Invalid magic number"@,
            RainbowFault::InvalidHeader => "Invalid header"@,
            RainbowFault::InvalidAlgorithm => "Invalid algorithm"@,
            RainbowFault::InvalidChainData => "Invalid chain data"@,
            RainbowFault::AlgorithmMismatch => "Algorithm mismatch"@,
            RainbowFault::PasswordLengthMismatch => "Password length mismatch"@,
            RainbowFault::NoPasswordsFound => "No passwords found"@,
            RainbowFault::UnicodeError(text) => "Unicode conversion error: "@ + text,
            RainbowFault::NumericError(text) => "Invalid numeric value: "@ + text,
        }
    }
}

impl RainbowError {
    /// What the error says.
    pub fn to_string(&self) -> (text: String)
        ensures
            text@ == self@.message(),
    {
        match self {
            RainbowError::Password(e) => String::from_str("Password error: ").concat(
                e.to_string().as_str(),
            ),
            RainbowError::EmptyInput => String::from_str("Empty input file"),
            RainbowError::VaryingLengths => String::from_str("Passwords have varying lengths"),
            RainbowError::InvalidMagic => String::from_str("Invalid magic number"),
            RainbowError::InvalidHeader => String::from_str("Invalid header"),
            RainbowError::InvalidAlgorithm => String::from_str("Invalid algorithm"),
            RainbowError::InvalidChainData => String::from_str("Invalid chain data"),
            RainbowError::AlgorithmMismatch => String::from_str("Algorithm mismatch"),
            RainbowError::PasswordLengthMismatch => String::from_str("Password length mismatch"),
            RainbowError::NoPasswordsFound => String::from_str("No passwords found"),
            RainbowError::UnicodeError(text) => String::from_str(
                "Unicode conversion error: ",
            ).concat(text.as_str()),
            RainbowError::NumericError(text) => String::from_str("Invalid numeric value: ").concat(
                text.as_str(),
            ),
        }
    }
}

} // verus!
