//! Typed failures of the codec and of the command-line parser.

use vstd::prelude::*;

verus! {

/// Everything that can go wrong while decoding a transaction or while
/// parsing command-line arguments.  Decoding never panics and never returns
/// a partially filled structure: each failure is surfaced as one of these.
#[derive(Debug, Clone, PartialEq, Eq)]
pub enum BitcoinError {
    /// A variable-length integer was truncated or not minimally encoded.
    MalformedVarint,
    /// A fixed-width field was cut short by the end of the buffer.
    UnexpectedEndOfBuffer,
    /// A structural failure at the transaction level: truncated header or
    /// footer, or trailing bytes left after a complete decode.
    InvalidTransaction,
    /// A script's declared length exceeds the bytes actually remaining.
    InvalidScript,
    /// The command-line amount is not a valid non-negative 64-bit integer.
    InvalidAmount,
    /// The command-line arguments have the wrong shape.
    ParseError(String),
}

impl BitcoinError {
    /// A human-readable description of the failure.
    pub fn message(&self) -> (r: String)
        ensures
            match self {
                BitcoinError::MalformedVarint => r@ == "Malformed varint"@,
                BitcoinError::UnexpectedEndOfBuffer => r@ == "Unexpected end of buffer"@,
                BitcoinError::InvalidTransaction => r@ == "Invalid transaction format"@,
                BitcoinError::InvalidScript => r@ == "Invalid script format"@,
                BitcoinError::InvalidAmount => r@ == "Invalid amount"@,
                BitcoinError::ParseError(s) => r@ == "Parse error: "@ + s@,
            },
    {
        match self {
            BitcoinError::MalformedVarint => "Malformed varint".to_owned(),
            BitcoinError::UnexpectedEndOfBuffer => "Unexpected end of buffer".to_owned(),
            BitcoinError::InvalidTransaction => "Invalid transaction format".to_owned(),
            BitcoinError::InvalidScript => "Invalid script format".to_owned(),
            BitcoinError::InvalidAmount => "Invalid amount".to_owned(),
            BitcoinError::ParseError(s) => {
                let mut m = "Parse error: ".to_owned();
                m.append(s.as_str());
                m
            },
        }
    }
}

} // verus!
