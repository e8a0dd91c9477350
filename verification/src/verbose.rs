//! Errors of the verbose document codec.
use vstd::prelude::*;
use crate::text::concat_str;

verus! {

/// Why a verbose document could not be decoded.
#[derive(Debug, PartialEq)]
pub enum DecodeError {
    Format(String),
    UnknownNodeType(String),
    MissingField(String),
}

impl DecodeError {
    /// The error's message.
    pub open spec fn message(&self) -> Seq<char> {
        match self {
            DecodeError::Format(s) => "unexpected format: "@ + s@,
            DecodeError::UnknownNodeType(s) => "unknown node type: "@ + s@,
            DecodeError::MissingField(s) => "missing field: "@ + s@,
        }
    }

    /// The error's message.
    pub fn to_string(&self) -> (r: String)
        ensures
            r@ == self.message(),
    {
        match self {
            DecodeError::Format(s) => concat_str("unexpected format: ", s.as_str()),
            DecodeError::UnknownNodeType(s) => concat_str("unknown node type: ", s.as_str()),
            DecodeError::MissingField(s) => concat_str("missing field: ", s.as_str()),
        }
    }
}

} // verus!
