//! Core types of JSON Patch: errors, value type names, apply options.
use vstd::prelude::*;
use crate::text::{concat_str, str_eq};

verus! {

/// Why a patch could not be applied.
#[derive(Debug, PartialEq)]
pub enum PatchError {
    NotFound,
    Test,
    NotAString,
    InvalidIndex,
    InvalidTarget,
    InvalidOp(String),
}

impl PatchError {
    /// The error's message.
    pub open spec fn message(&self) -> Seq<char> {
        match self {
            PatchError::NotFound => "NOT_FOUND"@,
            PatchError::Test => "TEST"@,
            PatchError::NotAString => "NOT_A_STRING"@,
            PatchError::InvalidIndex => "INVALID_INDEX"@,
            PatchError::InvalidTarget => "INVALID_TARGET"@,
            PatchError::InvalidOp(s) => "INVALID_OP: "@ + s@,
        }
    }

    /// The error's message.
    pub fn to_string(&self) -> (r: String)
        ensures
            r@ == self.message(),
    {
        match self {
            PatchError::NotFound => String::from_str("NOT_FOUND"),
            PatchError::Test => String::from_str("TEST"),
            PatchError::NotAString => String::from_str("NOT_A_STRING"),
            PatchError::InvalidIndex => String::from_str("INVALID_INDEX"),
            PatchError::InvalidTarget => String::from_str("INVALID_TARGET"),
            PatchError::InvalidOp(s) => concat_str("INVALID_OP: ", s.as_str()),
        }
    }
}

/// The value types a patch can test for.
#[derive(Debug, Clone, PartialEq, Eq, Structural)]
pub enum JsonPatchType {
    String,
    Number,
    Boolean,
    Object,
    Integer,
    Array,
    Null,
}

/// The name of a value type.
pub open spec fn name_of_type(t: JsonPatchType) -> Seq<char> {
    match t {
        JsonPatchType::String => "string"@,
        JsonPatchType::Number => "number"@,
        JsonPatchType::Boolean => "boolean"@,
        JsonPatchType::Object => "object"@,
        JsonPatchType::Integer => "integer"@,
        JsonPatchType::Array => "array"@,
        JsonPatchType::Null => "null"@,
    }
}

/// The value type with name `s`, if any.
pub open spec fn type_of_name(s: Seq<char>) -> Option<JsonPatchType> {
    if s == "string"@ {
        Some(JsonPatchType::String)
    } else if s == "number"@ {
        Some(JsonPatchType::Number)
    } else if s == "boolean"@ {
        Some(JsonPatchType::Boolean)
    } else if s == "object"@ {
        Some(JsonPatchType::Object)
    } else if s == "integer"@ {
        Some(JsonPatchType::Integer)
    } else if s == "array"@ {
        Some(JsonPatchType::Array)
    } else if s == "null"@ {
        Some(JsonPatchType::Null)
    } else {
        None
    }
}

impl JsonPatchType {
    pub fn as_str(&self) -> (r: &'static str)
        ensures
            r@ == name_of_type(*self),
    {
        match self {
            JsonPatchType::String => "string",
            JsonPatchType::Number => "number",
            JsonPatchType::Boolean => "boolean",
            JsonPatchType::Object => "object",
            JsonPatchType::Integer => "integer",
            JsonPatchType::Array => "array",
            JsonPatchType::Null => "null",
        }
    }

    /// The value type named `s`; an `InvalidOp` error naming `s` otherwise.
    pub fn parse_str(s: &str) -> (r: Result<Self, PatchError>)
        ensures
            match type_of_name(s@) {
                Some(t) => r == Ok::<JsonPatchType, PatchError>(t),
                None => r matches Err(PatchError::InvalidOp(m)) && m@ == "unknown type: "@ + s@,
            },
    {
        if str_eq(s, "string") {
            Ok(JsonPatchType::String)
        } else if str_eq(s, "number") {
            Ok(JsonPatchType::Number)
        } else if str_eq(s, "boolean") {
            Ok(JsonPatchType::Boolean)
        } else if str_eq(s, "object") {
            Ok(JsonPatchType::Object)
        } else if str_eq(s, "integer") {
            Ok(JsonPatchType::Integer)
        } else if str_eq(s, "array") {
            Ok(JsonPatchType::Array)
        } else if str_eq(s, "null") {
            Ok(JsonPatchType::Null)
        } else {
            Err(PatchError::InvalidOp(concat_str("unknown type: ", s)))
        }
    }
}

impl std::str::FromStr for JsonPatchType {
    type Err = PatchError;

    fn from_str(s: &str) -> (r: Result<Self, Self::Err>)
        ensures
            match type_of_name(s@) {
                Some(t) => r == Ok::<JsonPatchType, PatchError>(t),
                None => r matches Err(PatchError::InvalidOp(m)) && m@ == "unknown type: "@ + s@,
            },
    {
        JsonPatchType::parse_str(s)
    }
}

/// Options for applying a patch.
#[derive(Debug, Clone)]
pub struct ApplyPatchOptions {
    /// Mutate the document in place instead of working on a copy.
    pub mutate: bool,
}

impl Default for ApplyPatchOptions {
    fn default() -> (r: Self)
        ensures
            !r.mutate,
    {
        ApplyPatchOptions { mutate: false }
    }
}

} // verus!
