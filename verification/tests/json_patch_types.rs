use json_joy::json_patch::{ApplyPatchOptions, JsonPatchType, PatchError};

#[test]
fn patch_error_not_found_display() {
    assert_eq!(PatchError::NotFound.to_string(), "NOT_FOUND");
}

#[test]
fn patch_error_test_display() {
    assert_eq!(PatchError::Test.to_string(), "TEST");
}

#[test]
fn patch_error_not_a_string_display() {
    assert_eq!(PatchError::NotAString.to_string(), "NOT_A_STRING");
}

#[test]
fn patch_error_invalid_index_display() {
    assert_eq!(PatchError::InvalidIndex.to_string(), "INVALID_INDEX");
}

#[test]
fn patch_error_invalid_target_display() {
    assert_eq!(PatchError::InvalidTarget.to_string(), "INVALID_TARGET");
}

#[test]
fn patch_error_invalid_op_display() {
    let err = PatchError::InvalidOp("bad".into());
    assert_eq!(err.to_string(), "INVALID_OP: bad");
}

#[test]
fn patch_error_equality() {
    assert_eq!(PatchError::NotFound, PatchError::NotFound);
    assert_ne!(PatchError::NotFound, PatchError::Test);
}

#[test]
fn json_patch_type_as_str_all() {
    assert_eq!(JsonPatchType::String.as_str(), "string");
    assert_eq!(JsonPatchType::Number.as_str(), "number");
    assert_eq!(JsonPatchType::Boolean.as_str(), "boolean");
    assert_eq!(JsonPatchType::Object.as_str(), "object");
    assert_eq!(JsonPatchType::Integer.as_str(), "integer");
    assert_eq!(JsonPatchType::Array.as_str(), "array");
    assert_eq!(JsonPatchType::Null.as_str(), "null");
}

#[test]
fn json_patch_type_parse_str_all() {
    assert_eq!(
        JsonPatchType::parse_str("string").unwrap(),
        JsonPatchType::String
    );
    assert_eq!(
        JsonPatchType::parse_str("number").unwrap(),
        JsonPatchType::Number
    );
    assert_eq!(
        JsonPatchType::parse_str("boolean").unwrap(),
        JsonPatchType::Boolean
    );
    assert_eq!(
        JsonPatchType::parse_str("object").unwrap(),
        JsonPatchType::Object
    );
    assert_eq!(
        JsonPatchType::parse_str("integer").unwrap(),
        JsonPatchType::Integer
    );
    assert_eq!(
        JsonPatchType::parse_str("array").unwrap(),
        JsonPatchType::Array
    );
    assert_eq!(
        JsonPatchType::parse_str("null").unwrap(),
        JsonPatchType::Null
    );
}

#[test]
fn json_patch_type_parse_str_unknown() {
    let err = JsonPatchType::parse_str("foo").unwrap_err();
    match err {
        PatchError::InvalidOp(s) => assert!(s.contains("unknown type")),
        _ => panic!("expected InvalidOp"),
    }
}

#[test]
fn json_patch_type_from_str() {
    let t: JsonPatchType = "number".parse().unwrap();
    assert_eq!(t, JsonPatchType::Number);
    assert!("garbage".parse::<JsonPatchType>().is_err());
}

#[test]
fn apply_patch_options_default() {
    let opts = ApplyPatchOptions::default();
    assert!(!opts.mutate);
}
