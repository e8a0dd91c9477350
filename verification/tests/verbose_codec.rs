use json_joy::verbose::DecodeError;

#[test]
fn decode_error_display() {
    let err = DecodeError::Format("test error".into());
    assert_eq!(err.to_string(), "unexpected format: test error");

    let err = DecodeError::UnknownNodeType("foo".into());
    assert_eq!(err.to_string(), "unknown node type: foo");

    let err = DecodeError::MissingField("bar".into());
    assert_eq!(err.to_string(), "missing field: bar");
}
