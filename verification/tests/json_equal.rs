use json_joy::json_equal::{deep_equal_binary, JsonBinary};

fn obj(entries: Vec<(&str, JsonBinary)>) -> JsonBinary {
    JsonBinary::Object(entries.into_iter().map(|(k, v)| (k.to_string(), v)).collect())
}

fn num(n: i64) -> JsonBinary {
    JsonBinary::Number(serde_json::Number::from(n))
}

#[test]
fn test_binary_equal() {
    let a = JsonBinary::Binary(vec![1, 2, 3]);
    let b = JsonBinary::Binary(vec![1, 2, 3]);
    assert!(deep_equal_binary(&a, &b));
}

#[test]
fn test_binary_not_equal() {
    let a = JsonBinary::Binary(vec![1, 2, 3]);
    let b = JsonBinary::Binary(vec![1, 2, 4]);
    assert!(!deep_equal_binary(&a, &b));
}

#[test]
fn test_empty_binary_equal() {
    let a = JsonBinary::Binary(vec![]);
    let b = JsonBinary::Binary(vec![]);
    assert!(deep_equal_binary(&a, &b));
}

#[test]
fn test_binary_and_array_not_equal() {
    let a = JsonBinary::Binary(vec![]);
    let b = JsonBinary::Array(vec![]);
    assert!(!deep_equal_binary(&a, &b));
}

#[test]
fn test_null_equal() {
    assert!(deep_equal_binary(&JsonBinary::Null, &JsonBinary::Null));
}

#[test]
fn test_null_not_equal_to_bool() {
    assert!(!deep_equal_binary(&JsonBinary::Null, &JsonBinary::Bool(false)));
}

#[test]
fn test_bool_equal() {
    assert!(deep_equal_binary(&JsonBinary::Bool(true), &JsonBinary::Bool(true)));
}

#[test]
fn test_bool_not_equal() {
    assert!(!deep_equal_binary(&JsonBinary::Bool(true), &JsonBinary::Bool(false)));
}

#[test]
fn test_number_equal() {
    let n1 = JsonBinary::Number(serde_json::Number::from(42));
    let n2 = JsonBinary::Number(serde_json::Number::from(42));
    assert!(deep_equal_binary(&n1, &n2));
}

#[test]
fn test_number_not_equal() {
    let n1 = JsonBinary::Number(serde_json::Number::from(1));
    let n2 = JsonBinary::Number(serde_json::Number::from(2));
    assert!(!deep_equal_binary(&n1, &n2));
}

#[test]
fn test_string_equal() {
    let a = JsonBinary::String("hello".into());
    let b = JsonBinary::String("hello".into());
    assert!(deep_equal_binary(&a, &b));
}

#[test]
fn test_string_not_equal() {
    let a = JsonBinary::String("hello".into());
    let b = JsonBinary::String("world".into());
    assert!(!deep_equal_binary(&a, &b));
}

#[test]
fn test_array_equal() {
    let a = JsonBinary::Array(vec![JsonBinary::Null, JsonBinary::Bool(true)]);
    let b = JsonBinary::Array(vec![JsonBinary::Null, JsonBinary::Bool(true)]);
    assert!(deep_equal_binary(&a, &b));
}

#[test]
fn test_array_different_lengths() {
    let a = JsonBinary::Array(vec![JsonBinary::Null]);
    let b = JsonBinary::Array(vec![JsonBinary::Null, JsonBinary::Null]);
    assert!(!deep_equal_binary(&a, &b));
}

#[test]
fn test_array_different_elements() {
    let a = JsonBinary::Array(vec![JsonBinary::Bool(true)]);
    let b = JsonBinary::Array(vec![JsonBinary::Bool(false)]);
    assert!(!deep_equal_binary(&a, &b));
}

#[test]
fn test_array_empty() {
    let a = JsonBinary::Array(vec![]);
    let b = JsonBinary::Array(vec![]);
    assert!(deep_equal_binary(&a, &b));
}

#[test]
fn test_object_equal() {
    let m1 = obj(vec![("a", JsonBinary::Null), ("b", JsonBinary::Bool(true))]);
    let m2 = obj(vec![("a", JsonBinary::Null), ("b", JsonBinary::Bool(true))]);
    assert!(deep_equal_binary(&m1, &m2));
}

#[test]
fn test_object_different_sizes() {
    let m1 = obj(vec![("a", JsonBinary::Null)]);
    let m2 = obj(vec![]);
    assert!(!deep_equal_binary(&m1, &m2));
}

#[test]
fn test_object_different_values() {
    let m1 = obj(vec![("a", JsonBinary::Bool(true))]);
    let m2 = obj(vec![("a", JsonBinary::Bool(false))]);
    assert!(!deep_equal_binary(&m1, &m2));
}

#[test]
fn test_object_missing_key() {
    let m1 = obj(vec![("a", JsonBinary::Null)]);
    let m2 = obj(vec![("b", JsonBinary::Null)]);
    assert!(!deep_equal_binary(&m1, &m2));
}

#[test]
fn test_nested_array_in_object() {
    let inner = || JsonBinary::Array(vec![JsonBinary::Binary(vec![1, 2])]);
    let m1 = obj(vec![("arr", inner())]);
    let m2 = obj(vec![("arr", inner())]);
    assert!(deep_equal_binary(&m1, &m2));
}

#[test]
fn test_string_vs_number() {
    assert!(!deep_equal_binary(&JsonBinary::String("42".into()), &num(42)));
}

#[test]
fn test_null_vs_string() {
    assert!(!deep_equal_binary(&JsonBinary::Null, &JsonBinary::String(String::new())));
}

// Objects compare as maps: the order of their entries does not matter.
#[test]
fn object_entry_order_does_not_matter() {
    let m1 = obj(vec![("a", num(1)), ("b", JsonBinary::String("x".into()))]);
    let m2 = obj(vec![("b", JsonBinary::String("x".into())), ("a", num(1))]);
    assert!(deep_equal_binary(&m1, &m2));
    assert!(deep_equal_binary(&m2, &m1));
}

// A value is deeply equal to itself.
#[test]
fn value_equals_itself() {
    let v = obj(vec![
        ("list", JsonBinary::Array(vec![num(-3), JsonBinary::Binary(vec![9]), JsonBinary::Null])),
        ("flag", JsonBinary::Bool(false)),
        ("nested", obj(vec![("k", JsonBinary::String("v".into()))])),
    ]);
    assert!(deep_equal_binary(&v, &v));
}

#[test]
fn float_numbers_compare_by_value() {
    let a = JsonBinary::Number(serde_json::Number::from_f64(0.0).unwrap());
    let b = JsonBinary::Number(serde_json::Number::from_f64(-0.0).unwrap());
    assert!(deep_equal_binary(&a, &b));
    let c = JsonBinary::Number(serde_json::Number::from_f64(1.5).unwrap());
    assert!(!deep_equal_binary(&a, &c));
}

#[test]
fn deep_equal_binary_is_symmetric_on_objects() {
    let a = JsonBinary::Object(vec![
        ("x".to_string(), JsonBinary::Bool(true)),
        ("y".to_string(), JsonBinary::Binary(vec![1, 2])),
    ]);
    let b = JsonBinary::Object(vec![
        ("y".to_string(), JsonBinary::Binary(vec![1, 2])),
        ("x".to_string(), JsonBinary::Bool(true)),
    ]);
    let c = JsonBinary::Object(vec![
        ("y".to_string(), JsonBinary::Binary(vec![1, 3])),
        ("x".to_string(), JsonBinary::Bool(true)),
    ]);
    assert!(deep_equal_binary(&a, &b));
    assert!(deep_equal_binary(&b, &a));
    assert!(!deep_equal_binary(&a, &c));
    assert!(!deep_equal_binary(&c, &a));
}
