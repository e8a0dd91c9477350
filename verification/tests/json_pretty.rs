use json_joy::json_pretty::{insert_space_after, insert_space_before, pretty_one_line};
use serde_json::Value;

#[test]
fn formats_scalar() {
    assert_eq!(pretty_one_line(&Value::from(42)), "42");
    assert_eq!(pretty_one_line(&Value::String("hello".into())), r#""hello""#);
    assert_eq!(pretty_one_line(&Value::Null), "null");
}

#[test]
fn formats_empty_object() {
    assert_eq!(pretty_one_line(&Value::Object(serde_json::Map::new())), "{  }");
}

#[test]
fn formats_empty_array() {
    assert_eq!(pretty_one_line(&Value::Array(vec![])), "[  ]");
}

#[test]
fn formats_object() {
    let mut m = serde_json::Map::new();
    m.insert("a".to_string(), Value::from(1));
    let result = pretty_one_line(&Value::Object(m));
    assert_eq!(result, r#"{ "a": 1 }"#);
}

#[test]
fn formats_array() {
    let v = Value::Array(vec![Value::from(1), Value::from(2), Value::from(3)]);
    assert_eq!(pretty_one_line(&v), "[ 1, 2, 3 ]");
}

#[test]
fn spaces_go_inside_strings_too() {
    let v = Value::String("a,b:[c]".into());
    assert_eq!(pretty_one_line(&v), r#""a, b: [ c ]""#);
}

#[test]
fn spacing_passes() {
    assert_eq!(insert_space_after("{[:,x"), "{ [ : , x");
    assert_eq!(insert_space_before("a}]b"), "a } ]b");
    assert_eq!(insert_space_after(""), "");
    assert_eq!(insert_space_before(""), "");
}
