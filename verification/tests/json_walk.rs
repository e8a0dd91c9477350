use json_joy::json_equal::JsonBinary;
use json_joy::json_walk::walk;
use serde_json::Number;

fn num(n: u64) -> JsonBinary {
    JsonBinary::Number(Number::from(n))
}

#[test]
fn walks_scalar() {
    assert_eq!(walk(&num(42)), vec![num(42)]);
}

#[test]
fn walks_array() {
    let v = JsonBinary::Array(vec![num(1), num(2), num(3)]);
    let visited = walk(&v);
    assert_eq!(visited.len(), 4);
    assert_eq!(visited[0], v);
    assert_eq!(visited[1], num(1));
    assert_eq!(visited[2], num(2));
    assert_eq!(visited[3], num(3));
}

#[test]
fn walks_nested_object() {
    let v = JsonBinary::Object(vec![
        ("a".to_string(), num(1)),
        ("b".to_string(), JsonBinary::Array(vec![num(2), num(3)])),
    ]);
    assert_eq!(walk(&v).len(), 5);
}

#[test]
fn walks_null() {
    assert_eq!(walk(&JsonBinary::Null), vec![JsonBinary::Null]);
}

#[test]
fn walk_visits_depth_first() {
    let inner = JsonBinary::Array(vec![num(2)]);
    let v = JsonBinary::Array(vec![inner.clone(), num(3)]);
    assert_eq!(walk(&v), vec![v.clone(), inner, num(2), num(3)]);
}
