use json_joy::clock::ts;
use json_joy::crdt::{ConNode, CrdtNode, IndexExt, NodeIndex};
use json_joy::json_equal::JsonBinary;
use json_joy::nodes::{ArrNode, BinNode, ObjNode, RootNode, StrNode, ValNode, VecNode};
use json_joy::operations::ConValue;
use serde_json::Number;

fn num(n: u64) -> JsonBinary {
    JsonBinary::Number(Number::from(n))
}

fn text(s: &str) -> JsonBinary {
    JsonBinary::String(s.to_string())
}

#[test]
fn con_view_is_value_or_null() {
    let c = ConNode::new(ts(1, 1), ConValue::Val(JsonBinary::Array(vec![num(1), text("a")])));
    assert_eq!(c.view(), JsonBinary::Array(vec![num(1), text("a")]));
    let r = ConNode::new(ts(1, 2), ConValue::Ref(ts(1, 1)));
    assert_eq!(r.view(), JsonBinary::Null);
}

#[test]
fn str_and_bin_views() {
    let mut s = StrNode::new(ts(1, 1));
    s.ins(ts(1, 1), ts(1, 2), "hey".into());
    assert_eq!(s.view(), text("hey"));
    let mut b = BinNode::new(ts(1, 10));
    b.ins(ts(1, 10), ts(1, 11), vec![1, 2, 255]);
    assert_eq!(b.view_json(), JsonBinary::Array(vec![num(1), num(2), num(255)]));
}

#[test]
fn object_view_resolves_and_omits_missing() {
    let mut index = NodeIndex::new();
    index.insert_node(ts(1, 10), CrdtNode::Con(ConNode::new(ts(1, 10), ConValue::Val(num(5)))));
    let mut s = StrNode::new(ts(1, 11));
    s.ins(ts(1, 11), ts(1, 12), "x".into());
    index.insert_node(ts(1, 11), CrdtNode::Str(s));
    let mut o = ObjNode::new(ts(1, 1));
    o.put("n", ts(1, 10));
    o.put("gone", ts(1, 99));
    o.put("s", ts(1, 11));
    assert_eq!(
        o.view(&index),
        JsonBinary::Object(vec![("n".to_string(), num(5)), ("s".to_string(), text("x"))])
    );
}

#[test]
fn tuple_view_has_null_for_unset_and_missing() {
    let mut index = NodeIndex::new();
    index.insert_node(ts(1, 10), CrdtNode::Con(ConNode::new(ts(1, 10), ConValue::Val(JsonBinary::Bool(true)))));
    let mut t = VecNode::new(ts(1, 1));
    t.put(0, ts(1, 10));
    t.put(2, ts(1, 77));
    assert_eq!(
        t.view(&index),
        JsonBinary::Array(vec![JsonBinary::Bool(true), JsonBinary::Null, JsonBinary::Null])
    );
}

#[test]
fn array_and_register_views_nest() {
    let mut index = NodeIndex::new();
    index.insert_node(ts(1, 20), CrdtNode::Con(ConNode::new(ts(1, 20), ConValue::Val(num(1)))));
    index.insert_node(ts(1, 21), CrdtNode::Con(ConNode::new(ts(1, 21), ConValue::Val(num(2)))));
    let mut a = ArrNode::new(ts(1, 5));
    a.ins(ts(1, 5), ts(1, 6), vec![ts(1, 20), ts(1, 21), ts(1, 22)]);
    assert_eq!(a.view(&index), JsonBinary::Array(vec![num(1), num(2), JsonBinary::Null]));
    index.insert_node(ts(1, 5), CrdtNode::Arr(a));
    let mut v = ValNode::new(ts(1, 2));
    v.set(ts(1, 5));
    let expected = JsonBinary::Array(vec![num(1), num(2), JsonBinary::Null]);
    assert_eq!(v.view(&index), expected);
    let mut root = RootNode::new();
    assert_eq!(root.view(&index), JsonBinary::Null);
    root.set(ts(1, 5));
    assert_eq!(root.view(&index), expected);
    let node = CrdtNode::Val(v);
    assert_eq!(node.view(&index), expected);
}

#[test]
fn object_view_omits_undefined_constants() {
    let mut index = NodeIndex::new();
    index.insert_node(ts(1, 10), CrdtNode::Con(ConNode::new(ts(1, 10), ConValue::Val(num(5)))));
    index.insert_node(ts(1, 11), CrdtNode::Con(ConNode::new(ts(1, 11), ConValue::Undefined)));
    let mut o = ObjNode::new(ts(1, 1));
    o.put("n", ts(1, 10));
    o.put("u", ts(1, 11));
    assert_eq!(o.view(&index), JsonBinary::Object(vec![("n".to_string(), num(5))]));
    let u = ConNode::new(ts(1, 12), ConValue::Undefined);
    assert_eq!(u.view(), JsonBinary::Null);
}
