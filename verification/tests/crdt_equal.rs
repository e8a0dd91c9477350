use json_joy::clock::ts;
use json_joy::crdt::{ConNode, CrdtNode, IndexExt, NodeIndex, node_key};
use json_joy::operations::ConValue;
use json_joy::equal::{cmp, cmp_node};
use json_joy::json_equal::JsonBinary;
use json_joy::nodes::{ArrNode, BinNode, ObjNode, StrNode, ValNode, VecNode};
use serde_json::Number;

fn sid() -> u64 {
    999
}

#[test]
fn cmp_con_same_value() {
    let index = NodeIndex::new();
    let a = CrdtNode::Con(ConNode::new(
        ts(sid(), 1),
        ConValue::Val(JsonBinary::Number(Number::from(42))),
    ));
    let b = CrdtNode::Con(ConNode::new(
        ts(sid(), 2),
        ConValue::Val(JsonBinary::Number(Number::from(42))),
    ));
    assert!(cmp(&a, &b, true, &index));
}

#[test]
fn cmp_con_different_value() {
    let index = NodeIndex::new();
    let a = CrdtNode::Con(ConNode::new(
        ts(sid(), 1),
        ConValue::Val(JsonBinary::Number(Number::from(1))),
    ));
    let b = CrdtNode::Con(ConNode::new(
        ts(sid(), 2),
        ConValue::Val(JsonBinary::Number(Number::from(2))),
    ));
    assert!(!cmp(&a, &b, true, &index));
}

#[test]
fn cmp_con_no_content() {
    // With compareContent=false, different values should be "equal".
    let index = NodeIndex::new();
    let a = CrdtNode::Con(ConNode::new(
        ts(sid(), 1),
        ConValue::Val(JsonBinary::Number(Number::from(1))),
    ));
    let b = CrdtNode::Con(ConNode::new(
        ts(sid(), 2),
        ConValue::Val(JsonBinary::Number(Number::from(2))),
    ));
    assert!(cmp(&a, &b, false, &index));
}

#[test]
fn cmp_different_types_false() {
    let index = NodeIndex::new();
    let a = CrdtNode::Con(ConNode::new(
        ts(sid(), 1),
        ConValue::Val(JsonBinary::Number(Number::from(1))),
    ));
    let b = CrdtNode::Str(StrNode::new(ts(sid(), 1)));
    assert!(!cmp(&a, &b, false, &index));
}


#[test]
fn cmp_node_same_con_id() {
    let a = CrdtNode::Con(ConNode::new(
        ts(sid(), 5),
        ConValue::Val(JsonBinary::Number(Number::from(1))),
    ));
    let b = CrdtNode::Con(ConNode::new(
        ts(sid(), 5),
        ConValue::Val(JsonBinary::Number(Number::from(2))),
    ));
    // Same ID → true (cmpNode ignores values)
    assert!(cmp_node(&a, &b));
}

#[test]
fn cmp_node_different_con_id() {
    let a = CrdtNode::Con(ConNode::new(
        ts(sid(), 5),
        ConValue::Val(JsonBinary::Number(Number::from(1))),
    ));
    let b = CrdtNode::Con(ConNode::new(
        ts(sid(), 6),
        ConValue::Val(JsonBinary::Number(Number::from(1))),
    ));
    assert!(!cmp_node(&a, &b));
}

#[test]
fn cmp_node_different_types() {
    let a = CrdtNode::Con(ConNode::new(
        ts(sid(), 5),
        ConValue::Val(JsonBinary::Number(Number::from(1))),
    ));
    let b = CrdtNode::Str(StrNode::new(ts(sid(), 5)));
    assert!(!cmp_node(&a, &b));
}

#[test]
fn cmp_node_identical_str_nodes() {
    // Two empty StrNodes with same ID should be equal.
    let a = CrdtNode::Str(StrNode::new(ts(sid(), 1)));
    let b = CrdtNode::Str(StrNode::new(ts(sid(), 1)));
    assert!(cmp_node(&a, &b));
}

#[test]
fn cmp_node_obj_same_keys() {
    let mut na = ObjNode::new(ts(sid(), 1));
    na.put("x", ts(sid(), 10));
    let mut nb = ObjNode::new(ts(sid(), 1));
    nb.put("x", ts(sid(), 10));
    let a = CrdtNode::Obj(na);
    let b = CrdtNode::Obj(nb);
    assert!(cmp_node(&a, &b));
}

#[test]
fn cmp_node_obj_different_keys() {
    let mut na = ObjNode::new(ts(sid(), 1));
    na.put("x", ts(sid(), 10));
    let mut nb = ObjNode::new(ts(sid(), 1));
    nb.put("x", ts(sid(), 11));
    let a = CrdtNode::Obj(na);
    let b = CrdtNode::Obj(nb);
    assert!(!cmp_node(&a, &b));
}


#[test]
fn cmp_val_both_resolve_same_content() {
    let mut index = NodeIndex::new();
    // Two Val nodes pointing to different Ts but both resolve to same Con value.
    let con_a = CrdtNode::Con(ConNode::new(
        ts(sid(), 10),
        ConValue::Val(JsonBinary::Number(Number::from(99))),
    ));
    let con_b = CrdtNode::Con(ConNode::new(
        ts(sid(), 20),
        ConValue::Val(JsonBinary::Number(Number::from(99))),
    ));
    index.insert(node_key(ts(sid(), 10)), con_a);
    index.insert(node_key(ts(sid(), 20)), con_b);

    let mut va = ValNode::new(ts(sid(), 1));
    va.val = ts(sid(), 10);
    let mut vb = ValNode::new(ts(sid(), 2));
    vb.val = ts(sid(), 20);
    let a = CrdtNode::Val(va);
    let b = CrdtNode::Val(vb);
    assert!(cmp(&a, &b, true, &index));
}

#[test]
fn cmp_val_both_resolve_different_content() {
    let mut index = NodeIndex::new();
    let con_a = CrdtNode::Con(ConNode::new(
        ts(sid(), 10),
        ConValue::Val(JsonBinary::Number(Number::from(1))),
    ));
    let con_b = CrdtNode::Con(ConNode::new(
        ts(sid(), 20),
        ConValue::Val(JsonBinary::Number(Number::from(2))),
    ));
    index.insert(node_key(ts(sid(), 10)), con_a);
    index.insert(node_key(ts(sid(), 20)), con_b);

    let mut va = ValNode::new(ts(sid(), 1));
    va.val = ts(sid(), 10);
    let mut vb = ValNode::new(ts(sid(), 2));
    vb.val = ts(sid(), 20);
    let a = CrdtNode::Val(va);
    let b = CrdtNode::Val(vb);
    assert!(!cmp(&a, &b, true, &index));
}

#[test]
fn cmp_val_one_missing_from_index() {
    let mut index = NodeIndex::new();
    let con_a = CrdtNode::Con(ConNode::new(ts(sid(), 10), ConValue::Val(JsonBinary::Null)));
    index.insert(node_key(ts(sid(), 10)), con_a);

    let mut va = ValNode::new(ts(sid(), 1));
    va.val = ts(sid(), 10);
    let mut vb = ValNode::new(ts(sid(), 2));
    vb.val = ts(sid(), 99); // not in index
    let a = CrdtNode::Val(va);
    let b = CrdtNode::Val(vb);
    assert!(!cmp(&a, &b, true, &index));
}

#[test]
fn cmp_val_both_missing_from_index() {
    let index = NodeIndex::new();
    let mut va = ValNode::new(ts(sid(), 1));
    va.val = ts(sid(), 50);
    let mut vb = ValNode::new(ts(sid(), 2));
    vb.val = ts(sid(), 60);
    let a = CrdtNode::Val(va);
    let b = CrdtNode::Val(vb);
    // Both missing → true
    assert!(cmp(&a, &b, true, &index));
}


#[test]
fn cmp_str_same_content() {
    let index = NodeIndex::new();
    let mut sa = StrNode::new(ts(sid(), 1));
    sa.ins(ts(sid(), 1), ts(sid(), 10), "hello".into());
    let mut sb = StrNode::new(ts(sid(), 2));
    sb.ins(ts(sid(), 2), ts(sid(), 20), "hello".into());
    let a = CrdtNode::Str(sa);
    let b = CrdtNode::Str(sb);
    assert!(cmp(&a, &b, true, &index));
}

#[test]
fn cmp_str_different_content() {
    let index = NodeIndex::new();
    let mut sa = StrNode::new(ts(sid(), 1));
    sa.ins(ts(sid(), 1), ts(sid(), 10), "hello".into());
    let mut sb = StrNode::new(ts(sid(), 2));
    sb.ins(ts(sid(), 2), ts(sid(), 20), "world".into());
    let a = CrdtNode::Str(sa);
    let b = CrdtNode::Str(sb);
    assert!(!cmp(&a, &b, true, &index));
}

#[test]
fn cmp_str_no_content_same_length() {
    let index = NodeIndex::new();
    let mut sa = StrNode::new(ts(sid(), 1));
    sa.ins(ts(sid(), 1), ts(sid(), 10), "abc".into());
    let mut sb = StrNode::new(ts(sid(), 2));
    sb.ins(ts(sid(), 2), ts(sid(), 20), "xyz".into());
    let a = CrdtNode::Str(sa);
    let b = CrdtNode::Str(sb);
    // compare_content=false, same type → true
    assert!(cmp(&a, &b, false, &index));
}


#[test]
fn cmp_bin_same_data() {
    let index = NodeIndex::new();
    let mut ba = BinNode::new(ts(sid(), 1));
    ba.ins(ts(sid(), 1), ts(sid(), 10), vec![1, 2, 3]);
    let mut bb = BinNode::new(ts(sid(), 2));
    bb.ins(ts(sid(), 2), ts(sid(), 20), vec![1, 2, 3]);
    let a = CrdtNode::Bin(ba);
    let b = CrdtNode::Bin(bb);
    assert!(cmp(&a, &b, true, &index));
}

#[test]
fn cmp_bin_different_data() {
    let index = NodeIndex::new();
    let mut ba = BinNode::new(ts(sid(), 1));
    ba.ins(ts(sid(), 1), ts(sid(), 10), vec![1, 2, 3]);
    let mut bb = BinNode::new(ts(sid(), 2));
    bb.ins(ts(sid(), 2), ts(sid(), 20), vec![4, 5, 6]);
    let a = CrdtNode::Bin(ba);
    let b = CrdtNode::Bin(bb);
    assert!(!cmp(&a, &b, true, &index));
}

#[test]
fn cmp_bin_no_content() {
    let index = NodeIndex::new();
    let mut ba = BinNode::new(ts(sid(), 1));
    ba.ins(ts(sid(), 1), ts(sid(), 10), vec![1, 2]);
    let mut bb = BinNode::new(ts(sid(), 2));
    bb.ins(ts(sid(), 2), ts(sid(), 20), vec![9, 8]);
    let a = CrdtNode::Bin(ba);
    let b = CrdtNode::Bin(bb);
    assert!(cmp(&a, &b, false, &index));
}


#[test]
fn cmp_obj_same_keys_same_values() {
    let mut index = NodeIndex::new();
    let con_a = CrdtNode::Con(ConNode::new(
        ts(sid(), 10),
        ConValue::Val(JsonBinary::Number(Number::from(42))),
    ));
    let con_b = CrdtNode::Con(ConNode::new(
        ts(sid(), 20),
        ConValue::Val(JsonBinary::Number(Number::from(42))),
    ));
    index.insert(node_key(ts(sid(), 10)), con_a);
    index.insert(node_key(ts(sid(), 20)), con_b);

    let mut oa = ObjNode::new(ts(sid(), 1));
    oa.put("key", ts(sid(), 10));
    let mut ob = ObjNode::new(ts(sid(), 2));
    ob.put("key", ts(sid(), 20));
    let a = CrdtNode::Obj(oa);
    let b = CrdtNode::Obj(ob);
    assert!(cmp(&a, &b, true, &index));
}

#[test]
fn cmp_obj_different_key_count() {
    let index = NodeIndex::new();
    let mut oa = ObjNode::new(ts(sid(), 1));
    oa.put("x", ts(sid(), 10));
    let ob = ObjNode::new(ts(sid(), 2));
    let a = CrdtNode::Obj(oa);
    let b = CrdtNode::Obj(ob);
    assert!(!cmp(&a, &b, true, &index));
}

#[test]
fn cmp_obj_missing_key_in_b() {
    let index = NodeIndex::new();
    let mut oa = ObjNode::new(ts(sid(), 1));
    oa.put("x", ts(sid(), 10));
    let mut ob = ObjNode::new(ts(sid(), 2));
    ob.put("y", ts(sid(), 20));
    let a = CrdtNode::Obj(oa);
    let b = CrdtNode::Obj(ob);
    assert!(!cmp(&a, &b, true, &index));
}

#[test]
fn cmp_obj_value_one_missing_from_index() {
    let mut index = NodeIndex::new();
    let con_a = CrdtNode::Con(ConNode::new(ts(sid(), 10), ConValue::Val(JsonBinary::Null)));
    index.insert(node_key(ts(sid(), 10)), con_a);
    // ts(sid(), 20) is NOT in the index

    let mut oa = ObjNode::new(ts(sid(), 1));
    oa.put("k", ts(sid(), 10));
    let mut ob = ObjNode::new(ts(sid(), 2));
    ob.put("k", ts(sid(), 20));
    let a = CrdtNode::Obj(oa);
    let b = CrdtNode::Obj(ob);
    assert!(!cmp(&a, &b, true, &index));
}


#[test]
fn cmp_vec_same_elements() {
    let mut index = NodeIndex::new();
    let con_a = CrdtNode::Con(ConNode::new(
        ts(sid(), 10),
        ConValue::Val(JsonBinary::Number(Number::from(1))),
    ));
    let con_b = CrdtNode::Con(ConNode::new(
        ts(sid(), 20),
        ConValue::Val(JsonBinary::Number(Number::from(1))),
    ));
    index.insert(node_key(ts(sid(), 10)), con_a);
    index.insert(node_key(ts(sid(), 20)), con_b);

    let mut va = VecNode::new(ts(sid(), 1));
    va.put(0, ts(sid(), 10));
    let mut vb = VecNode::new(ts(sid(), 2));
    vb.put(0, ts(sid(), 20));
    let a = CrdtNode::Vec(va);
    let b = CrdtNode::Vec(vb);
    assert!(cmp(&a, &b, true, &index));
}

#[test]
fn cmp_vec_different_lengths() {
    let mut index = NodeIndex::new();
    let con = CrdtNode::Con(ConNode::new(ts(sid(), 10), ConValue::Val(JsonBinary::Null)));
    index.insert(node_key(ts(sid(), 10)), con);

    let mut va = VecNode::new(ts(sid(), 1));
    va.put(0, ts(sid(), 10));
    let vb = VecNode::new(ts(sid(), 2));
    let a = CrdtNode::Vec(va);
    let b = CrdtNode::Vec(vb);
    assert!(!cmp(&a, &b, true, &index));
}

#[test]
fn cmp_vec_none_elements_equal() {
    let index = NodeIndex::new();
    // Both have 1 element slot but it's None
    let mut va = VecNode::new(ts(sid(), 1));
    va.elements.push(None);
    let mut vb = VecNode::new(ts(sid(), 2));
    vb.elements.push(None);
    let a = CrdtNode::Vec(va);
    let b = CrdtNode::Vec(vb);
    assert!(cmp(&a, &b, true, &index));
}

#[test]
fn cmp_vec_one_none_one_some() {
    let index = NodeIndex::new();
    let mut va = VecNode::new(ts(sid(), 1));
    va.elements.push(None);
    let mut vb = VecNode::new(ts(sid(), 2));
    vb.elements.push(Some(ts(sid(), 10)));
    let a = CrdtNode::Vec(va);
    let b = CrdtNode::Vec(vb);
    assert!(!cmp(&a, &b, true, &index));
}


#[test]
fn cmp_arr_empty_equal() {
    let index = NodeIndex::new();
    let a = CrdtNode::Arr(ArrNode::new(ts(sid(), 1)));
    let b = CrdtNode::Arr(ArrNode::new(ts(sid(), 2)));
    assert!(cmp(&a, &b, true, &index));
}

#[test]
fn cmp_arr_different_length() {
    let mut index = NodeIndex::new();
    let con = CrdtNode::Con(ConNode::new(ts(sid(), 50), ConValue::Val(JsonBinary::Null)));
    index.insert(node_key(ts(sid(), 50)), con);

    let mut arr_a = ArrNode::new(ts(sid(), 1));
    arr_a.ins(ts(sid(), 1), ts(sid(), 10), vec![ts(sid(), 50)]);
    let arr_b = ArrNode::new(ts(sid(), 2));
    let a = CrdtNode::Arr(arr_a);
    let b = CrdtNode::Arr(arr_b);
    assert!(!cmp(&a, &b, true, &index));
}

#[test]
fn cmp_arr_same_length_no_content() {
    let mut index = NodeIndex::new();
    let con_a = CrdtNode::Con(ConNode::new(
        ts(sid(), 50),
        ConValue::Val(JsonBinary::Number(Number::from(1))),
    ));
    let con_b = CrdtNode::Con(ConNode::new(
        ts(sid(), 60),
        ConValue::Val(JsonBinary::Number(Number::from(2))),
    ));
    index.insert(node_key(ts(sid(), 50)), con_a);
    index.insert(node_key(ts(sid(), 60)), con_b);

    let mut arr_a = ArrNode::new(ts(sid(), 1));
    arr_a.ins(ts(sid(), 1), ts(sid(), 10), vec![ts(sid(), 50)]);
    let mut arr_b = ArrNode::new(ts(sid(), 2));
    arr_b.ins(ts(sid(), 2), ts(sid(), 20), vec![ts(sid(), 60)]);
    let a = CrdtNode::Arr(arr_a);
    let b = CrdtNode::Arr(arr_b);
    // same length, compare_content=false → true
    assert!(cmp(&a, &b, false, &index));
}

#[test]
fn cmp_arr_same_length_different_content() {
    let mut index = NodeIndex::new();
    let con_a = CrdtNode::Con(ConNode::new(
        ts(sid(), 50),
        ConValue::Val(JsonBinary::Number(Number::from(1))),
    ));
    let con_b = CrdtNode::Con(ConNode::new(
        ts(sid(), 60),
        ConValue::Val(JsonBinary::Number(Number::from(2))),
    ));
    index.insert(node_key(ts(sid(), 50)), con_a);
    index.insert(node_key(ts(sid(), 60)), con_b);

    let mut arr_a = ArrNode::new(ts(sid(), 1));
    arr_a.ins(ts(sid(), 1), ts(sid(), 10), vec![ts(sid(), 50)]);
    let mut arr_b = ArrNode::new(ts(sid(), 2));
    arr_b.ins(ts(sid(), 2), ts(sid(), 20), vec![ts(sid(), 60)]);
    let a = CrdtNode::Arr(arr_a);
    let b = CrdtNode::Arr(arr_b);
    assert!(!cmp(&a, &b, true, &index));
}


#[test]
fn cmp_same_pointer_returns_true() {
    let index = NodeIndex::new();
    let a = CrdtNode::Con(ConNode::new(
        ts(sid(), 1),
        ConValue::Val(JsonBinary::Number(Number::from(42))),
    ));
    assert!(cmp(&a, &a, true, &index));
}


#[test]
fn cmp_node_val_same_id_same_val() {
    let mut va = ValNode::new(ts(sid(), 1));
    va.val = ts(sid(), 10);
    let mut vb = ValNode::new(ts(sid(), 1));
    vb.val = ts(sid(), 10);
    let a = CrdtNode::Val(va);
    let b = CrdtNode::Val(vb);
    assert!(cmp_node(&a, &b));
}

#[test]
fn cmp_node_val_same_id_different_val() {
    let mut va = ValNode::new(ts(sid(), 1));
    va.val = ts(sid(), 10);
    let mut vb = ValNode::new(ts(sid(), 1));
    vb.val = ts(sid(), 20);
    let a = CrdtNode::Val(va);
    let b = CrdtNode::Val(vb);
    assert!(!cmp_node(&a, &b));
}

#[test]
fn cmp_node_val_different_id() {
    let va = ValNode::new(ts(sid(), 1));
    let vb = ValNode::new(ts(sid(), 2));
    let a = CrdtNode::Val(va);
    let b = CrdtNode::Val(vb);
    assert!(!cmp_node(&a, &b));
}


#[test]
fn cmp_node_vec_same() {
    let mut va = VecNode::new(ts(sid(), 1));
    va.put(0, ts(sid(), 10));
    let mut vb = VecNode::new(ts(sid(), 1));
    vb.put(0, ts(sid(), 10));
    let a = CrdtNode::Vec(va);
    let b = CrdtNode::Vec(vb);
    assert!(cmp_node(&a, &b));
}

#[test]
fn cmp_node_vec_different_length() {
    let mut va = VecNode::new(ts(sid(), 1));
    va.put(0, ts(sid(), 10));
    let vb = VecNode::new(ts(sid(), 1));
    let a = CrdtNode::Vec(va);
    let b = CrdtNode::Vec(vb);
    assert!(!cmp_node(&a, &b));
}

#[test]
fn cmp_node_vec_different_element_ts() {
    let mut va = VecNode::new(ts(sid(), 1));
    va.put(0, ts(sid(), 10));
    let mut vb = VecNode::new(ts(sid(), 1));
    vb.put(0, ts(sid(), 20));
    let a = CrdtNode::Vec(va);
    let b = CrdtNode::Vec(vb);
    assert!(!cmp_node(&a, &b));
}

#[test]
fn cmp_node_vec_none_vs_some() {
    let mut va = VecNode::new(ts(sid(), 1));
    va.elements.push(None);
    let mut vb = VecNode::new(ts(sid(), 1));
    vb.put(0, ts(sid(), 10));
    let a = CrdtNode::Vec(va);
    let b = CrdtNode::Vec(vb);
    assert!(!cmp_node(&a, &b));
}


#[test]
fn cmp_node_obj_different_id() {
    let na = ObjNode::new(ts(sid(), 1));
    let nb = ObjNode::new(ts(sid(), 2));
    let a = CrdtNode::Obj(na);
    let b = CrdtNode::Obj(nb);
    assert!(!cmp_node(&a, &b));
}

#[test]
fn cmp_node_obj_different_key_count() {
    let mut na = ObjNode::new(ts(sid(), 1));
    na.put("x", ts(sid(), 10));
    let nb = ObjNode::new(ts(sid(), 1));
    let a = CrdtNode::Obj(na);
    let b = CrdtNode::Obj(nb);
    assert!(!cmp_node(&a, &b));
}

#[test]
fn cmp_node_obj_different_key_names() {
    let mut na = ObjNode::new(ts(sid(), 1));
    na.put("x", ts(sid(), 10));
    let mut nb = ObjNode::new(ts(sid(), 1));
    nb.put("y", ts(sid(), 10));
    let a = CrdtNode::Obj(na);
    let b = CrdtNode::Obj(nb);
    assert!(!cmp_node(&a, &b));
}


#[test]
fn cmp_node_same_pointer_returns_true() {
    let a = CrdtNode::Con(ConNode::new(
        ts(sid(), 1),
        ConValue::Val(JsonBinary::Number(Number::from(42))),
    ));
    assert!(cmp_node(&a, &a));
}


#[test]
fn cmp_node_bin_same_empty() {
    let a = CrdtNode::Bin(BinNode::new(ts(sid(), 1)));
    let b = CrdtNode::Bin(BinNode::new(ts(sid(), 1)));
    assert!(cmp_node(&a, &b));
}

#[test]
fn cmp_node_bin_different_id() {
    let a = CrdtNode::Bin(BinNode::new(ts(sid(), 1)));
    let b = CrdtNode::Bin(BinNode::new(ts(sid(), 2)));
    assert!(!cmp_node(&a, &b));
}

#[test]
fn cmp_node_bin_same_with_data() {
    let mut ba = BinNode::new(ts(sid(), 1));
    ba.ins(ts(sid(), 1), ts(sid(), 10), vec![1, 2, 3]);
    let mut bb = BinNode::new(ts(sid(), 1));
    bb.ins(ts(sid(), 1), ts(sid(), 10), vec![1, 2, 3]);
    let a = CrdtNode::Bin(ba);
    let b = CrdtNode::Bin(bb);
    assert!(cmp_node(&a, &b));
}

#[test]
fn cmp_node_bin_different_chunk_id() {
    let mut ba = BinNode::new(ts(sid(), 1));
    ba.ins(ts(sid(), 1), ts(sid(), 10), vec![1, 2]);
    let mut bb = BinNode::new(ts(sid(), 1));
    bb.ins(ts(sid(), 1), ts(sid(), 20), vec![1, 2]);
    let a = CrdtNode::Bin(ba);
    let b = CrdtNode::Bin(bb);
    assert!(!cmp_node(&a, &b));
}

#[test]
fn cmp_node_bin_different_length() {
    let mut ba = BinNode::new(ts(sid(), 1));
    ba.ins(ts(sid(), 1), ts(sid(), 10), vec![1, 2]);
    let mut bb = BinNode::new(ts(sid(), 1));
    bb.ins(ts(sid(), 1), ts(sid(), 10), vec![1, 2, 3]);
    let a = CrdtNode::Bin(ba);
    let b = CrdtNode::Bin(bb);
    assert!(!cmp_node(&a, &b));
}


#[test]
fn cmp_node_arr_same_empty() {
    let a = CrdtNode::Arr(ArrNode::new(ts(sid(), 1)));
    let b = CrdtNode::Arr(ArrNode::new(ts(sid(), 1)));
    assert!(cmp_node(&a, &b));
}

#[test]
fn cmp_node_arr_different_id() {
    let a = CrdtNode::Arr(ArrNode::new(ts(sid(), 1)));
    let b = CrdtNode::Arr(ArrNode::new(ts(sid(), 2)));
    assert!(!cmp_node(&a, &b));
}

#[test]
fn cmp_node_arr_same_with_data() {
    let mut aa = ArrNode::new(ts(sid(), 1));
    aa.ins(ts(sid(), 1), ts(sid(), 10), vec![ts(sid(), 50)]);
    let mut ab = ArrNode::new(ts(sid(), 1));
    ab.ins(ts(sid(), 1), ts(sid(), 10), vec![ts(sid(), 50)]);
    let a = CrdtNode::Arr(aa);
    let b = CrdtNode::Arr(ab);
    assert!(cmp_node(&a, &b));
}

#[test]
fn cmp_node_arr_different_chunk_id() {
    let mut aa = ArrNode::new(ts(sid(), 1));
    aa.ins(ts(sid(), 1), ts(sid(), 10), vec![ts(sid(), 50)]);
    let mut ab = ArrNode::new(ts(sid(), 1));
    ab.ins(ts(sid(), 1), ts(sid(), 20), vec![ts(sid(), 50)]);
    let a = CrdtNode::Arr(aa);
    let b = CrdtNode::Arr(ab);
    assert!(!cmp_node(&a, &b));
}

#[test]
fn cmp_node_arr_different_size() {
    let mut aa = ArrNode::new(ts(sid(), 1));
    aa.ins(ts(sid(), 1), ts(sid(), 10), vec![ts(sid(), 50)]);
    let ab = ArrNode::new(ts(sid(), 1));
    let a = CrdtNode::Arr(aa);
    let b = CrdtNode::Arr(ab);
    assert!(!cmp_node(&a, &b));
}


#[test]
fn cmp_node_str_same_with_data() {
    let mut sa = StrNode::new(ts(sid(), 1));
    sa.ins(ts(sid(), 1), ts(sid(), 10), "hello".into());
    let mut sb = StrNode::new(ts(sid(), 1));
    sb.ins(ts(sid(), 1), ts(sid(), 10), "hello".into());
    let a = CrdtNode::Str(sa);
    let b = CrdtNode::Str(sb);
    assert!(cmp_node(&a, &b));
}

#[test]
fn cmp_node_str_different_chunk_id() {
    let mut sa = StrNode::new(ts(sid(), 1));
    sa.ins(ts(sid(), 1), ts(sid(), 10), "abc".into());
    let mut sb = StrNode::new(ts(sid(), 1));
    sb.ins(ts(sid(), 1), ts(sid(), 20), "abc".into());
    let a = CrdtNode::Str(sa);
    let b = CrdtNode::Str(sb);
    assert!(!cmp_node(&a, &b));
}

#[test]
fn cmp_node_str_different_size() {
    let mut sa = StrNode::new(ts(sid(), 1));
    sa.ins(ts(sid(), 1), ts(sid(), 10), "ab".into());
    let mut sb = StrNode::new(ts(sid(), 1));
    sb.ins(ts(sid(), 1), ts(sid(), 10), "abc".into());
    let a = CrdtNode::Str(sa);
    let b = CrdtNode::Str(sb);
    assert!(!cmp_node(&a, &b));
}

#[test]
fn cmp_node_str_different_id() {
    let a = CrdtNode::Str(StrNode::new(ts(sid(), 1)));
    let b = CrdtNode::Str(StrNode::new(ts(sid(), 2)));
    assert!(!cmp_node(&a, &b));
}


#[test]
fn cmp_obj_values_both_missing_from_index() {
    let index = NodeIndex::new();
    let mut oa = ObjNode::new(ts(sid(), 1));
    oa.put("k", ts(sid(), 10));
    let mut ob = ObjNode::new(ts(sid(), 2));
    ob.put("k", ts(sid(), 20));
    let a = CrdtNode::Obj(oa);
    let b = CrdtNode::Obj(ob);
    // Both values missing from index → (None, None) → true
    assert!(cmp(&a, &b, true, &index));
}


#[test]
fn cmp_obj_multiple_keys_same_values() {
    let mut index = NodeIndex::new();
    index.insert(
        node_key(ts(sid(), 10)),
        CrdtNode::Con(ConNode::new(
            ts(sid(), 10),
            ConValue::Val(JsonBinary::Number(Number::from(1))),
        )),
    );
    index.insert(
        node_key(ts(sid(), 20)),
        CrdtNode::Con(ConNode::new(
            ts(sid(), 20),
            ConValue::Val(JsonBinary::Number(Number::from(1))),
        )),
    );
    index.insert(
        node_key(ts(sid(), 30)),
        CrdtNode::Con(ConNode::new(
            ts(sid(), 30),
            ConValue::Val(JsonBinary::String("x".into())),
        )),
    );
    index.insert(
        node_key(ts(sid(), 40)),
        CrdtNode::Con(ConNode::new(
            ts(sid(), 40),
            ConValue::Val(JsonBinary::String("x".into())),
        )),
    );

    let mut oa = ObjNode::new(ts(sid(), 1));
    oa.put("a", ts(sid(), 10));
    oa.put("b", ts(sid(), 30));
    let mut ob = ObjNode::new(ts(sid(), 2));
    ob.put("a", ts(sid(), 20));
    ob.put("b", ts(sid(), 40));
    let a = CrdtNode::Obj(oa);
    let b = CrdtNode::Obj(ob);
    assert!(cmp(&a, &b, true, &index));
}

#[test]
fn cmp_obj_multiple_keys_one_different() {
    let mut index = NodeIndex::new();
    index.insert(
        node_key(ts(sid(), 10)),
        CrdtNode::Con(ConNode::new(
            ts(sid(), 10),
            ConValue::Val(JsonBinary::Number(Number::from(1))),
        )),
    );
    index.insert(
        node_key(ts(sid(), 20)),
        CrdtNode::Con(ConNode::new(
            ts(sid(), 20),
            ConValue::Val(JsonBinary::Number(Number::from(1))),
        )),
    );
    index.insert(
        node_key(ts(sid(), 30)),
        CrdtNode::Con(ConNode::new(
            ts(sid(), 30),
            ConValue::Val(JsonBinary::String("x".into())),
        )),
    );
    index.insert(
        node_key(ts(sid(), 40)),
        CrdtNode::Con(ConNode::new(
            ts(sid(), 40),
            ConValue::Val(JsonBinary::String("y".into())),
        )),
    );

    let mut oa = ObjNode::new(ts(sid(), 1));
    oa.put("a", ts(sid(), 10));
    oa.put("b", ts(sid(), 30));
    let mut ob = ObjNode::new(ts(sid(), 2));
    ob.put("a", ts(sid(), 20));
    ob.put("b", ts(sid(), 40));
    let a = CrdtNode::Obj(oa);
    let b = CrdtNode::Obj(ob);
    assert!(!cmp(&a, &b, true, &index));
}


#[test]
fn cmp_vec_same_length_different_values() {
    let mut index = NodeIndex::new();
    index.insert(
        node_key(ts(sid(), 10)),
        CrdtNode::Con(ConNode::new(
            ts(sid(), 10),
            ConValue::Val(JsonBinary::Number(Number::from(1))),
        )),
    );
    index.insert(
        node_key(ts(sid(), 20)),
        CrdtNode::Con(ConNode::new(
            ts(sid(), 20),
            ConValue::Val(JsonBinary::Number(Number::from(2))),
        )),
    );

    let mut va = VecNode::new(ts(sid(), 1));
    va.put(0, ts(sid(), 10));
    let mut vb = VecNode::new(ts(sid(), 2));
    vb.put(0, ts(sid(), 20));
    let a = CrdtNode::Vec(va);
    let b = CrdtNode::Vec(vb);
    assert!(!cmp(&a, &b, true, &index));
}

#[test]
fn cmp_vec_no_content_ignores_values() {
    let mut index = NodeIndex::new();
    index.insert(
        node_key(ts(sid(), 10)),
        CrdtNode::Con(ConNode::new(
            ts(sid(), 10),
            ConValue::Val(JsonBinary::Number(Number::from(1))),
        )),
    );
    index.insert(
        node_key(ts(sid(), 20)),
        CrdtNode::Con(ConNode::new(
            ts(sid(), 20),
            ConValue::Val(JsonBinary::Number(Number::from(2))),
        )),
    );

    let mut va = VecNode::new(ts(sid(), 1));
    va.put(0, ts(sid(), 10));
    let mut vb = VecNode::new(ts(sid(), 2));
    vb.put(0, ts(sid(), 20));
    let a = CrdtNode::Vec(va);
    let b = CrdtNode::Vec(vb);
    assert!(cmp(&a, &b, false, &index));
}


#[test]
fn cmp_vec_elements_both_missing_from_index() {
    let index = NodeIndex::new();
    let mut va = VecNode::new(ts(sid(), 1));
    va.put(0, ts(sid(), 10));
    let mut vb = VecNode::new(ts(sid(), 2));
    vb.put(0, ts(sid(), 20));
    let a = CrdtNode::Vec(va);
    let b = CrdtNode::Vec(vb);
    // Both elements missing from index → (None, None) → true
    assert!(cmp(&a, &b, true, &index));
}


#[test]
fn cmp_arr_same_content() {
    let mut index = NodeIndex::new();
    index.insert(
        node_key(ts(sid(), 50)),
        CrdtNode::Con(ConNode::new(
            ts(sid(), 50),
            ConValue::Val(JsonBinary::Number(Number::from(42))),
        )),
    );
    index.insert(
        node_key(ts(sid(), 60)),
        CrdtNode::Con(ConNode::new(
            ts(sid(), 60),
            ConValue::Val(JsonBinary::Number(Number::from(42))),
        )),
    );

    let mut arr_a = ArrNode::new(ts(sid(), 1));
    arr_a.ins(ts(sid(), 1), ts(sid(), 10), vec![ts(sid(), 50)]);
    let mut arr_b = ArrNode::new(ts(sid(), 2));
    arr_b.ins(ts(sid(), 2), ts(sid(), 20), vec![ts(sid(), 60)]);
    let a = CrdtNode::Arr(arr_a);
    let b = CrdtNode::Arr(arr_b);
    assert!(cmp(&a, &b, true, &index));
}


#[test]
fn cmp_arr_elements_both_missing_from_index() {
    let index = NodeIndex::new();

    let mut arr_a = ArrNode::new(ts(sid(), 1));
    arr_a.ins(ts(sid(), 1), ts(sid(), 10), vec![ts(sid(), 50)]);
    let mut arr_b = ArrNode::new(ts(sid(), 2));
    arr_b.ins(ts(sid(), 2), ts(sid(), 20), vec![ts(sid(), 60)]);
    let a = CrdtNode::Arr(arr_a);
    let b = CrdtNode::Arr(arr_b);
    // Both elements missing → (None, None) → true
    assert!(cmp(&a, &b, true, &index));
}


#[test]
fn cmp_bin_different_length() {
    let index = NodeIndex::new();
    let mut ba = BinNode::new(ts(sid(), 1));
    ba.ins(ts(sid(), 1), ts(sid(), 10), vec![1, 2, 3]);
    let mut bb = BinNode::new(ts(sid(), 2));
    bb.ins(ts(sid(), 2), ts(sid(), 20), vec![1, 2]);
    let a = CrdtNode::Bin(ba);
    let b = CrdtNode::Bin(bb);
    assert!(!cmp(&a, &b, true, &index));
}


#[test]
fn cmp_str_different_length() {
    let index = NodeIndex::new();
    let mut sa = StrNode::new(ts(sid(), 1));
    sa.ins(ts(sid(), 1), ts(sid(), 10), "hello".into());
    let mut sb = StrNode::new(ts(sid(), 2));
    sb.ins(ts(sid(), 2), ts(sid(), 20), "hi".into());
    let a = CrdtNode::Str(sa);
    let b = CrdtNode::Str(sb);
    assert!(!cmp(&a, &b, true, &index));
}

#[test]
fn node_id_and_name_per_kind() {
    let nodes = vec![
        CrdtNode::Con(ConNode::new(ts(1, 1), ConValue::Ref(ts(1, 0)))),
        CrdtNode::Val(ValNode::new(ts(1, 2))),
        CrdtNode::Obj(ObjNode::new(ts(1, 3))),
        CrdtNode::Vec(VecNode::new(ts(1, 4))),
        CrdtNode::Str(StrNode::new(ts(1, 5))),
        CrdtNode::Bin(BinNode::new(ts(1, 6))),
        CrdtNode::Arr(ArrNode::new(ts(1, 7))),
    ];
    let names = ["con", "val", "obj", "vec", "str", "bin", "arr"];
    for (i, n) in nodes.iter().enumerate() {
        assert_eq!(n.id(), ts(1, i as u64 + 1));
        assert_eq!(n.name(), names[i]);
    }
}

#[test]
fn child_ids_per_kind() {
    let v = ValNode::new(ts(1, 1));
    assert!(CrdtNode::Val(v).child_ids().is_empty());
    let mut v = ValNode::new(ts(1, 1));
    v.set(ts(1, 9));
    assert_eq!(CrdtNode::Val(v).child_ids(), vec![ts(1, 9)]);

    let mut o = ObjNode::new(ts(1, 2));
    o.put("b", ts(1, 20));
    o.put("a", ts(1, 21));
    o.put("b", ts(1, 22));
    assert_eq!(CrdtNode::Obj(o).child_ids(), vec![ts(1, 22), ts(1, 21)]);

    let mut t = VecNode::new(ts(1, 3));
    t.put(2, ts(1, 30));
    t.put(0, ts(1, 31));
    assert_eq!(CrdtNode::Vec(t).child_ids(), vec![ts(1, 31), ts(1, 30)]);

    let mut a = ArrNode::new(ts(1, 4));
    a.ins(ts(1, 4), ts(1, 40), vec![ts(1, 50), ts(1, 51)]);
    a.ins(ts(1, 41), ts(1, 42), vec![ts(1, 52)]);
    assert_eq!(CrdtNode::Arr(a).child_ids(), vec![ts(1, 50), ts(1, 51), ts(1, 52)]);

    assert!(CrdtNode::Str(StrNode::new(ts(1, 5))).child_ids().is_empty());
}

#[test]
fn cmp_follows_nested_references() {
    let mut index = NodeIndex::new();
    index.insert(node_key(ts(sid(), 10)), CrdtNode::Con(ConNode::new(ts(sid(), 10), ConValue::Val(JsonBinary::Bool(true)))));
    index.insert(node_key(ts(sid(), 20)), CrdtNode::Con(ConNode::new(ts(sid(), 20), ConValue::Val(JsonBinary::Bool(true)))));
    index.insert(node_key(ts(sid(), 30)), CrdtNode::Con(ConNode::new(ts(sid(), 30), ConValue::Val(JsonBinary::Bool(false)))));
    let mut inner_a = ObjNode::new(ts(sid(), 5));
    inner_a.put("flag", ts(sid(), 10));
    let mut inner_b = ObjNode::new(ts(sid(), 6));
    inner_b.put("flag", ts(sid(), 20));
    let mut inner_c = ObjNode::new(ts(sid(), 7));
    inner_c.put("flag", ts(sid(), 30));
    index.insert(node_key(ts(sid(), 5)), CrdtNode::Obj(inner_a));
    index.insert(node_key(ts(sid(), 6)), CrdtNode::Obj(inner_b));
    index.insert(node_key(ts(sid(), 7)), CrdtNode::Obj(inner_c));
    let mut outer_a = ValNode::new(ts(sid(), 1));
    outer_a.val = ts(sid(), 5);
    let mut outer_b = ValNode::new(ts(sid(), 2));
    outer_b.val = ts(sid(), 6);
    let mut outer_c = ValNode::new(ts(sid(), 3));
    outer_c.val = ts(sid(), 7);
    let a = CrdtNode::Val(outer_a);
    let b = CrdtNode::Val(outer_b);
    let c = CrdtNode::Val(outer_c);
    assert!(cmp(&a, &b, true, &index));
    assert!(!cmp(&a, &c, true, &index));
    assert!(cmp(&a, &c, false, &index));
}

#[test]
fn cmp_node_equal_to_itself() {
    let mut o = ObjNode::new(ts(sid(), 1));
    o.put("x", ts(sid(), 10));
    o.put("y", ts(sid(), 11));
    let a = CrdtNode::Obj(o);
    assert!(cmp_node(&a, &a));
    assert!(cmp(&a, &a, true, &NodeIndex::new()));
}

#[test]
fn cmp_con_references_compare_ids() {
    let index = NodeIndex::new();
    let a = CrdtNode::Con(ConNode::new(ts(sid(), 1), ConValue::Ref(ts(sid(), 5))));
    let b = CrdtNode::Con(ConNode::new(ts(sid(), 2), ConValue::Ref(ts(sid(), 5))));
    let c = CrdtNode::Con(ConNode::new(ts(sid(), 3), ConValue::Ref(ts(sid(), 6))));
    let d = CrdtNode::Con(ConNode::new(ts(sid(), 4), ConValue::Val(JsonBinary::Null)));
    assert!(cmp(&a, &b, true, &index));
    assert!(!cmp(&a, &c, true, &index));
    assert!(!cmp(&a, &d, true, &index));
}

#[test]
fn index_ext_by_node_id() {
    let mut index = NodeIndex::new();
    index.insert_node(ts(3, 7), CrdtNode::Val(ValNode::new(ts(3, 7))));
    assert!(index.contains_ts(&ts(3, 7)));
    assert!(!index.contains_ts(&ts(7, 3)));
    assert_eq!(IndexExt::get(&index, &ts(3, 7)).map(|n| n.id()), Some(ts(3, 7)));
    if let Some(CrdtNode::Val(v)) = index.get_mut_ts(&ts(3, 7)) {
        v.set(ts(3, 9));
    }
    match IndexExt::get(&index, &ts(3, 7)) {
        Some(CrdtNode::Val(v)) => assert_eq!(v.val, ts(3, 9)),
        _ => panic!("register expected"),
    }
    assert!(index.get_mut_ts(&ts(1, 1)).is_none());
    assert!(index.remove_node(&ts(3, 7)).is_some());
    assert!(index.remove_node(&ts(3, 7)).is_none());
    assert!(IndexExt::get(&index, &ts(3, 7)).is_none());
}

#[test]
fn node_index_iterates_in_time_first_order() {
    let mut index = NodeIndex::new();
    let nodes = [(ts(100, 3), "con3"), (ts(1, 1), "con1"), (ts(50, 2), "con2")];
    for (id, _label) in &nodes {
        index.insert_node(*id, CrdtNode::Con(ConNode::new(*id, ConValue::Val(JsonBinary::Null))));
    }
    let times: Vec<u64> = index.keys().map(|k| k.0).collect();
    assert_eq!(times, vec![1, 2, 3], "NodeIndex should iterate time-ascending");
}

#[test]
fn node_index_iterates_sid_ascending_on_time_tie() {
    let mut index = NodeIndex::new();
    let ids = [ts(30, 5), ts(10, 5), ts(20, 5)];
    for id in &ids {
        index.insert_node(*id, CrdtNode::Con(ConNode::new(*id, ConValue::Val(JsonBinary::Null))));
    }
    let sids: Vec<u64> = index.keys().map(|k| k.1).collect();
    assert_eq!(sids, vec![10, 20, 30], "same-time entries should order by sid");
}

#[test]
fn cmp_con_undefined_values() {
    let index = NodeIndex::new();
    let a = CrdtNode::Con(ConNode::new(ts(sid(), 1), ConValue::Undefined));
    let b = CrdtNode::Con(ConNode::new(ts(sid(), 2), ConValue::Undefined));
    let c = CrdtNode::Con(ConNode::new(ts(sid(), 3), ConValue::Val(JsonBinary::Null)));
    assert!(cmp(&a, &b, true, &index));
    assert!(!cmp(&a, &c, true, &index));
}
