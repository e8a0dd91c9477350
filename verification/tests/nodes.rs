use json_joy::clock::{origin, ts, tss, Ts};
use json_joy::nodes::{ArrNode, BinNode, ObjNode, RootNode, StrNode, TsKey, ValNode, VecNode};

fn sid() -> u64 {
    42
}

#[test]
fn str_size_ascii() {
    let mut s = StrNode::new(ts(sid(), 1));
    s.ins(origin(), ts(sid(), 2), "hello".into());
    assert_eq!(s.size(), 5);
}

#[test]
fn str_size_emoji_surrogate_pair() {
    let mut s = StrNode::new(ts(sid(), 1));
    s.ins(origin(), ts(sid(), 2), "😀".into());
    assert_eq!(s.size(), 2, "emoji should count as 2 UTF-16 code units");
}

#[test]
fn str_size_mixed_bmp_and_supplementary() {
    let mut s = StrNode::new(ts(sid(), 1));
    s.ins(origin(), ts(sid(), 2), "a😀b".into());
    assert_eq!(s.size(), 4);
}

#[test]
fn str_size_multiple_supplementary_chars() {
    let mut s = StrNode::new(ts(sid(), 1));
    s.ins(origin(), ts(sid(), 2), "🎉🎊".into());
    assert_eq!(s.size(), 4);
}

#[test]
fn str_size_cjk_bmp_char() {
    let mut s = StrNode::new(ts(sid(), 1));
    s.ins(origin(), ts(sid(), 2), "世".into());
    assert_eq!(s.size(), 1, "BMP CJK char should be 1 UTF-16 code unit");
}

#[test]
fn str_size_empty() {
    let s = StrNode::new(ts(sid(), 1));
    assert_eq!(s.size(), 0);
}

#[test]
fn str_find_accounts_for_utf16_spans() {
    let mut s = StrNode::new(ts(sid(), 1));
    s.ins(origin(), ts(sid(), 2), "😀b".into());
    let found = s.find(2);
    assert!(found.is_some(), "should find char at UTF-16 position 2");
    let found_ts = found.unwrap();
    assert_eq!(found_ts.time, ts(sid(), 2).time + 2);
}

#[test]
fn tskey_orders_by_time_first() {
    let a = TsKey { sid: 100, time: 1 };
    let b = TsKey { sid: 1, time: 2 };
    assert!(a < b);
}

#[test]
fn tskey_orders_by_sid_on_time_tie() {
    let a = TsKey { sid: 1, time: 5 };
    let b = TsKey { sid: 2, time: 5 };
    assert!(a < b);
}

#[test]
fn tskey_from_ts_keeps_fields() {
    let k = TsKey::from(ts(7, 9));
    assert_eq!(k, TsKey { sid: 7, time: 9 });
}

#[test]
fn val_node_last_write_wins() {
    let mut v = ValNode::new(ts(1, 1));
    assert_eq!(v.val, origin());
    assert_eq!(v.set(ts(1, 5)), Some(origin()));
    assert_eq!(v.set(ts(1, 3)), None);
    assert_eq!(v.val, ts(1, 5));
    // Same time, higher session wins.
    assert_eq!(v.set(ts(2, 5)), Some(ts(1, 5)));
    assert_eq!(v.val, ts(2, 5));
}

#[test]
fn root_node_starts_undefined_and_keeps_newest() {
    let mut r = RootNode::default();
    assert_eq!(r.val, ts(0, 1));
    assert_eq!(r.set(ts(0, 0)), None);
    assert_eq!(r.set(ts(3, 2)), Some(ts(0, 1)));
    assert_eq!(r.val, ts(3, 2));
}

#[test]
fn vec_node_put_grows_and_keeps_newest() {
    let mut v = VecNode::new(ts(1, 1));
    assert_eq!(v.put(2, ts(1, 10)), None);
    assert_eq!(v.elements, vec![None, None, Some(ts(1, 10))]);
    assert_eq!(v.put(2, ts(1, 9)), None);
    assert_eq!(v.elements[2], Some(ts(1, 10)));
    assert_eq!(v.put(2, ts(1, 11)), Some(ts(1, 10)));
    assert_eq!(v.elements[2], Some(ts(1, 11)));
    // A write past the end grows the tuple.
    assert_eq!(v.put(4, ts(1, 1)), None);
    assert_eq!(v.elements.len(), 5);
}

#[test]
fn str_node_view_find_and_interval() {
    let mut s = StrNode::new(ts(1, 1));
    s.ins(origin(), ts(1, 2), "hello".into());
    s.ins(ts(1, 6), ts(1, 7), " world".into());
    assert_eq!(s.view_str(), "hello world");
    s.delete(&[tss(1, 3, 2)]);
    assert_eq!(s.view_str(), "hlo world");
    assert_eq!(s.size(), 9);
    assert_eq!(s.find(1), Some(ts(1, 5)));
    assert_eq!(s.find(9), None);
    let iv = s.find_interval(1, 4);
    assert_eq!(iv, vec![tss(1, 5, 2), tss(1, 7, 2)]);
}

#[test]
fn bin_node_view() {
    let mut b = BinNode::new(ts(1, 1));
    b.ins(origin(), ts(1, 2), vec![1, 2, 3]);
    b.ins(ts(1, 4), ts(1, 5), vec![4, 5]);
    b.delete(&[tss(1, 3, 1)]);
    assert_eq!(b.view(), vec![1, 3, 4, 5]);
}

#[test]
fn arr_node_positions_and_updates() {
    let mut a = ArrNode::new(ts(1, 1));
    let items: Vec<Ts> = vec![ts(5, 1), ts(5, 2), ts(5, 3)];
    a.ins(origin(), ts(1, 2), items);
    assert_eq!(a.size(), 3);
    assert_eq!(a.find(1), Some(ts(1, 3)));
    assert_eq!(a.get_data_ts(2), Some(ts(5, 3)));
    assert_eq!(a.get_by_id(ts(1, 3)), Some(ts(5, 2)));
    assert_eq!(a.get_by_id(ts(9, 9)), None);
    assert_eq!(a.find_data_at(1, 5), vec![ts(5, 2), ts(5, 3)]);
    assert_eq!(a.find_interval(0, 2), vec![tss(1, 2, 2)]);
    // Only a newer value replaces the element.
    assert_eq!(a.upd(ts(1, 3), ts(5, 1)), None);
    assert_eq!(a.upd(ts(1, 3), ts(6, 7)), Some(ts(5, 2)));
    assert_eq!(a.get_data_ts(1), Some(ts(6, 7)));
    a.delete(&[tss(1, 2, 1)]);
    assert_eq!(a.size(), 2);
    assert_eq!(a.find(0), Some(ts(1, 3)));
}

// Deleting spans removes exactly the items whose ids they cover, and keeps
// the others in order.
#[test]
fn delete_removes_exactly_the_covered_items() {
    let mut b = BinNode::new(ts(sid(), 1));
    b.ins(origin(), ts(sid(), 10), vec![0, 1, 2, 3, 4, 5, 6, 7]);
    // Ids 10 to 17 carry bytes 0 to 7; drop ids 11, 12 and 15.
    b.delete(&[tss(sid(), 11, 2), tss(sid(), 15, 1)]);
    assert_eq!(b.view(), vec![0, 3, 4, 6, 7]);
    // A span of another session covers nothing here.
    b.delete(&[tss(sid() + 1, 10, 8)]);
    assert_eq!(b.view(), vec![0, 3, 4, 6, 7]);
}

// An insert puts its items together at one place and changes nothing else.
#[test]
fn insert_splices_items_in() {
    let mut b = BinNode::new(ts(sid(), 1));
    b.ins(origin(), ts(sid(), 10), vec![1, 2, 3, 4]);
    b.ins(ts(sid(), 11), ts(sid(), 20), vec![9, 9]);
    assert_eq!(b.view(), vec![1, 2, 9, 9, 3, 4]);
}

#[test]
fn obj_put_keeps_newest_and_first_insertion_order() {
    let mut o = ObjNode::new(ts(sid(), 1));
    assert_eq!(o.put("a", ts(sid(), 5)), None);
    assert_eq!(o.put("b", ts(sid(), 6)), None);
    // An older id for "a" is ignored.
    assert_eq!(o.put("a", ts(sid(), 4)), None);
    assert_eq!(o.keys.get("a"), Some(&ts(sid(), 5)));
    // The same id is not newer either.
    assert_eq!(o.put("a", ts(sid(), 5)), None);
    // A newer id replaces it and the key keeps its place.
    assert_eq!(o.put("a", ts(sid(), 9)), Some(ts(sid(), 5)));
    let keys: Vec<&str> = o.keys.keys().map(|k| k.as_str()).collect();
    assert_eq!(keys, vec!["a", "b"]);
    assert_eq!(o.keys.get("a"), Some(&ts(sid(), 9)));
    assert_eq!(o.keys.get("b"), Some(&ts(sid(), 6)));
}

#[test]
fn obj_put_orders_ids_by_time_then_session() {
    let mut o = ObjNode::new(ts(1, 1));
    o.put("k", ts(3, 10));
    // Same time, higher session wins.
    assert_eq!(o.put("k", ts(4, 10)), Some(ts(3, 10)));
    // Same time, lower session loses.
    assert_eq!(o.put("k", ts(2, 10)), None);
    assert_eq!(o.keys.get("k"), Some(&ts(4, 10)));
}

#[test]
fn arr_data_at_matches_positions() {
    let mut a = ArrNode::new(ts(1, 1));
    a.ins(origin(), ts(1, 2), vec![ts(5, 1), ts(5, 2)]);
    a.ins(ts(1, 3), ts(1, 4), vec![ts(6, 1), ts(6, 2), ts(6, 3)]);
    a.delete(&[tss(1, 3, 1)]);
    let got = a.find_data_at(1, 3);
    assert_eq!(got.len(), 3);
    for (k, x) in got.iter().enumerate() {
        assert_eq!(a.get_data_ts(1 + k), Some(*x));
    }
    assert_eq!(a.get_data_ts(4), None);
}

#[test]
fn str_interval_matches_positions() {
    let mut s = StrNode::new(ts(1, 1));
    s.ins(ts(1, 1), ts(1, 2), "abc".into());
    s.ins(ts(1, 4), ts(2, 10), "xy".into());
    s.delete(&[tss(1, 3, 1)]);
    let spans = s.find_interval(1, 3);
    let mut ids = Vec::new();
    for sp in &spans {
        for k in 0..sp.span {
            ids.push(ts(sp.sid, sp.time + k));
        }
    }
    assert_eq!(ids.len(), 3);
    for (k, id) in ids.iter().enumerate() {
        assert_eq!(s.find(1 + k), Some(*id));
    }
    assert_eq!(s.find(4), None);
}
