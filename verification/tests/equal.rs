use json_joy::clock::{equal, origin, ts, tss};
use json_joy::equal::{cmp_rga_arr, cmp_rga_bin, cmp_rga_str};
use json_joy::nodes::{ArrNode, BinNode, StrNode};

#[test]
fn timestamps_equal_on_both_parts() {
    assert!(equal(ts(1, 2), ts(1, 2)));
    assert!(!equal(ts(1, 2), ts(1, 3)));
    assert!(!equal(ts(1, 2), ts(2, 2)));
}

#[test]
fn empty_strings_compare_equal() {
    let a = StrNode::new(ts(1, 1));
    let b = StrNode::new(ts(2, 1));
    assert!(cmp_rga_str(&a, &b));
}

#[test]
fn strings_with_same_last_chunk_and_size() {
    let mut a = StrNode::new(ts(1, 1));
    let mut b = StrNode::new(ts(2, 1));
    a.ins(origin(), ts(5, 10), "abc".into());
    b.ins(origin(), ts(5, 10), "xyz".into());
    assert!(cmp_rga_str(&a, &b));
}

#[test]
fn strings_with_different_last_chunk_differ() {
    let mut a = StrNode::new(ts(1, 1));
    let mut b = StrNode::new(ts(2, 1));
    a.ins(origin(), ts(5, 10), "abc".into());
    b.ins(origin(), ts(5, 11), "abc".into());
    assert!(!cmp_rga_str(&a, &b));
}

#[test]
fn strings_with_different_sizes_differ() {
    let mut a = StrNode::new(ts(1, 1));
    let mut b = StrNode::new(ts(2, 1));
    a.ins(origin(), ts(5, 10), "abc".into());
    b.ins(origin(), ts(5, 10), "abcd".into());
    assert!(!cmp_rga_str(&a, &b));
}

#[test]
fn string_empty_against_non_empty() {
    let a = StrNode::new(ts(1, 1));
    let mut b = StrNode::new(ts(2, 1));
    b.ins(origin(), ts(5, 10), "a".into());
    assert!(!cmp_rga_str(&a, &b));
    assert!(!cmp_rga_str(&b, &a));
}

#[test]
fn strings_with_different_chunk_counts_differ() {
    let mut a = StrNode::new(ts(1, 1));
    let mut b = StrNode::new(ts(2, 1));
    a.ins(origin(), ts(5, 10), "abcd".into());
    b.ins(origin(), ts(5, 10), "abcd".into());
    // Deleting the middle splits the chunk and the deleted part is live no more.
    a.delete(&[tss(5, 11, 2)]);
    b.delete(&[tss(5, 12, 2)]);
    assert_eq!(a.size(), b.size());
    assert!(!cmp_rga_str(&a, &b));
}

#[test]
fn binaries_compare_by_live_bytes() {
    let mut a = BinNode::new(ts(1, 1));
    let mut b = BinNode::new(ts(2, 1));
    a.ins(origin(), ts(5, 10), vec![1, 2, 3]);
    b.ins(origin(), ts(5, 10), vec![9, 9, 9]);
    assert!(cmp_rga_bin(&a, &b));
    a.delete(&[tss(5, 12, 1)]);
    assert!(!cmp_rga_bin(&a, &b));
}

#[test]
fn arrays_compare_by_live_elements() {
    let mut a = ArrNode::new(ts(1, 1));
    let mut b = ArrNode::new(ts(2, 1));
    a.ins(origin(), ts(5, 10), vec![ts(7, 1), ts(7, 2)]);
    b.ins(origin(), ts(5, 10), vec![ts(8, 1), ts(8, 2)]);
    assert!(cmp_rga_arr(&a, &b));
    b.ins(ts(5, 11), ts(5, 12), vec![ts(8, 3)]);
    assert!(!cmp_rga_arr(&a, &b));
}
