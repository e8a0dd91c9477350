use json_joy::diff_bin::{patch_dst, patch_src, to_bin, to_str};
use json_joy::str_utils::{Patch, PatchOpType};

#[test]
fn roundtrip_to_str_to_bin() {
    let bytes = vec![0u8, 1, 127, 200, 255];
    assert_eq!(to_bin(&to_str(&bytes)), bytes);
}

#[test]
fn to_str_maps_each_byte_to_one_char() {
    let s = to_str(&[65u8, 0xe9, 10]);
    assert_eq!(s.chars().count(), 3);
    assert_eq!(s, "A\u{e9}\n");
}

#[test]
fn to_bin_keeps_the_low_byte() {
    assert_eq!(to_bin("A\u{100}\u{1ff}"), vec![65u8, 0, 255]);
}

/// The patch that replaces the middle of `src` (between its common prefix
/// and suffix with `dst`) by the middle of `dst`, over encoded bytes.
fn middle_patch(src: &[u8], dst: &[u8]) -> Patch {
    let mut pre = 0;
    while pre < src.len() && pre < dst.len() && src[pre] == dst[pre] {
        pre += 1;
    }
    let mut suf = 0;
    while suf < src.len() - pre
        && suf < dst.len() - pre
        && src[src.len() - 1 - suf] == dst[dst.len() - 1 - suf]
    {
        suf += 1;
    }
    let mut p: Patch = Vec::new();
    if pre > 0 {
        p.push((PatchOpType::Eql, to_str(&src[..pre])));
    }
    if src.len() - suf > pre {
        p.push((PatchOpType::Del, to_str(&src[pre..src.len() - suf])));
    }
    if dst.len() - suf > pre {
        p.push((PatchOpType::Ins, to_str(&dst[pre..dst.len() - suf])));
    }
    if suf > 0 {
        p.push((PatchOpType::Eql, to_str(&src[src.len() - suf..])));
    }
    p
}

#[test]
fn diff_and_reconstruct() {
    let src = b"hello world";
    let dst = b"hello rust";
    let patch = middle_patch(src, dst);
    assert_eq!(patch_src(&patch), src.to_vec());
    assert_eq!(patch_dst(&patch), dst.to_vec());
}

#[test]
fn binary_diff_operations() {
    let src = b"abcdef";
    let dst = b"abXdef";
    let patch = middle_patch(src, dst);
    let mut del_count = 0usize;
    let mut ins_count = 0usize;
    for (op_type, txt) in &patch {
        match op_type {
            PatchOpType::Del => del_count += txt.chars().count(),
            PatchOpType::Ins => ins_count += txt.chars().count(),
            _ => {}
        }
    }
    assert_eq!(del_count, 1);
    assert_eq!(ins_count, 1);
    assert_eq!(patch_src(&patch), src.to_vec());
    assert_eq!(patch_dst(&patch), dst.to_vec());
}

#[test]
fn patch_bytes_skip_the_other_side() {
    let patch: Patch = vec![
        (PatchOpType::Eql, to_str(&[1u8, 2])),
        (PatchOpType::Del, to_str(&[200u8])),
        (PatchOpType::Ins, to_str(&[0u8, 255])),
    ];
    assert_eq!(patch_src(&patch), vec![1u8, 2, 200]);
    assert_eq!(patch_dst(&patch), vec![1u8, 2, 0, 255]);
}
