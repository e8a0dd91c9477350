use json_joy::str_utils::{
    cleanup_patch, cleanup_semantic_lossless, overlap, semantic_score, sfx, Patch, PatchOpType,
};

fn src_of(p: &Patch) -> String {
    p.iter()
        .filter(|(t, _)| *t != PatchOpType::Ins)
        .map(|(_, s)| s.as_str())
        .collect()
}

fn dst_of(p: &Patch) -> String {
    p.iter()
        .filter(|(t, _)| *t != PatchOpType::Del)
        .map(|(_, s)| s.as_str())
        .collect()
}

fn assert_patch_reconstructs(src: &str, dst: &str, patch: &Patch) {
    assert_eq!(src_of(patch), src, "source reconstruction failed");
    assert_eq!(dst_of(patch), dst, "destination reconstruction failed");
}

fn op(t: PatchOpType, s: &str) -> (PatchOpType, String) {
    (t, s.to_string())
}

/// The patch that replaces the middle of `src` (between its common prefix
/// and suffix with `dst`) by the middle of `dst`.
fn middle_patch(src: &str, dst: &str) -> Patch {
    let a: Vec<char> = src.chars().collect();
    let b: Vec<char> = dst.chars().collect();
    let mut pre = 0;
    while pre < a.len() && pre < b.len() && a[pre] == b[pre] {
        pre += 1;
    }
    let mut suf = 0;
    while suf < a.len() - pre && suf < b.len() - pre && a[a.len() - 1 - suf] == b[b.len() - 1 - suf] {
        suf += 1;
    }
    let s = |v: &[char]| v.iter().collect::<String>();
    let mut p: Patch = Vec::new();
    if pre > 0 {
        p.push((PatchOpType::Eql, s(&a[..pre])));
    }
    if a.len() - suf > pre {
        p.push((PatchOpType::Del, s(&a[pre..a.len() - suf])));
    }
    if b.len() - suf > pre {
        p.push((PatchOpType::Ins, s(&b[pre..b.len() - suf])));
    }
    if suf > 0 {
        p.push((PatchOpType::Eql, s(&a[a.len() - suf..])));
    }
    p
}

#[test]
fn cleanup_patch_basic() {
    let mut p = middle_patch("the cat sat on the mat", "the cat sat on the bat");
    cleanup_patch(&mut p);
    assert_eq!(src_of(&p), "the cat sat on the mat");
    assert_eq!(dst_of(&p), "the cat sat on the bat");
}

#[test]
fn semantic_score_both_empty() {
    assert_eq!(semantic_score("", ""), 6);
}

#[test]
fn semantic_score_one_empty() {
    assert_eq!(semantic_score("abc", ""), 6);
    assert_eq!(semantic_score("", "abc"), 6);
}

#[test]
fn semantic_score_both_alphanumeric() {
    assert_eq!(semantic_score("abc", "def"), 0);
}

#[test]
fn semantic_score_non_alphanumeric_boundary() {
    assert_eq!(semantic_score("abc.", "def"), 1);
    assert_eq!(semantic_score("abc", ".def"), 1);
}

#[test]
fn semantic_score_whitespace_boundary() {
    assert_eq!(semantic_score("abc ", "def"), 2);
    assert_eq!(semantic_score("abc", " def"), 2);
}

#[test]
fn semantic_score_punctuation_then_whitespace() {
    assert_eq!(semantic_score("abc.", " def"), 3);
}

#[test]
fn semantic_score_line_break() {
    assert_eq!(semantic_score("abc\n", "def"), 4);
    assert_eq!(semantic_score("abc", "\ndef"), 4);
}

#[test]
fn semantic_score_blank_line() {
    assert_eq!(semantic_score("abc\n\n", "def"), 5);
    assert_eq!(semantic_score("abc", "\n\ndef"), 5);
}

#[test]
fn semantic_score_crlf_blank_line() {
    assert_eq!(semantic_score("abc", "\r\n\r\ndef"), 5);
}

#[test]
fn cleanup_patch_identical() {
    let mut p = middle_patch("hello", "hello");
    cleanup_patch(&mut p);
    assert!(p.iter().all(|(t, _)| *t == PatchOpType::Eql));
    assert_patch_reconstructs("hello", "hello", &p);
}

#[test]
fn cleanup_patch_empty_to_nonempty() {
    let mut p = middle_patch("", "hello");
    cleanup_patch(&mut p);
    assert_patch_reconstructs("", "hello", &p);
}

#[test]
fn cleanup_patch_nonempty_to_empty() {
    let mut p = middle_patch("hello", "");
    cleanup_patch(&mut p);
    assert_patch_reconstructs("hello", "", &p);
}

#[test]
fn cleanup_patch_with_overlap() {
    let mut p = middle_patch("abcdef", "abxyzef");
    cleanup_patch(&mut p);
    assert_patch_reconstructs("abcdef", "abxyzef", &p);
}

#[test]
fn cleanup_patch_word_boundary() {
    let mut p = middle_patch("The quick brown fox", "The slow brown fox");
    cleanup_patch(&mut p);
    assert_patch_reconstructs("The quick brown fox", "The slow brown fox", &p);
}

#[test]
fn cleanup_patch_multiple_changes() {
    let mut p = middle_patch("alpha beta gamma", "alpha delta gamma");
    cleanup_patch(&mut p);
    assert_patch_reconstructs("alpha beta gamma", "alpha delta gamma", &p);
}

#[test]
fn cleanup_semantic_lossless_shifts_to_word_boundary() {
    let mut p: Patch = vec![
        op(PatchOpType::Eql, "The "),
        op(PatchOpType::Del, "c"),
        op(PatchOpType::Eql, "at sat"),
    ];
    cleanup_semantic_lossless(&mut p);
    assert_eq!(src_of(&p), "The cat sat");
}

#[test]
fn cleanup_semantic_lossless_no_equalities() {
    let mut p: Patch = vec![op(PatchOpType::Del, "abc"), op(PatchOpType::Ins, "xyz")];
    cleanup_semantic_lossless(&mut p);
    assert_eq!(p.len(), 2);
}

#[test]
fn cleanup_semantic_lossless_empty_equality_removed() {
    let mut p: Patch = vec![
        op(PatchOpType::Eql, "a"),
        op(PatchOpType::Ins, "b"),
        op(PatchOpType::Eql, "cde"),
    ];
    cleanup_semantic_lossless(&mut p);
    assert_eq!(dst_of(&p), "abcde");
}

#[test]
fn cleanup_patch_line_changes() {
    let src = "line1\nline2\nline3\n";
    let dst = "line1\nmodified\nline3\n";
    let mut p = middle_patch(src, dst);
    cleanup_patch(&mut p);
    assert_patch_reconstructs(src, dst, &p);
}

#[test]
fn cleanup_patch_large_overlap_insertion() {
    let mut p: Patch = vec![op(PatchOpType::Del, "abcxyz"), op(PatchOpType::Ins, "xyzdef")];
    cleanup_patch(&mut p);
    assert_eq!(src_of(&p), "abcxyz");
    assert_eq!(dst_of(&p), "xyzdef");
}

#[test]
fn cleanup_patch_large_overlap_reverse() {
    let mut p: Patch = vec![op(PatchOpType::Del, "xyzabc"), op(PatchOpType::Ins, "defxyz")];
    cleanup_patch(&mut p);
    assert_eq!(src_of(&p), "xyzabc");
    assert_eq!(dst_of(&p), "defxyz");
}

#[test]
fn cleanup_patch_eliminates_small_equalities() {
    let mut p: Patch = vec![
        op(PatchOpType::Del, "aaaa"),
        op(PatchOpType::Eql, "x"),
        op(PatchOpType::Del, "bbbb"),
    ];
    cleanup_patch(&mut p);
    assert_eq!(src_of(&p), "aaaaxbbbb");
}

#[test]
fn cleanup_patch_handles_recursion() {
    let src = "aXbXcXd";
    let dst = "a1b2c3d";
    let mut p: Patch = vec![
        op(PatchOpType::Eql, "a"),
        op(PatchOpType::Del, "X"),
        op(PatchOpType::Ins, "1"),
        op(PatchOpType::Eql, "b"),
        op(PatchOpType::Del, "X"),
        op(PatchOpType::Ins, "2"),
        op(PatchOpType::Eql, "c"),
        op(PatchOpType::Del, "X"),
        op(PatchOpType::Ins, "3"),
        op(PatchOpType::Eql, "d"),
    ];
    cleanup_patch(&mut p);
    assert_patch_reconstructs(src, dst, &p);
}

#[test]
fn cleanup_patch_unicode() {
    let src = "héllo wörld";
    let dst = "héllo wörld!";
    let mut p = middle_patch(src, dst);
    cleanup_patch(&mut p);
    assert_patch_reconstructs(src, dst, &p);
}

#[test]
fn cleanup_patch_empty_both() {
    let mut p = middle_patch("", "");
    cleanup_patch(&mut p);
    assert!(p.is_empty() || p.iter().all(|(_, s)| s.is_empty()));
}

// The operations below are the building blocks of the cleanups.

#[test]
fn small_equality_becomes_edit_then_overlap() {
    // The equality "x" becomes a deletion and an insertion of "x"; the
    // overlap step then splits that pair around their common "x".
    let mut p: Patch = vec![
        op(PatchOpType::Del, "aaaa"),
        op(PatchOpType::Eql, "x"),
        op(PatchOpType::Del, "bbbb"),
    ];
    cleanup_patch(&mut p);
    assert_eq!(
        p,
        vec![
            op(PatchOpType::Del, "aaaa"),
            op(PatchOpType::Del, ""),
            op(PatchOpType::Eql, "x"),
            op(PatchOpType::Ins, ""),
            op(PatchOpType::Del, "bbbb"),
        ]
    );
}

#[test]
fn overlapping_edits_are_split() {
    let mut p: Patch = vec![op(PatchOpType::Del, "abcxyz"), op(PatchOpType::Ins, "xyzdef")];
    cleanup_patch(&mut p);
    assert_eq!(
        p,
        vec![
            op(PatchOpType::Del, "abc"),
            op(PatchOpType::Eql, "xyz"),
            op(PatchOpType::Ins, "def"),
        ]
    );
}

#[test]
fn overlapping_edits_reverse_are_split() {
    let mut p: Patch = vec![op(PatchOpType::Del, "xyzabc"), op(PatchOpType::Ins, "defxyz")];
    cleanup_patch(&mut p);
    assert_eq!(
        p,
        vec![
            op(PatchOpType::Ins, "def"),
            op(PatchOpType::Eql, "xyz"),
            op(PatchOpType::Del, "abc"),
        ]
    );
}

#[test]
fn lossless_shift_moves_edit_to_word_start() {
    let mut p: Patch = vec![
        op(PatchOpType::Eql, "The c"),
        op(PatchOpType::Ins, "at c"),
        op(PatchOpType::Eql, "ame"),
    ];
    cleanup_semantic_lossless(&mut p);
    assert_eq!(
        p,
        vec![
            op(PatchOpType::Eql, "The "),
            op(PatchOpType::Ins, "cat "),
            op(PatchOpType::Eql, "came"),
        ]
    );
}

#[test]
fn common_suffix_and_overlap() {
    assert_eq!(sfx("hello world", "brave world"), 6);
    assert_eq!(sfx("abc", "xyz"), 0);
    assert_eq!(sfx("", "abc"), 0);
    assert_eq!(overlap("abcxyz", "xyzdef"), 3);
    assert_eq!(overlap("abc", "abc"), 3);
    assert_eq!(overlap("abc", "def"), 0);
    assert_eq!(overlap("", "abc"), 0);
}
