use json_joy::ot_string::{
    apply, compose, normalize, transform, trim, StringIrrevComponent, StringIrrevOp,
};


#[test]
fn apply_insert() {
    let op = vec![StringIrrevComponent::Insert("hello".to_string())];
    assert_eq!(apply("", &op), "hello");
}

#[test]
fn apply_delete() {
    let op = vec![StringIrrevComponent::Delete(3)];
    assert_eq!(apply("hello", &op), "lo");
}

#[test]
fn mod_apply_retain_then_insert() {
    let op = vec![
        StringIrrevComponent::Retain(5),
        StringIrrevComponent::Insert(" world".to_string()),
    ];
    assert_eq!(apply("hello", &op), "hello world");
}

#[test]
fn mod_compose_insert_then_delete() {
    let op1 = vec![StringIrrevComponent::Insert("X".to_string())];
    let op2 = vec![StringIrrevComponent::Delete(1)];
    let composed = compose(&op1, &op2);
    assert!(composed.is_empty());
}

#[test]
fn transform_concurrent_inserts() {
    let op = vec![StringIrrevComponent::Insert("A".to_string())];
    let against = vec![StringIrrevComponent::Insert("B".to_string())];
    let t = transform(&op, &against, true);
    let result = apply("hello", &t);
    assert!(result.contains('A'));
}

// ── StringIrrevComponent src_len / dst_len ──────────────────────────

#[test]
fn mod_src_len_retain() {
    assert_eq!(StringIrrevComponent::Retain(5).src_len(), 5);
}

#[test]
fn mod_src_len_delete() {
    assert_eq!(StringIrrevComponent::Delete(3).src_len(), 3);
}

#[test]
fn mod_src_len_insert() {
    assert_eq!(StringIrrevComponent::Insert("abc".to_string()).src_len(), 0);
}

#[test]
fn mod_dst_len_retain() {
    assert_eq!(StringIrrevComponent::Retain(5).dst_len(), 5);
}

#[test]
fn mod_dst_len_delete() {
    assert_eq!(StringIrrevComponent::Delete(3).dst_len(), 0);
}

#[test]
fn mod_dst_len_insert() {
    assert_eq!(StringIrrevComponent::Insert("abc".to_string()).dst_len(), 3);
}

#[test]
fn dst_len_unicode() {
    assert_eq!(
        StringIrrevComponent::Insert("日本語".to_string()).dst_len(),
        3
    );
}

// ── apply edge cases ────────────────────────────────────────────────

#[test]
fn mod_apply_empty_op() {
    assert_eq!(apply("hello", &vec![]), "hello");
}

#[test]
fn apply_empty_string() {
    let op = vec![StringIrrevComponent::Insert("abc".to_string())];
    assert_eq!(apply("", &op), "abc");
}

#[test]
fn mod_apply_retain_only() {
    let op = vec![StringIrrevComponent::Retain(5)];
    assert_eq!(apply("hello world", &op), "hello world");
}

#[test]
fn mod_apply_complex_sequence() {
    let op = vec![
        StringIrrevComponent::Retain(1),
        StringIrrevComponent::Delete(4),
        StringIrrevComponent::Insert("X".to_string()),
        StringIrrevComponent::Delete(2),
    ];
    assert_eq!(apply("hello world", &op), "hXorld");
}

// ── trim ────────────────────────────────────────────────────────────

#[test]
fn mod_trim_removes_trailing_retains() {
    let mut op = vec![
        StringIrrevComponent::Insert("a".to_string()),
        StringIrrevComponent::Retain(5),
    ];
    trim(&mut op);
    assert_eq!(op, vec![StringIrrevComponent::Insert("a".to_string())]);
}

#[test]
fn mod_trim_does_not_remove_non_retain() {
    let mut op = vec![
        StringIrrevComponent::Insert("a".to_string()),
        StringIrrevComponent::Delete(2),
    ];
    trim(&mut op);
    assert_eq!(
        op,
        vec![
            StringIrrevComponent::Insert("a".to_string()),
            StringIrrevComponent::Delete(2)
        ]
    );
}

// ── normalize ───────────────────────────────────────────────────────

#[test]
fn normalize_removes_zero_and_empty() {
    let op = vec![
        StringIrrevComponent::Retain(0),
        StringIrrevComponent::Delete(0),
        StringIrrevComponent::Insert(String::new()),
        StringIrrevComponent::Insert("a".to_string()),
    ];
    assert_eq!(
        normalize(op),
        vec![StringIrrevComponent::Insert("a".to_string())]
    );
}

#[test]
fn normalize_coalesces_adjacent() {
    let op = vec![
        StringIrrevComponent::Delete(2),
        StringIrrevComponent::Delete(3),
        StringIrrevComponent::Insert("x".to_string()),
    ];
    assert_eq!(
        normalize(op),
        vec![
            StringIrrevComponent::Delete(5),
            StringIrrevComponent::Insert("x".to_string()),
        ]
    );
}

#[test]
fn mod_normalize_coalesces_adjacent_inserts() {
    let op = vec![
        StringIrrevComponent::Insert("a".to_string()),
        StringIrrevComponent::Insert("b".to_string()),
    ];
    assert_eq!(
        normalize(op),
        vec![StringIrrevComponent::Insert("ab".to_string())]
    );
}

#[test]
fn mod_normalize_strips_trailing_retain() {
    let op = vec![
        StringIrrevComponent::Insert("a".to_string()),
        StringIrrevComponent::Retain(5),
    ];
    assert_eq!(
        normalize(op),
        vec![StringIrrevComponent::Insert("a".to_string())]
    );
}

// ── compose ─────────────────────────────────────────────────────────

#[test]
fn mod_compose_identity() {
    let op1: StringIrrevOp = vec![];
    let op2: StringIrrevOp = vec![];
    assert!(compose(&op1, &op2).is_empty());
}

#[test]
fn mod_compose_retain_retain() {
    let op1 = vec![StringIrrevComponent::Retain(5)];
    let op2 = vec![StringIrrevComponent::Retain(5)];
    assert!(compose(&op1, &op2).is_empty());
}

#[test]
fn mod_compose_retain_delete() {
    let op1 = vec![StringIrrevComponent::Retain(5)];
    let op2 = vec![StringIrrevComponent::Delete(3)];
    let composed = compose(&op1, &op2);
    assert_eq!(composed, vec![StringIrrevComponent::Delete(3)]);
}

#[test]
fn mod_compose_insert_retain() {
    let op1 = vec![StringIrrevComponent::Insert("abc".to_string())];
    let op2 = vec![StringIrrevComponent::Retain(3)];
    let composed = compose(&op1, &op2);
    assert_eq!(
        composed,
        vec![StringIrrevComponent::Insert("abc".to_string())]
    );
}

#[test]
fn mod_compose_insert_partial_delete() {
    let op1 = vec![StringIrrevComponent::Insert("abcde".to_string())];
    let op2 = vec![StringIrrevComponent::Delete(3)];
    let composed = compose(&op1, &op2);
    assert_eq!(
        composed,
        vec![StringIrrevComponent::Insert("de".to_string())]
    );
}

#[test]
fn mod_compose_insert_partial_retain() {
    let op1 = vec![StringIrrevComponent::Insert("abcde".to_string())];
    let op2 = vec![
        StringIrrevComponent::Retain(3),
        StringIrrevComponent::Delete(2),
    ];
    let composed = compose(&op1, &op2);
    assert_eq!(
        composed,
        vec![StringIrrevComponent::Insert("abc".to_string())]
    );
}

#[test]
fn mod_compose_delete_passes_through() {
    let op1 = vec![StringIrrevComponent::Delete(3)];
    let op2 = vec![StringIrrevComponent::Insert("X".to_string())];
    let composed = compose(&op1, &op2);
    let s = "abcdef";
    let sequential = apply(&apply(s, &op1), &op2);
    let direct = apply(s, &composed);
    assert_eq!(sequential, direct);
}

#[test]
fn mod_compose_verifies_apply_equivalence() {
    let s = "hello world";
    let op1 = vec![
        StringIrrevComponent::Retain(5),
        StringIrrevComponent::Delete(1),
        StringIrrevComponent::Insert("-".to_string()),
    ];
    let op2 = vec![
        StringIrrevComponent::Retain(6),
        StringIrrevComponent::Insert("!".to_string()),
    ];
    let sequential = apply(&apply(s, &op1), &op2);
    let composed = compose(&op1, &op2);
    let direct = apply(s, &composed);
    assert_eq!(sequential, direct);
}

// ── transform ───────────────────────────────────────────────────────

#[test]
fn mod_transform_identity() {
    let op: StringIrrevOp = vec![];
    let against: StringIrrevOp = vec![];
    assert!(transform(&op, &against, true).is_empty());
}

#[test]
fn mod_transform_insert_right_wins() {
    let op = vec![StringIrrevComponent::Insert("A".to_string())];
    let against = vec![StringIrrevComponent::Insert("B".to_string())];
    let t = transform(&op, &against, false);
    let result = apply("B", &t);
    assert!(result.contains('A'));
}

#[test]
fn mod_transform_retain_vs_retain() {
    let op = vec![StringIrrevComponent::Retain(5)];
    let against = vec![StringIrrevComponent::Retain(5)];
    let t = transform(&op, &against, true);
    assert!(t.is_empty());
}

#[test]
fn mod_transform_retain_vs_delete() {
    let op = vec![StringIrrevComponent::Retain(5)];
    let against = vec![StringIrrevComponent::Delete(3)];
    let t = transform(&op, &against, true);
    assert!(t.is_empty());
}

#[test]
fn mod_transform_retain_vs_delete_partial() {
    let op = vec![StringIrrevComponent::Retain(3)];
    let against = vec![StringIrrevComponent::Delete(5)];
    let t = transform(&op, &against, true);
    assert!(t.is_empty());
}

#[test]
fn mod_transform_delete_vs_retain() {
    let op = vec![StringIrrevComponent::Delete(3)];
    let against = vec![StringIrrevComponent::Retain(5)];
    let t = transform(&op, &against, true);
    assert_eq!(t, vec![StringIrrevComponent::Delete(3)]);
}

#[test]
fn mod_transform_delete_vs_delete() {
    let op = vec![StringIrrevComponent::Delete(3)];
    let against = vec![StringIrrevComponent::Delete(3)];
    let t = transform(&op, &against, true);
    assert!(t.is_empty());
}

#[test]
fn mod_transform_delete_partial_vs_delete() {
    let op = vec![StringIrrevComponent::Delete(5)];
    let against = vec![StringIrrevComponent::Delete(3)];
    let t = transform(&op, &against, true);
    assert_eq!(t, vec![StringIrrevComponent::Delete(2)]);
}

#[test]
fn mod_transform_op_remaining_after_against_exhausted() {
    let op = vec![
        StringIrrevComponent::Retain(2),
        StringIrrevComponent::Insert("X".to_string()),
    ];
    let against: StringIrrevOp = vec![];
    let t = transform(&op, &against, true);
    assert_eq!(
        t,
        vec![
            StringIrrevComponent::Retain(2),
            StringIrrevComponent::Insert("X".to_string()),
        ]
    );
}

#[test]
fn mod_transform_convergence() {
    let s = "hello";
    let op_a = vec![
        StringIrrevComponent::Retain(5),
        StringIrrevComponent::Insert(" world".to_string()),
    ];
    let op_b = vec![
        StringIrrevComponent::Delete(1),
        StringIrrevComponent::Insert("H".to_string()),
    ];
    let t_a = transform(&op_a, &op_b, true);
    let t_b = transform(&op_b, &op_a, false);
    let result_a = apply(&apply(s, &op_b), &t_a);
    let result_b = apply(&apply(s, &op_a), &t_b);
    assert_eq!(result_a, result_b);
}

// Edits that never insert at the same place converge, whichever is applied
// first.
#[test]
fn transform_converges_on_interleaved_edits() {
    let s = "the quick brown fox";
    let op_a = vec![
        StringIrrevComponent::Retain(4),
        StringIrrevComponent::Delete(6),
        StringIrrevComponent::Insert("slow ".to_string()),
        StringIrrevComponent::Retain(6),
        StringIrrevComponent::Insert("!".to_string()),
    ];
    let op_b = vec![
        StringIrrevComponent::Insert(">> ".to_string()),
        StringIrrevComponent::Retain(8),
        StringIrrevComponent::Delete(4),
        StringIrrevComponent::Retain(1),
        StringIrrevComponent::Insert("red".to_string()),
    ];
    let t_a = transform(&op_a, &op_b, true);
    let t_b = transform(&op_b, &op_a, false);
    let via_b = apply(&apply(s, &op_b), &t_a);
    let via_a = apply(&apply(s, &op_a), &t_b);
    assert_eq!(via_a, via_b);
}

// Two inserts at the same place do not converge: the insert already applied
// comes first either way.
#[test]
fn transform_same_place_inserts_diverge() {
    let op_a = vec![StringIrrevComponent::Insert("x".to_string())];
    let op_b = vec![StringIrrevComponent::Insert("y".to_string())];
    let via_b = apply(&apply("", &op_b), &transform(&op_a, &op_b, true));
    let via_a = apply(&apply("", &op_a), &transform(&op_b, &op_a, false));
    assert_eq!(via_b, "yx");
    assert_eq!(via_a, "xy");
}

#[test]
fn normalize_twice_is_normalize_once() {
    let op = vec![
        StringIrrevComponent::Retain(2),
        StringIrrevComponent::Retain(1),
        StringIrrevComponent::Delete(0),
        StringIrrevComponent::Insert("x".to_string()),
        StringIrrevComponent::Insert("y".to_string()),
        StringIrrevComponent::Retain(4),
    ];
    let once = normalize(op);
    assert_eq!(normalize(once.clone()), once);
    assert_eq!(apply("abcdefg", &once), "abcxydefg");
}
