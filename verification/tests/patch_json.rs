use json_joy::json_equal::JsonBinary;
use json_joy::json_patch::{JsonPatchType, PatchError};
use json_joy::patch_json::{from_json, from_json_patch, to_json, to_json_patch, Op};
use serde_json::Number;

fn s(x: &str) -> JsonBinary {
    JsonBinary::String(x.to_string())
}

fn n(x: u64) -> JsonBinary {
    JsonBinary::Number(Number::from(x))
}

fn f(x: f64) -> Number {
    Number::from_f64(x).unwrap()
}

fn obj(entries: Vec<(&str, JsonBinary)>) -> JsonBinary {
    JsonBinary::Object(entries.into_iter().map(|(k, v)| (k.to_string(), v)).collect())
}

fn get<'a>(v: &'a JsonBinary, k: &str) -> Option<&'a JsonBinary> {
    match v {
        JsonBinary::Object(e) => e.iter().find(|(key, _)| key == k).map(|(_, x)| x),
        _ => None,
    }
}

fn p(x: &str) -> Vec<String> {
    vec![x.to_string()]
}

fn roundtrip(op: Op) -> Op {
    let v = to_json(&op);
    from_json(&v).expect("roundtrip failed")
}

fn is_invalid(r: Result<Op, PatchError>) -> bool {
    matches!(r, Err(PatchError::InvalidOp(_)))
}

/// One operation of each kind, in declaration order, all at `path`.
fn all_ops(path: Vec<String>) -> Vec<Op> {
    vec![
        Op::Add { path: path.clone(), value: n(1) },
        Op::Remove { path: path.clone(), old_value: None },
        Op::Replace { path: path.clone(), value: n(1), old_value: None },
        Op::Copy { path: path.clone(), from: vec![] },
        Op::Move { path: path.clone(), from: vec![] },
        Op::Test { path: path.clone(), value: n(1), not: false },
        Op::StrIns { path: path.clone(), pos: 0, str_val: String::new() },
        Op::StrDel { path: path.clone(), pos: 0, str_val: None, len: None },
        Op::Flip { path: path.clone() },
        Op::Inc { path: path.clone(), inc: f(0.0) },
        Op::Split { path: path.clone(), pos: 0, props: None },
        Op::Merge { path: path.clone(), pos: 0, props: None },
        Op::Extend { path: path.clone(), props: vec![], delete_null: false },
        Op::Defined { path: path.clone() },
        Op::Undefined { path: path.clone() },
        Op::Contains { path: path.clone(), value: String::new(), ignore_case: false },
        Op::Ends { path: path.clone(), value: String::new(), ignore_case: false },
        Op::Starts { path: path.clone(), value: String::new(), ignore_case: false },
        Op::In { path: path.clone(), value: vec![] },
        Op::Less { path: path.clone(), value: f(0.0) },
        Op::More { path: path.clone(), value: f(0.0) },
        Op::Matches { path: path.clone(), value: String::new(), ignore_case: false },
        Op::TestType { path: path.clone(), type_vals: vec![] },
        Op::TestString { path: path.clone(), pos: 0, str_val: String::new(), not: false },
        Op::TestStringLen { path: path.clone(), len: 0, not: false },
        Op::Type { path: path.clone(), value: JsonPatchType::Null },
        Op::And { path: path.clone(), ops: vec![] },
        Op::Not { path: path.clone(), ops: vec![] },
        Op::Or { path, ops: vec![] },
    ]
}

#[test]
fn roundtrip_add() {
    let rt = roundtrip(Op::Add { path: p("a"), value: n(42) });
    assert_eq!(rt.op_name(), "add");
}

#[test]
fn roundtrip_remove() {
    let rt = roundtrip(Op::Remove { path: p("a"), old_value: None });
    assert_eq!(rt.op_name(), "remove");
}

#[test]
fn roundtrip_replace() {
    let op = Op::Replace { path: p("x"), value: s("new"), old_value: Some(s("old")) };
    let v = to_json(&op);
    assert_eq!(get(&v, "op"), Some(&s("replace")));
    assert_eq!(get(&v, "oldValue"), Some(&s("old")));
}

#[test]
fn roundtrip_test_type() {
    let op = Op::TestType { path: p("n"), type_vals: vec![JsonPatchType::Number, JsonPatchType::Integer] };
    let rt = roundtrip(op);
    assert_eq!(rt.op_name(), "test_type");
}

#[test]
fn decode_rfc6902_patch() {
    let patch = JsonBinary::Array(vec![
        obj(vec![("op", s("add")), ("path", s("/foo")), ("value", n(1))]),
        obj(vec![("op", s("remove")), ("path", s("/bar"))]),
        obj(vec![("op", s("replace")), ("path", s("/baz")), ("value", s("new"))]),
    ]);
    let ops = from_json_patch(&patch).unwrap();
    assert_eq!(ops.len(), 3);
    assert_eq!(ops[0].op_name(), "add");
    assert_eq!(ops[1].op_name(), "remove");
    assert_eq!(ops[2].op_name(), "replace");
}

#[test]
fn roundtrip_and_predicate() {
    let op = Op::And {
        path: vec![],
        ops: vec![Op::Defined { path: p("a") }, Op::Less { path: p("a"), value: f(100.0) }],
    };
    let rt = roundtrip(op);
    assert_eq!(rt.op_name(), "and");
}

#[test]
fn encode_path_empty() {
    let v = to_json(&Op::Add { path: vec![], value: n(1) });
    assert_eq!(get(&v, "path"), Some(&s("")));
}

#[test]
fn encode_path_with_tilde_and_slash() {
    let op = Op::Add { path: vec!["a/b".to_string(), "c~d".to_string()], value: n(1) };
    let v = to_json(&op);
    assert_eq!(get(&v, "path"), Some(&s("/a~1b/c~0d")));
}

#[test]
fn decode_path_not_a_string() {
    let v = obj(vec![("op", s("add")), ("path", n(42)), ("value", n(1))]);
    assert!(is_invalid(from_json(&v)));
}

#[test]
fn from_json_not_object() {
    assert!(is_invalid(from_json(&s("not an object"))));
}

#[test]
fn from_json_missing_op_field() {
    assert!(is_invalid(from_json(&obj(vec![("path", s("/a"))]))));
}

#[test]
fn from_json_unknown_op() {
    match from_json(&obj(vec![("op", s("bogus"))])) {
        Err(PatchError::InvalidOp(m)) => assert!(m.contains("unknown op")),
        _ => panic!("expected InvalidOp"),
    }
}

fn missing(name: &str) -> Result<Op, PatchError> {
    from_json(&obj(vec![("op", s(name)), ("path", s("/a"))]))
}

#[test]
fn from_json_add_missing_value() {
    assert!(is_invalid(missing("add")));
}

#[test]
fn from_json_replace_missing_value() {
    assert!(is_invalid(missing("replace")));
}

#[test]
fn from_json_test_missing_value() {
    assert!(is_invalid(missing("test")));
}

#[test]
fn from_json_copy_missing_from() {
    assert!(is_invalid(missing("copy")));
}

#[test]
fn from_json_move_missing_from() {
    assert!(is_invalid(missing("move")));
}

#[test]
fn from_json_str_ins_missing_pos() {
    let v = obj(vec![("op", s("str_ins")), ("path", s("/a")), ("str", s("x"))]);
    assert!(is_invalid(from_json(&v)));
}

#[test]
fn from_json_str_ins_missing_str() {
    let v = obj(vec![("op", s("str_ins")), ("path", s("/a")), ("pos", n(0))]);
    assert!(is_invalid(from_json(&v)));
}

#[test]
fn from_json_str_del_missing_pos() {
    assert!(is_invalid(missing("str_del")));
}

#[test]
fn from_json_inc_missing_inc() {
    assert!(is_invalid(missing("inc")));
}

#[test]
fn from_json_split_missing_pos() {
    assert!(is_invalid(missing("split")));
}

#[test]
fn from_json_merge_missing_pos() {
    assert!(is_invalid(missing("merge")));
}

#[test]
fn from_json_extend_missing_props() {
    assert!(is_invalid(missing("extend")));
}

#[test]
fn from_json_contains_missing_value() {
    assert!(is_invalid(missing("contains")));
}

#[test]
fn from_json_ends_missing_value() {
    assert!(is_invalid(missing("ends")));
}

#[test]
fn from_json_starts_missing_value() {
    assert!(is_invalid(missing("starts")));
}

#[test]
fn from_json_in_missing_value() {
    assert!(is_invalid(missing("in")));
}

#[test]
fn from_json_less_missing_value() {
    assert!(is_invalid(missing("less")));
}

#[test]
fn from_json_more_missing_value() {
    assert!(is_invalid(missing("more")));
}

#[test]
fn from_json_matches_missing_value() {
    assert!(is_invalid(missing("matches")));
}

#[test]
fn from_json_test_type_missing_type() {
    assert!(is_invalid(missing("test_type")));
}

#[test]
fn from_json_test_string_missing_fields() {
    assert!(is_invalid(missing("test_string")));
}

#[test]
fn from_json_test_string_len_missing_len() {
    assert!(is_invalid(missing("test_string_len")));
}

#[test]
fn from_json_type_missing_value() {
    assert!(is_invalid(missing("type")));
}

#[test]
fn from_json_and_missing_apply() {
    assert!(is_invalid(missing("and")));
}

#[test]
fn from_json_not_missing_apply() {
    assert!(is_invalid(missing("not")));
}

#[test]
fn from_json_or_missing_apply() {
    assert!(is_invalid(missing("or")));
}

#[test]
fn roundtrip_copy() {
    let rt = roundtrip(Op::Copy { path: p("a"), from: p("b") });
    assert_eq!(rt.op_name(), "copy");
}

#[test]
fn roundtrip_move() {
    let rt = roundtrip(Op::Move { path: p("a"), from: p("b") });
    assert_eq!(rt.op_name(), "move");
}

#[test]
fn roundtrip_test_not() {
    let v = to_json(&Op::Test { path: p("a"), value: n(42), not: true });
    assert_eq!(get(&v, "not"), Some(&JsonBinary::Bool(true)));
    match from_json(&v).unwrap() {
        Op::Test { not, .. } => assert!(not),
        _ => panic!("expected Test"),
    }
}

#[test]
fn roundtrip_test_no_not() {
    let v = to_json(&Op::Test { path: p("a"), value: n(42), not: false });
    assert!(get(&v, "not").is_none());
}

#[test]
fn roundtrip_str_ins() {
    let rt = roundtrip(Op::StrIns { path: p("a"), pos: 5, str_val: "hello".to_string() });
    assert_eq!(rt.op_name(), "str_ins");
}

#[test]
fn roundtrip_str_del_with_str_and_len() {
    let op = Op::StrDel { path: p("a"), pos: 3, str_val: Some("abc".to_string()), len: Some(3) };
    let v = to_json(&op);
    assert_eq!(get(&v, "str"), Some(&s("abc")));
    assert_eq!(get(&v, "len"), Some(&n(3)));
    let rt = from_json(&v).unwrap();
    assert_eq!(rt.op_name(), "str_del");
}

#[test]
fn roundtrip_str_del_no_optional() {
    let v = to_json(&Op::StrDel { path: p("a"), pos: 0, str_val: None, len: None });
    assert!(get(&v, "str").is_none());
    assert!(get(&v, "len").is_none());
}

#[test]
fn roundtrip_flip() {
    let rt = roundtrip(Op::Flip { path: p("x") });
    assert_eq!(rt.op_name(), "flip");
}

#[test]
fn roundtrip_inc() {
    let rt = roundtrip(Op::Inc { path: p("c"), inc: f(3.5) });
    assert_eq!(rt.op_name(), "inc");
}

#[test]
fn roundtrip_split_with_props() {
    let op = Op::Split { path: p("a"), pos: 5, props: Some(obj(vec![("bold", JsonBinary::Bool(true))])) };
    let v = to_json(&op);
    assert_eq!(get(get(&v, "props").unwrap(), "bold"), Some(&JsonBinary::Bool(true)));
    let rt = from_json(&v).unwrap();
    assert_eq!(rt.op_name(), "split");
}

#[test]
fn roundtrip_split_no_props() {
    let v = to_json(&Op::Split { path: p("a"), pos: 5, props: None });
    assert!(get(&v, "props").is_none());
}

#[test]
fn roundtrip_merge_with_props() {
    let op = Op::Merge { path: p("a"), pos: 2, props: Some(obj(vec![("style", s("italic"))])) };
    let v = to_json(&op);
    assert!(get(&v, "props").is_some());
    let rt = from_json(&v).unwrap();
    assert_eq!(rt.op_name(), "merge");
}

#[test]
fn roundtrip_merge_no_props() {
    let v = to_json(&Op::Merge { path: p("a"), pos: 2, props: None });
    assert!(get(&v, "props").is_none());
}

#[test]
fn roundtrip_extend_with_delete_null() {
    let op = Op::Extend { path: p("a"), props: vec![("key".to_string(), s("val"))], delete_null: true };
    let v = to_json(&op);
    assert_eq!(get(&v, "deleteNull"), Some(&JsonBinary::Bool(true)));
    let rt = from_json(&v).unwrap();
    assert_eq!(rt.op_name(), "extend");
}

#[test]
fn roundtrip_extend_no_delete_null() {
    let op = Op::Extend { path: p("a"), props: vec![("key".to_string(), s("val"))], delete_null: false };
    let v = to_json(&op);
    assert!(get(&v, "deleteNull").is_none());
}

#[test]
fn roundtrip_defined() {
    let rt = roundtrip(Op::Defined { path: p("a") });
    assert_eq!(rt.op_name(), "defined");
}

#[test]
fn roundtrip_undefined() {
    let rt = roundtrip(Op::Undefined { path: p("a") });
    assert_eq!(rt.op_name(), "undefined");
}

#[test]
fn roundtrip_contains_ignore_case() {
    let v = to_json(&Op::Contains { path: p("a"), value: "test".to_string(), ignore_case: true });
    assert_eq!(get(&v, "ignore_case"), Some(&JsonBinary::Bool(true)));
    match from_json(&v).unwrap() {
        Op::Contains { ignore_case, .. } => assert!(ignore_case),
        _ => panic!("expected Contains"),
    }
}

#[test]
fn roundtrip_contains_case_sensitive() {
    let v = to_json(&Op::Contains { path: vec![], value: "x".to_string(), ignore_case: false });
    assert!(get(&v, "ignore_case").is_none());
}

#[test]
fn roundtrip_ends_ignore_case() {
    let v = to_json(&Op::Ends { path: vec![], value: "xyz".to_string(), ignore_case: true });
    assert_eq!(get(&v, "ignore_case"), Some(&JsonBinary::Bool(true)));
    assert_eq!(from_json(&v).unwrap().op_name(), "ends");
}

#[test]
fn roundtrip_starts_ignore_case() {
    let v = to_json(&Op::Starts { path: vec![], value: "abc".to_string(), ignore_case: true });
    assert_eq!(get(&v, "ignore_case"), Some(&JsonBinary::Bool(true)));
    assert_eq!(from_json(&v).unwrap().op_name(), "starts");
}

#[test]
fn roundtrip_in() {
    let rt = roundtrip(Op::In { path: p("x"), value: vec![n(1), n(2)] });
    assert_eq!(rt.op_name(), "in");
}

#[test]
fn roundtrip_less() {
    let rt = roundtrip(Op::Less { path: vec![], value: f(42.0) });
    assert_eq!(rt.op_name(), "less");
}

#[test]
fn roundtrip_more() {
    let rt = roundtrip(Op::More { path: vec![], value: f(99.0) });
    assert_eq!(rt.op_name(), "more");
}

#[test]
fn roundtrip_matches_ignore_case() {
    let v = to_json(&Op::Matches { path: vec![], value: "^abc$".to_string(), ignore_case: true });
    assert_eq!(get(&v, "ignore_case"), Some(&JsonBinary::Bool(true)));
    assert_eq!(from_json(&v).unwrap().op_name(), "matches");
}

#[test]
fn roundtrip_test_string() {
    let rt = roundtrip(Op::TestString { path: p("a"), pos: 3, str_val: "abc".to_string(), not: false });
    assert_eq!(rt.op_name(), "test_string");
}

#[test]
fn roundtrip_test_string_with_not() {
    let v = to_json(&Op::TestString { path: vec![], pos: 0, str_val: "x".to_string(), not: true });
    assert_eq!(get(&v, "not"), Some(&JsonBinary::Bool(true)));
}

#[test]
fn roundtrip_test_string_len() {
    let rt = roundtrip(Op::TestStringLen { path: vec![], len: 10, not: false });
    assert_eq!(rt.op_name(), "test_string_len");
}

#[test]
fn roundtrip_test_string_len_with_not() {
    let v = to_json(&Op::TestStringLen { path: vec![], len: 5, not: true });
    assert_eq!(get(&v, "not"), Some(&JsonBinary::Bool(true)));
}

#[test]
fn roundtrip_type() {
    let v = to_json(&Op::Type { path: vec![], value: JsonPatchType::Array });
    assert_eq!(get(&v, "value"), Some(&s("array")));
    assert_eq!(from_json(&v).unwrap().op_name(), "type");
}

#[test]
fn roundtrip_not_predicate() {
    let rt = roundtrip(Op::Not { path: vec![], ops: vec![Op::Defined { path: p("a") }] });
    assert_eq!(rt.op_name(), "not");
}

#[test]
fn roundtrip_or_predicate() {
    let rt = roundtrip(Op::Or { path: vec![], ops: vec![Op::Less { path: vec![], value: f(1.0) }] });
    assert_eq!(rt.op_name(), "or");
}

#[test]
fn roundtrip_remove_with_old_value() {
    let v = to_json(&Op::Remove { path: p("a"), old_value: Some(s("old")) });
    assert_eq!(get(&v, "oldValue"), Some(&s("old")));
    match from_json(&v).unwrap() {
        Op::Remove { old_value, .. } => assert_eq!(old_value, Some(s("old"))),
        _ => panic!("expected Remove"),
    }
}

#[test]
fn to_json_patch_produces_array() {
    let ops = vec![Op::Add { path: p("a"), value: n(1) }, Op::Remove { path: p("b"), old_value: None }];
    match to_json_patch(&ops) {
        JsonBinary::Array(xs) => assert_eq!(xs.len(), 2),
        _ => panic!("expected an array"),
    }
}

#[test]
fn from_json_patch_not_array() {
    let r = from_json_patch(&obj(vec![("op", s("add"))]));
    assert!(matches!(r, Err(PatchError::InvalidOp(_))));
}

#[test]
fn from_json_no_path_defaults_empty() {
    let op = from_json(&obj(vec![("op", s("flip"))])).unwrap();
    assert!(op.path().is_empty());
}

#[test]
fn from_json_test_type_invalid_type_string() {
    let v = obj(vec![("op", s("test_type")), ("path", s("/a")), ("type", JsonBinary::Array(vec![s("bogus")]))]);
    assert!(is_invalid(from_json(&v)));
}

#[test]
fn from_json_type_invalid_value_type() {
    let v = obj(vec![("op", s("type")), ("path", s("/a")), ("value", n(42))]);
    assert!(is_invalid(from_json(&v)));
}

#[test]
fn types_op_name_all_variants() {
    let expected_names = [
        "add", "remove", "replace", "copy", "move", "test", "str_ins", "str_del", "flip", "inc", "split",
        "merge", "extend", "defined", "undefined", "contains", "ends", "starts", "in", "less", "more",
        "matches", "test_type", "test_string", "test_string_len", "type", "and", "not", "or",
    ];
    let ops = all_ops(vec![]);
    assert_eq!(ops.len(), expected_names.len());
    for (op, expected) in ops.iter().zip(expected_names.iter()) {
        assert_eq!(op.op_name(), *expected);
    }
}

#[test]
fn op_path_returns_path() {
    let op = Op::Add { path: vec!["a".to_string(), "b".to_string()], value: n(1) };
    assert_eq!(op.path(), &vec!["a".to_string(), "b".to_string()]);
}

#[test]
fn op_path_all_variants_return_their_path() {
    let path = vec!["test".to_string()];
    for op in &all_ops(path.clone()) {
        assert_eq!(op.path(), &path, "path() mismatch for {}", op.op_name());
    }
}

#[test]
fn is_predicate_true_for_predicate_ops() {
    let ops = all_ops(vec![]);
    for op in ops.iter().skip(13).chain(ops.iter().skip(5).take(1)) {
        assert!(op.is_predicate(), "{} should be a predicate", op.op_name());
    }
}

#[test]
fn is_predicate_false_for_non_predicate_ops() {
    let ops = all_ops(vec![]);
    for (i, op) in ops.iter().enumerate().take(13) {
        if i != 5 {
            assert!(!op.is_predicate(), "{} should not be a predicate", op.op_name());
        }
    }
}

// ── Further cases ──────────────────────────────────────────────────────────

#[test]
fn decode_path_unescapes_segments() {
    let v = obj(vec![("op", s("flip")), ("path", s("/a~1b/c~0d/"))]);
    let op = from_json(&v).unwrap();
    assert_eq!(op.path(), &vec!["a/b".to_string(), "c~d".to_string(), String::new()]);
}

#[test]
fn decode_path_roundtrips_encoding() {
    let path = vec!["~1".to_string(), "x/y~".to_string(), String::new()];
    let rt = roundtrip(Op::Flip { path: path.clone() });
    assert_eq!(rt.path(), &path);
}

#[test]
fn decode_reads_optional_fields() {
    let v = obj(vec![("op", s("str_del")), ("pos", n(4)), ("len", n(2))]);
    match from_json(&v).unwrap() {
        Op::StrDel { path, pos, str_val, len } => {
            assert!(path.is_empty());
            assert_eq!(pos, 4);
            assert_eq!(str_val, None);
            assert_eq!(len, Some(2));
        },
        _ => panic!("expected StrDel"),
    }
}

#[test]
fn decode_nested_failure_fails_whole() {
    let v = obj(vec![("op", s("and")), ("apply", JsonBinary::Array(vec![obj(vec![("op", s("less"))])]))]);
    assert!(is_invalid(from_json(&v)));
}

#[test]
fn encode_writes_fields_in_order() {
    let v = to_json(&Op::StrIns { path: p("t"), pos: 1, str_val: "z".to_string() });
    match v {
        JsonBinary::Object(e) => {
            let keys: Vec<&str> = e.iter().map(|(k, _)| k.as_str()).collect();
            assert_eq!(keys, vec!["op", "path", "pos", "str"]);
        },
        _ => panic!("expected an object"),
    }
}

#[test]
fn decode_error_messages_name_the_missing_field() {
    match missing("copy") {
        Err(PatchError::InvalidOp(m)) => assert_eq!(m, "copy requires 'from'"),
        _ => panic!("expected InvalidOp"),
    }
    let v = obj(vec![("op", s("str_ins")), ("pos", n(1))]);
    match from_json(&v) {
        Err(PatchError::InvalidOp(m)) => assert_eq!(m, "str_ins requires 'str'"),
        _ => panic!("expected InvalidOp"),
    }
    match from_json(&obj(vec![("op", s("bogus"))])) {
        Err(PatchError::InvalidOp(m)) => assert_eq!(m, "unknown op: bogus"),
        _ => panic!("expected InvalidOp"),
    }
}
