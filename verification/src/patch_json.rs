//! JSON Patch operations and their JSON form (RFC 6902, with the string,
//! predicate and composite extensions).
use vstd::prelude::*;
use crate::diff_bin::push_char;
use crate::json_equal::{JsonBinary, json_copy, key_index, lemma_key_index, number_clone};
use crate::text::str_eq;
use crate::json_patch::{JsonPatchType, PatchError, name_of_type, type_of_name};

verus! {

/// A JSON Patch operation.  A path is the list of its segments.
#[derive(Debug)]
pub enum Op {
    Add { path: Vec<String>, value: JsonBinary },
    Remove { path: Vec<String>, old_value: Option<JsonBinary> },
    Replace { path: Vec<String>, value: JsonBinary, old_value: Option<JsonBinary> },
    Copy { path: Vec<String>, from: Vec<String> },
    Move { path: Vec<String>, from: Vec<String> },
    Test { path: Vec<String>, value: JsonBinary, not: bool },
    StrIns { path: Vec<String>, pos: usize, str_val: String },
    StrDel { path: Vec<String>, pos: usize, str_val: Option<String>, len: Option<usize> },
    Flip { path: Vec<String> },
    Inc { path: Vec<String>, inc: serde_json::Number },
    Split { path: Vec<String>, pos: usize, props: Option<JsonBinary> },
    Merge { path: Vec<String>, pos: usize, props: Option<JsonBinary> },
    Extend { path: Vec<String>, props: Vec<(String, JsonBinary)>, delete_null: bool },
    Defined { path: Vec<String> },
    Undefined { path: Vec<String> },
    Contains { path: Vec<String>, value: String, ignore_case: bool },
    Ends { path: Vec<String>, value: String, ignore_case: bool },
    Starts { path: Vec<String>, value: String, ignore_case: bool },
    In { path: Vec<String>, value: Vec<JsonBinary> },
    Less { path: Vec<String>, value: serde_json::Number },
    More { path: Vec<String>, value: serde_json::Number },
    Matches { path: Vec<String>, value: String, ignore_case: bool },
    TestType { path: Vec<String>, type_vals: Vec<JsonPatchType> },
    TestString { path: Vec<String>, pos: usize, str_val: String, not: bool },
    TestStringLen { path: Vec<String>, len: usize, not: bool },
    Type { path: Vec<String>, value: JsonPatchType },
    And { path: Vec<String>, ops: Vec<Op> },
    Not { path: Vec<String>, ops: Vec<Op> },
    Or { path: Vec<String>, ops: Vec<Op> },
}

// ── Paths as JSON Pointers ─────────────────────────────────────────────────

/// A path segment's characters, as a JSON Pointer writes them: `~` as `~0`
/// and `/` as `~1`.
pub open spec fn escape_char(c: char) -> Seq<char> {
    if c == '~' {
        seq!['~', '0']
    } else if c == '/' {
        seq!['~', '1']
    } else {
        seq![c]
    }
}

/// A path segment as a JSON Pointer writes it.
pub open spec fn escape_segment(s: Seq<char>) -> Seq<char>
    decreases s.len(),
{
    if s.len() == 0 {
        Seq::empty()
    } else {
        escape_segment(s.drop_last()) + escape_char(s.last())
    }
}

/// The JSON Pointer of a path: empty for the empty path, else each segment,
/// escaped, after a `/`.
pub open spec fn pointer_of(path: Seq<Seq<char>>) -> Seq<char>
    decreases path.len(),
{
    if path.len() == 0 {
        Seq::empty()
    } else {
        pointer_of(path.drop_last()) + seq!['/'] + escape_segment(path.last())
    }
}

/// The segments of a path as character sequences.
pub open spec fn path_view(p: Seq<String>) -> Seq<Seq<char>> {
    p.map_values(|s: String| s@)
}

/// The JSON Pointer of `path`.
pub fn encode_path(path: &Vec<String>) -> (r: String)
    ensures
        r@ == pointer_of(path_view(path@)),
{
    let mut out = String::new();
    let mut i: usize = 0;
    while i < path.len()
        invariant
            i <= path@.len(),
            out@ == pointer_of(path_view(path@.take(i as int))),
        decreases path@.len() - i,
    {
        let seg = &path[i];
        let ghost before = out@;
        push_char(&mut out, '/');
        let n = seg.as_str().unicode_len();
        let mut j: usize = 0;
        while j < n
            invariant
                j <= n,
                n == seg@.len(),
                out@ == before + seq!['/'] + escape_segment(seg@.take(j as int)),
            decreases n - j,
        {
            let c = seg.as_str().get_char(j);
            let ghost mid = out@;
            if c == '~' {
                push_char(&mut out, '~');
                push_char(&mut out, '0');
            } else if c == '/' {
                push_char(&mut out, '~');
                push_char(&mut out, '1');
            } else {
                push_char(&mut out, c);
            }
            proof {
                assert(seg@.take(j + 1).drop_last() =~= seg@.take(j as int));
                assert(out@ =~= before + seq!['/'] + escape_segment(seg@.take(j + 1)));
            }
            j = j + 1;
        }
        proof {
            assert(seg@.take(n as int) =~= seg@);
            let pv = path_view(path@.take(i + 1));
            assert(pv.drop_last() =~= path_view(path@.take(i as int)));
            assert(pv.last() == seg@);
        }
        i = i + 1;
    }
    proof {
        assert(path@.take(path@.len() as int) =~= path@);
    }
    out
}

// ── Numbers ────────────────────────────────────────────────────────────────

/// The JSON number `serde_json::Number::from(n)` makes of `n`.
pub uninterp spec fn number_of_u64(n: u64) -> serde_json::Number;

/// What `serde_json::Number::as_u64` gives for `n`.
pub uninterp spec fn u64_of_number(n: serde_json::Number) -> Option<u64>;

/// `serde_json::Number::from(u64)`.  Its result is named
/// `number_of_u64(n)`; the source stores `n` as a non-negative integer, which
/// `as_u64` gives back.
#[verifier::external_body]
fn number_from_u64(n: u64) -> (r: serde_json::Number)
    ensures
        r == number_of_u64(n),
        u64_of_number(r) == Some(n),
{
    serde_json::Number::from(n)
}

/// `serde_json::Number::as_u64`: the number as a `u64`, when it is a
/// non-negative integer.  Its result is named `u64_of_number(*n)`.
#[verifier::external_body]
fn number_as_u64(n: &serde_json::Number) -> (r: Option<u64>)
    ensures
        r == u64_of_number(*n),
{
    n.as_u64()
}


// ── The JSON form ──────────────────────────────────────────────────────────

/// What a field of an operation's JSON form holds.
pub ghost enum Field {
    /// A copy of this value.
    Copy(JsonBinary),
    /// A string with these characters.
    Text(Seq<char>),
    /// An array of strings with these characters.
    Names(Seq<Seq<char>>),
    /// The number `serde_json` makes of this integer, which it reads back
    /// as the same integer.
    Index(u64),
}

/// Value `v` holds what `f` describes.
pub open spec fn field_ok(v: JsonBinary, f: Field) -> bool {
    match f {
        Field::Copy(x) => json_copy(x, v),
        Field::Text(t) => v matches JsonBinary::String(s) && s@ == t,
        Field::Names(ns) => v matches JsonBinary::Array(xs) && xs@.len() == ns.len() && forall|i: int|
            #![trigger xs@[i]]
            0 <= i < ns.len() ==> (xs@[i] matches JsonBinary::String(s) && s@ == ns[i]),
        Field::Index(n) => v == JsonBinary::Number(number_of_u64(n)) && u64_of_number(number_of_u64(n)) == Some(n),
    }
}

/// The entries `e` are, in order, the fields `x`: the same keys, each value
/// holding what its field describes.
pub open spec fn fields_match(e: Seq<(String, JsonBinary)>, x: Seq<(Seq<char>, Field)>) -> bool {
    &&& e.len() == x.len()
    &&& forall|i: int| #![trigger e[i]] 0 <= i < e.len() ==> e[i].0@ == x[i].0 && field_ok(e[i].1, x[i].1)
}

/// The operation's name.
pub open spec fn op_name(op: Op) -> Seq<char> {
    match op {
        Op::Add { .. } => "add"@,
        Op::Remove { .. } => "remove"@,
        Op::Replace { .. } => "replace"@,
        Op::Copy { .. } => "copy"@,
        Op::Move { .. } => "move"@,
        Op::Test { .. } => "test"@,
        Op::StrIns { .. } => "str_ins"@,
        Op::StrDel { .. } => "str_del"@,
        Op::Flip { .. } => "flip"@,
        Op::Inc { .. } => "inc"@,
        Op::Split { .. } => "split"@,
        Op::Merge { .. } => "merge"@,
        Op::Extend { .. } => "extend"@,
        Op::Defined { .. } => "defined"@,
        Op::Undefined { .. } => "undefined"@,
        Op::Contains { .. } => "contains"@,
        Op::Ends { .. } => "ends"@,
        Op::Starts { .. } => "starts"@,
        Op::In { .. } => "in"@,
        Op::Less { .. } => "less"@,
        Op::More { .. } => "more"@,
        Op::Matches { .. } => "matches"@,
        Op::TestType { .. } => "test_type"@,
        Op::TestString { .. } => "test_string"@,
        Op::TestStringLen { .. } => "test_string_len"@,
        Op::Type { .. } => "type"@,
        Op::And { .. } => "and"@,
        Op::Not { .. } => "not"@,
        Op::Or { .. } => "or"@,
    }
}

/// The operation's path.
pub open spec fn op_path(op: Op) -> Vec<String> {
    match op {
        Op::Add { path, .. } => path,
        Op::Remove { path, .. } => path,
        Op::Replace { path, .. } => path,
        Op::Copy { path, .. } => path,
        Op::Move { path, .. } => path,
        Op::Test { path, .. } => path,
        Op::StrIns { path, .. } => path,
        Op::StrDel { path, .. } => path,
        Op::Flip { path } => path,
        Op::Inc { path, .. } => path,
        Op::Split { path, .. } => path,
        Op::Merge { path, .. } => path,
        Op::Extend { path, .. } => path,
        Op::Defined { path } => path,
        Op::Undefined { path } => path,
        Op::Contains { path, .. } => path,
        Op::Ends { path, .. } => path,
        Op::Starts { path, .. } => path,
        Op::In { path, .. } => path,
        Op::Less { path, .. } => path,
        Op::More { path, .. } => path,
        Op::Matches { path, .. } => path,
        Op::TestType { path, .. } => path,
        Op::TestString { path, .. } => path,
        Op::TestStringLen { path, .. } => path,
        Op::Type { path, .. } => path,
        Op::And { path, .. } => path,
        Op::Not { path, .. } => path,
        Op::Or { path, .. } => path,
    }
}

/// A field holding the number `n`.
pub open spec fn num_field(n: usize) -> Field {
    Field::Index(n as u64)
}

/// A field present exactly when `flag` is set, holding `true`.
pub open spec fn flag_field(k: Seq<char>, flag: bool) -> Seq<(Seq<char>, Field)> {
    if flag {
        seq![(k, Field::Copy(JsonBinary::Bool(true)))]
    } else {
        Seq::empty()
    }
}

/// A field present exactly when `v` is some value, holding a copy of it.
pub open spec fn opt_field(k: Seq<char>, v: Option<JsonBinary>) -> Seq<(Seq<char>, Field)> {
    match v {
        Some(x) => seq![(k, Field::Copy(x))],
        None => Seq::empty(),
    }
}

/// The fields every operation starts with: its name and its path.
pub open spec fn head_fields(op: Op) -> Seq<(Seq<char>, Field)> {
    seq![("op"@, Field::Text(op_name(op))), ("path"@, Field::Text(pointer_of(path_view(op_path(op)@))))]
}

/// The fields of an operation's JSON form after the name and the path, for
/// the operations that hold no operations.
pub open spec fn tail_fields(op: Op) -> Seq<(Seq<char>, Field)> {
    match op {
        Op::Add { value, .. } => seq![("value"@, Field::Copy(value))],
        Op::Remove { old_value, .. } => opt_field("oldValue"@, old_value),
        Op::Replace { value, old_value, .. } => seq![("value"@, Field::Copy(value))] + opt_field(
            "oldValue"@,
            old_value,
        ),
        Op::Copy { from, .. } => seq![("from"@, Field::Text(pointer_of(path_view(from@))))],
        Op::Move { from, .. } => seq![("from"@, Field::Text(pointer_of(path_view(from@))))],
        Op::Test { value, not, .. } => seq![("value"@, Field::Copy(value))] + flag_field("not"@, not),
        Op::StrIns { pos, str_val, .. } => seq![("pos"@, num_field(pos)), ("str"@, Field::Text(str_val@))],
        Op::StrDel { pos, str_val, len, .. } => seq![("pos"@, num_field(pos))] + (match str_val {
            Some(s) => seq![("str"@, Field::Text(s@))],
            None => Seq::empty(),
        }) + (match len {
            Some(l) => seq![("len"@, num_field(l))],
            None => Seq::empty(),
        }),
        Op::Flip { .. } => Seq::empty(),
        Op::Inc { inc, .. } => seq![("inc"@, Field::Copy(JsonBinary::Number(inc)))],
        Op::Split { pos, props, .. } => seq![("pos"@, num_field(pos))] + opt_field("props"@, props),
        Op::Merge { pos, props, .. } => seq![("pos"@, num_field(pos))] + opt_field("props"@, props),
        Op::Extend { props, delete_null, .. } => seq![("props"@, Field::Copy(JsonBinary::Object(props)))]
            + flag_field("deleteNull"@, delete_null),
        Op::Defined { .. } => Seq::empty(),
        Op::Undefined { .. } => Seq::empty(),
        Op::Contains { value, ignore_case, .. } => seq![("value"@, Field::Text(value@))] + flag_field(
            "ignore_case"@,
            ignore_case,
        ),
        Op::Ends { value, ignore_case, .. } => seq![("value"@, Field::Text(value@))] + flag_field(
            "ignore_case"@,
            ignore_case,
        ),
        Op::Starts { value, ignore_case, .. } => seq![("value"@, Field::Text(value@))] + flag_field(
            "ignore_case"@,
            ignore_case,
        ),
        Op::In { value, .. } => seq![("value"@, Field::Copy(JsonBinary::Array(value)))],
        Op::Less { value, .. } => seq![("value"@, Field::Copy(JsonBinary::Number(value)))],
        Op::More { value, .. } => seq![("value"@, Field::Copy(JsonBinary::Number(value)))],
        Op::Matches { value, ignore_case, .. } => seq![("value"@, Field::Text(value@))] + flag_field(
            "ignore_case"@,
            ignore_case,
        ),
        Op::TestType { type_vals, .. } => seq![
            ("type"@, Field::Names(type_vals@.map_values(|t: JsonPatchType| name_of_type(t)))),
        ],
        Op::TestString { pos, str_val, not, .. } => seq![
            ("pos"@, num_field(pos)),
            ("str"@, Field::Text(str_val@)),
        ] + flag_field("not"@, not),
        Op::TestStringLen { len, not, .. } => seq![("len"@, num_field(len))] + flag_field("not"@, not),
        Op::Type { value, .. } => seq![("value"@, Field::Text(name_of_type(value)))],
        Op::And { .. } => Seq::empty(),
        Op::Not { .. } => Seq::empty(),
        Op::Or { .. } => Seq::empty(),
    }
}

/// `v` is the JSON form of `op`: an object whose entries are the name, the
/// path as a JSON Pointer, and then the operation's own fields, optional
/// ones present only when set; a composite operation's `apply` entry is the
/// array of the JSON forms of its operations.
pub open spec fn is_op_json(op: Op, v: JsonBinary) -> bool
    decreases op,
{
    match v {
        JsonBinary::Object(e) => match op {
            Op::And { ops, .. } | Op::Not { ops, .. } | Op::Or { ops, .. } => {
                &&& e@.len() == 3
                &&& fields_match(e@.take(2), head_fields(op))
                &&& e@[2].0@ == "apply"@
                &&& e@[2].1 matches JsonBinary::Array(xs) && xs@.len() == ops@.len() && forall|i: int|
                    #![trigger xs@[i]]
                    0 <= i < ops@.len() ==> is_op_json(ops@[i], xs@[i])
            },
            _ => fields_match(e@, head_fields(op) + tail_fields(op)),
        },
        _ => false,
    }
}


// ── Writing the JSON form ──────────────────────────────────────────────────

/// The entries naming the operation `name` at `path`.
fn head(name: &str, path: &Vec<String>) -> (r: Vec<(String, JsonBinary)>)
    ensures
        fields_match(
            r@,
            seq![("op"@, Field::Text(name@)), ("path"@, Field::Text(pointer_of(path_view(path@))))],
        ),
{
    let mut m: Vec<(String, JsonBinary)> = Vec::new();
    m.push((String::from_str("op"), JsonBinary::String(String::from_str(name))));
    m.push((String::from_str("path"), JsonBinary::String(encode_path(path))));
    m
}

/// Appends the entry `k: v`, where `v` holds what `f` describes.
fn push_field(out: &mut Vec<(String, JsonBinary)>, Ghost(x): Ghost<Seq<(Seq<char>, Field)>>, k: &str, v: JsonBinary, Ghost(f): Ghost<Field>)
    requires
        fields_match(old(out)@, x),
        field_ok(v, f),
    ensures
        fields_match(final(out)@, x.push((k@, f))),
{
    out.push((String::from_str(k), v));
    proof {
        let e = out@;
        let y = x.push((k@, f));
        assert forall|i: int| #![trigger e[i]] 0 <= i < e.len() implies e[i].0@ == y[i].0 && field_ok(e[i].1, y[i].1) by {
            if i < x.len() {
                assert(e[i] == old(out)@[i]);
            }
        }
    }
}

/// The number `n`.
fn num_value(n: usize) -> (r: JsonBinary)
    ensures
        field_ok(r, num_field(n)),
{
    JsonBinary::Number(number_from_u64(n as u64))
}

/// A string with the characters of `s`.
fn text_value(s: &String) -> (r: JsonBinary)
    ensures
        field_ok(r, Field::Text(s@)),
{
    JsonBinary::String(s.clone())
}

/// Copies of the items.
fn copy_items(v: &Vec<JsonBinary>) -> (r: Vec<JsonBinary>)
    ensures
        json_copy(JsonBinary::Array(*v), JsonBinary::Array(r)),
{
    let mut out: Vec<JsonBinary> = Vec::new();
    let mut i: usize = 0;
    while i < v.len()
        invariant
            i <= v@.len(),
            out@.len() == i,
            forall|k: int| #![trigger v@[k]] 0 <= k < i ==> json_copy(v@[k], out@[k]),
        decreases v@.len() - i,
    {
        out.push(v[i].clone());
        i = i + 1;
    }
    out
}

/// Copies of the entries.
fn copy_entries(v: &Vec<(String, JsonBinary)>) -> (r: Vec<(String, JsonBinary)>)
    ensures
        json_copy(JsonBinary::Object(*v), JsonBinary::Object(r)),
{
    let mut out: Vec<(String, JsonBinary)> = Vec::new();
    let mut i: usize = 0;
    while i < v.len()
        invariant
            i <= v@.len(),
            out@.len() == i,
            forall|k: int| #![trigger v@[k]] 0 <= k < i ==> v@[k].0@ == out@[k].0@ && json_copy(v@[k].1, out@[k].1),
        decreases v@.len() - i,
    {
        out.push((v[i].0.clone(), v[i].1.clone()));
        i = i + 1;
    }
    out
}

/// The names of the types, as an array of strings.
fn names_value(ts: &Vec<JsonPatchType>) -> (r: JsonBinary)
    ensures
        field_ok(r, Field::Names(ts@.map_values(|t: JsonPatchType| name_of_type(t)))),
{
    let mut out: Vec<JsonBinary> = Vec::new();
    let mut i: usize = 0;
    while i < ts.len()
        invariant
            i <= ts@.len(),
            out@.len() == i,
            forall|k: int| #![trigger out@[k]] 0 <= k < i ==> (out@[k] matches JsonBinary::String(s) && s@ == name_of_type(ts@[k])),
        decreases ts@.len() - i,
    {
        out.push(JsonBinary::String(String::from_str(ts[i].as_str())));
        i = i + 1;
    }
    JsonBinary::Array(out)
}

/// The JSON forms of the operations.
fn ops_json(ops: &Vec<Op>) -> (r: Vec<JsonBinary>)
    ensures
        r@.len() == ops@.len(),
        forall|i: int| #![trigger r@[i]] 0 <= i < ops@.len() ==> is_op_json(ops@[i], r@[i]),
    decreases ops,
{
    let mut out: Vec<JsonBinary> = Vec::new();
    let mut i: usize = 0;
    while i < ops.len()
        invariant
            i <= ops@.len(),
            out@.len() == i,
            forall|k: int| #![trigger out@[k]] 0 <= k < i ==> is_op_json(ops@[k], out@[k]),
        decreases ops@.len() - i,
    {
        proof {
            assert(decreases_to!(*ops => ops@));
            assert(decreases_to!(ops@ => ops@[i as int]));
        }
        out.push(to_json(&ops[i]));
        i = i + 1;
    }
    out
}

/// The JSON form of a composite operation, whose operations have the JSON
/// forms `items`.
fn composite_json(name: &str, path: &Vec<String>, items: Vec<JsonBinary>, Ghost(op): Ghost<Op>, Ghost(ops): Ghost<Seq<Op>>) -> (r: JsonBinary)
    requires
        name@ == op_name(op),
        *path == op_path(op),
        op matches Op::And { ops: o, .. } ==> o@ == ops,
        op matches Op::Not { ops: o, .. } ==> o@ == ops,
        op matches Op::Or { ops: o, .. } ==> o@ == ops,
        op is And || op is Not || op is Or,
        items@.len() == ops.len(),
        forall|i: int| #![trigger items@[i]] 0 <= i < ops.len() ==> is_op_json(ops[i], items@[i]),
    ensures
        is_op_json(op, r),
{
    let mut m = head(name, path);
    let ghost h = m@;
    m.push((String::from_str("apply"), JsonBinary::Array(items)));
    proof {
        assert(m@.take(2) =~= h);
        assert(h.len() == 2);
    }
    JsonBinary::Object(m)
}

/// The JSON form of `op`: an object holding `op` (the name), `path` (the
/// path as a JSON Pointer, `""` when empty) and the operation's own fields;
/// the flags `not`, `ignore_case` and `deleteNull` are written only when
/// set, and an optional field only when it holds a value.  Numbers are
/// written as they are held.
pub fn to_json(op: &Op) -> (r: JsonBinary)
    ensures
        is_op_json(*op, r),
    decreases op,
{
    let ghost hf = head_fields(*op);
    let ghost want = hf + tail_fields(*op);
    match op {
        Op::Add { path, value } => {
            let mut m = head("add", path);
            push_field(&mut m, Ghost(hf), "value", value.clone(), Ghost(Field::Copy(*value)));
            proof { assert(hf.push(("value"@, Field::Copy(*value))) =~= want); }
            JsonBinary::Object(m)
        },
        Op::Remove { path, old_value } => {
            let mut m = head("remove", path);
            if let Some(ov) = old_value {
                push_field(&mut m, Ghost(hf), "oldValue", ov.clone(), Ghost(Field::Copy(*ov)));
                proof { assert(hf.push(("oldValue"@, Field::Copy(*ov))) =~= want); }
            } else {
                proof { assert(hf =~= want); }
            }
            JsonBinary::Object(m)
        },
        Op::Replace { path, value, old_value } => {
            let mut m = head("replace", path);
            let ghost x = hf.push(("value"@, Field::Copy(*value)));
            push_field(&mut m, Ghost(hf), "value", value.clone(), Ghost(Field::Copy(*value)));
            if let Some(ov) = old_value {
                push_field(&mut m, Ghost(x), "oldValue", ov.clone(), Ghost(Field::Copy(*ov)));
                proof { assert(x.push(("oldValue"@, Field::Copy(*ov))) =~= want); }
            } else {
                proof { assert(x =~= want); }
            }
            JsonBinary::Object(m)
        },
        Op::Copy { path, from } => {
            let mut m = head("copy", path);
            let ghost f = Field::Text(pointer_of(path_view(from@)));
            push_field(&mut m, Ghost(hf), "from", JsonBinary::String(encode_path(from)), Ghost(f));
            proof { assert(hf.push(("from"@, f)) =~= want); }
            JsonBinary::Object(m)
        },
        Op::Move { path, from } => {
            let mut m = head("move", path);
            let ghost f = Field::Text(pointer_of(path_view(from@)));
            push_field(&mut m, Ghost(hf), "from", JsonBinary::String(encode_path(from)), Ghost(f));
            proof { assert(hf.push(("from"@, f)) =~= want); }
            JsonBinary::Object(m)
        },
        Op::Test { path, value, not } => {
            let mut m = head("test", path);
            let ghost x = hf.push(("value"@, Field::Copy(*value)));
            push_field(&mut m, Ghost(hf), "value", value.clone(), Ghost(Field::Copy(*value)));
            if *not {
                push_field(&mut m, Ghost(x), "not", JsonBinary::Bool(true), Ghost(Field::Copy(JsonBinary::Bool(true))));
                proof { assert(x.push(("not"@, Field::Copy(JsonBinary::Bool(true)))) =~= want); }
            } else {
                proof { assert(x =~= want); }
            }
            JsonBinary::Object(m)
        },
        Op::StrIns { path, pos, str_val } => {
            let mut m = head("str_ins", path);
            let ghost x = hf.push(("pos"@, num_field(*pos)));
            push_field(&mut m, Ghost(hf), "pos", num_value(*pos), Ghost(num_field(*pos)));
            push_field(&mut m, Ghost(x), "str", text_value(str_val), Ghost(Field::Text(str_val@)));
            proof { assert(x.push(("str"@, Field::Text(str_val@))) =~= want); }
            JsonBinary::Object(m)
        },
        Op::StrDel { path, pos, str_val, len } => {
            let mut m = head("str_del", path);
            let ghost mut x = hf.push(("pos"@, num_field(*pos)));
            push_field(&mut m, Ghost(hf), "pos", num_value(*pos), Ghost(num_field(*pos)));
            if let Some(sv) = str_val {
                push_field(&mut m, Ghost(x), "str", text_value(sv), Ghost(Field::Text(sv@)));
                proof { x = x.push(("str"@, Field::Text(sv@))); }
            }
            if let Some(l) = len {
                push_field(&mut m, Ghost(x), "len", num_value(*l), Ghost(num_field(*l)));
                proof { x = x.push(("len"@, num_field(*l))); }
            }
            proof { assert(x =~= want); }
            JsonBinary::Object(m)
        },
        Op::Flip { path } => {
            let m = head("flip", path);
            proof { assert(hf =~= want); }
            JsonBinary::Object(m)
        },
        Op::Inc { path, inc } => {
            let mut m = head("inc", path);
            let ghost f = Field::Copy(JsonBinary::Number(*inc));
            push_field(&mut m, Ghost(hf), "inc", JsonBinary::Number(number_clone(inc)), Ghost(f));
            proof { assert(hf.push(("inc"@, f)) =~= want); }
            JsonBinary::Object(m)
        },
        Op::Split { path, pos, props } => {
            let mut m = head("split", path);
            let ghost x = hf.push(("pos"@, num_field(*pos)));
            push_field(&mut m, Ghost(hf), "pos", num_value(*pos), Ghost(num_field(*pos)));
            if let Some(pr) = props {
                push_field(&mut m, Ghost(x), "props", pr.clone(), Ghost(Field::Copy(*pr)));
                proof { assert(x.push(("props"@, Field::Copy(*pr))) =~= want); }
            } else {
                proof { assert(x =~= want); }
            }
            JsonBinary::Object(m)
        },
        Op::Merge { path, pos, props } => {
            let mut m = head("merge", path);
            let ghost x = hf.push(("pos"@, num_field(*pos)));
            push_field(&mut m, Ghost(hf), "pos", num_value(*pos), Ghost(num_field(*pos)));
            if let Some(pr) = props {
                push_field(&mut m, Ghost(x), "props", pr.clone(), Ghost(Field::Copy(*pr)));
                proof { assert(x.push(("props"@, Field::Copy(*pr))) =~= want); }
            } else {
                proof { assert(x =~= want); }
            }
            JsonBinary::Object(m)
        },
        Op::Extend { path, props, delete_null } => {
            let mut m = head("extend", path);
            let ghost f = Field::Copy(JsonBinary::Object(*props));
            let ghost x = hf.push(("props"@, f));
            push_field(&mut m, Ghost(hf), "props", JsonBinary::Object(copy_entries(props)), Ghost(f));
            if *delete_null {
                push_field(&mut m, Ghost(x), "deleteNull", JsonBinary::Bool(true), Ghost(Field::Copy(JsonBinary::Bool(true))));
                proof { assert(x.push(("deleteNull"@, Field::Copy(JsonBinary::Bool(true)))) =~= want); }
            } else {
                proof { assert(x =~= want); }
            }
            JsonBinary::Object(m)
        },
        Op::Defined { path } => {
            let m = head("defined", path);
            proof { assert(hf =~= want); }
            JsonBinary::Object(m)
        },
        Op::Undefined { path } => {
            let m = head("undefined", path);
            proof { assert(hf =~= want); }
            JsonBinary::Object(m)
        },
        Op::Contains { path, value, ignore_case } => {
            let mut m = head("contains", path);
            text_test(&mut m, Ghost(hf), value, *ignore_case);
            proof { assert(hf.push(("value"@, Field::Text(value@))) + flag_field("ignore_case"@, *ignore_case) =~= want); }
            JsonBinary::Object(m)
        },
        Op::Ends { path, value, ignore_case } => {
            let mut m = head("ends", path);
            text_test(&mut m, Ghost(hf), value, *ignore_case);
            proof { assert(hf.push(("value"@, Field::Text(value@))) + flag_field("ignore_case"@, *ignore_case) =~= want); }
            JsonBinary::Object(m)
        },
        Op::Starts { path, value, ignore_case } => {
            let mut m = head("starts", path);
            text_test(&mut m, Ghost(hf), value, *ignore_case);
            proof { assert(hf.push(("value"@, Field::Text(value@))) + flag_field("ignore_case"@, *ignore_case) =~= want); }
            JsonBinary::Object(m)
        },
        Op::In { path, value } => {
            let mut m = head("in", path);
            let ghost f = Field::Copy(JsonBinary::Array(*value));
            push_field(&mut m, Ghost(hf), "value", JsonBinary::Array(copy_items(value)), Ghost(f));
            proof { assert(hf.push(("value"@, f)) =~= want); }
            JsonBinary::Object(m)
        },
        Op::Less { path, value } => {
            let mut m = head("less", path);
            let ghost f = Field::Copy(JsonBinary::Number(*value));
            push_field(&mut m, Ghost(hf), "value", JsonBinary::Number(number_clone(value)), Ghost(f));
            proof { assert(hf.push(("value"@, f)) =~= want); }
            JsonBinary::Object(m)
        },
        Op::More { path, value } => {
            let mut m = head("more", path);
            let ghost f = Field::Copy(JsonBinary::Number(*value));
            push_field(&mut m, Ghost(hf), "value", JsonBinary::Number(number_clone(value)), Ghost(f));
            proof { assert(hf.push(("value"@, f)) =~= want); }
            JsonBinary::Object(m)
        },
        Op::Matches { path, value, ignore_case } => {
            let mut m = head("matches", path);
            text_test(&mut m, Ghost(hf), value, *ignore_case);
            proof { assert(hf.push(("value"@, Field::Text(value@))) + flag_field("ignore_case"@, *ignore_case) =~= want); }
            JsonBinary::Object(m)
        },
        Op::TestType { path, type_vals } => {
            let mut m = head("test_type", path);
            let ghost f = Field::Names(type_vals@.map_values(|t: JsonPatchType| name_of_type(t)));
            push_field(&mut m, Ghost(hf), "type", names_value(type_vals), Ghost(f));
            proof { assert(hf.push(("type"@, f)) =~= want); }
            JsonBinary::Object(m)
        },
        Op::TestString { path, pos, str_val, not } => {
            let mut m = head("test_string", path);
            let ghost x = hf.push(("pos"@, num_field(*pos)));
            let ghost y = x.push(("str"@, Field::Text(str_val@)));
            push_field(&mut m, Ghost(hf), "pos", num_value(*pos), Ghost(num_field(*pos)));
            push_field(&mut m, Ghost(x), "str", text_value(str_val), Ghost(Field::Text(str_val@)));
            if *not {
                push_field(&mut m, Ghost(y), "not", JsonBinary::Bool(true), Ghost(Field::Copy(JsonBinary::Bool(true))));
                proof { assert(y.push(("not"@, Field::Copy(JsonBinary::Bool(true)))) =~= want); }
            } else {
                proof { assert(y =~= want); }
            }
            JsonBinary::Object(m)
        },
        Op::TestStringLen { path, len, not } => {
            let mut m = head("test_string_len", path);
            let ghost x = hf.push(("len"@, num_field(*len)));
            push_field(&mut m, Ghost(hf), "len", num_value(*len), Ghost(num_field(*len)));
            if *not {
                push_field(&mut m, Ghost(x), "not", JsonBinary::Bool(true), Ghost(Field::Copy(JsonBinary::Bool(true))));
                proof { assert(x.push(("not"@, Field::Copy(JsonBinary::Bool(true)))) =~= want); }
            } else {
                proof { assert(x =~= want); }
            }
            JsonBinary::Object(m)
        },
        Op::Type { path, value } => {
            let mut m = head("type", path);
            let ghost f = Field::Text(name_of_type(*value));
            push_field(&mut m, Ghost(hf), "value", JsonBinary::String(String::from_str(value.as_str())), Ghost(f));
            proof { assert(hf.push(("value"@, f)) =~= want); }
            JsonBinary::Object(m)
        },
        Op::And { path, ops } => {
            let items = ops_json(ops);
            composite_json("and", path, items, Ghost(*op), Ghost(ops@))
        },
        Op::Not { path, ops } => {
            let items = ops_json(ops);
            composite_json("not", path, items, Ghost(*op), Ghost(ops@))
        },
        Op::Or { path, ops } => {
            let items = ops_json(ops);
            composite_json("or", path, items, Ghost(*op), Ghost(ops@))
        },
    }
}

/// Appends the text field `value` and, when `ignore_case` is set, the flag.
fn text_test(out: &mut Vec<(String, JsonBinary)>, Ghost(x): Ghost<Seq<(Seq<char>, Field)>>, value: &String, ignore_case: bool)
    requires
        fields_match(old(out)@, x),
    ensures
        fields_match(final(out)@, x.push(("value"@, Field::Text(value@))) + flag_field("ignore_case"@, ignore_case)),
{
    let ghost y = x.push(("value"@, Field::Text(value@)));
    push_field(out, Ghost(x), "value", text_value(value), Ghost(Field::Text(value@)));
    if ignore_case {
        push_field(out, Ghost(y), "ignore_case", JsonBinary::Bool(true), Ghost(Field::Copy(JsonBinary::Bool(true))));
        proof { assert(y.push(("ignore_case"@, Field::Copy(JsonBinary::Bool(true)))) =~= y + flag_field("ignore_case"@, ignore_case)); }
    } else {
        proof { assert(y =~= y + flag_field("ignore_case"@, ignore_case)); }
    }
}

// ── Reading paths ──────────────────────────────────────────────────────────

/// `s` split at each `/`: one more part than there are slashes.
pub open spec fn split_slash(s: Seq<char>) -> Seq<Seq<char>>
    decreases s.len(),
{
    if s.len() == 0 {
        seq![Seq::empty()]
    } else {
        let p = split_slash(s.drop_last());
        if s.last() == '/' {
            p.push(Seq::empty())
        } else {
            p.update(p.len() - 1, p.last().push(s.last()))
        }
    }
}

/// `s` with each `~` followed by `d`, taken left to right without overlap,
/// replaced by `r`.
pub open spec fn replace_tilde(s: Seq<char>, d: char, r: char) -> Seq<char>
    decreases s.len(),
{
    if s.len() == 0 {
        s
    } else if s.len() >= 2 && s[0] == '~' && s[1] == d {
        seq![r] + replace_tilde(s.skip(2), d, r)
    } else {
        seq![s[0]] + replace_tilde(s.skip(1), d, r)
    }
}

/// A JSON Pointer segment read back: `~1` becomes `/`, then `~0` becomes
/// `~`.
pub open spec fn unescape_segment(s: Seq<char>) -> Seq<char> {
    replace_tilde(replace_tilde(s, '1', '/'), '0', '~')
}

/// The path a JSON Pointer names: none for the empty pointer; otherwise the
/// text after the first character, split at each `/`, each part unescaped.
pub open spec fn parse_pointer(s: Seq<char>) -> Seq<Seq<char>> {
    if s.len() == 0 {
        Seq::empty()
    } else {
        split_slash(s.skip(1)).map_values(|p: Seq<char>| unescape_segment(p))
    }
}

proof fn lemma_split_nonempty(s: Seq<char>)
    ensures
        split_slash(s).len() >= 1,
    decreases s.len(),
{
    if s.len() > 0 {
        lemma_split_nonempty(s.drop_last());
    }
}

/// `s` with `~d` replaced by `r`.
fn replace_tilde_in(s: &String, d: char, r: char) -> (out: String)
    ensures
        out@ == replace_tilde(s@, d, r),
{
    let n = s.as_str().unicode_len();
    let mut out = String::new();
    let mut i: usize = 0;
    proof {
        assert(s@.skip(0) =~= s@);
        assert(out@ + replace_tilde(s@, d, r) =~= replace_tilde(s@, d, r));
    }
    while i < n
        invariant
            n == s@.len(),
            i <= n,
            out@ + replace_tilde(s@.skip(i as int), d, r) == replace_tilde(s@, d, r),
        decreases n - i,
    {
        let c = s.as_str().get_char(i);
        let ghost rest = s@.skip(i as int);
        if c == '~' && i + 1 < n && s.as_str().get_char(i + 1) == d {
            push_char(&mut out, r);
            proof {
                assert(rest.skip(2) =~= s@.skip(i + 2));
                assert(out@ + replace_tilde(s@.skip(i + 2), d, r) =~= replace_tilde(s@, d, r));
            }
            i = i + 2;
        } else {
            push_char(&mut out, c);
            proof {
                assert(rest.skip(1) =~= s@.skip(i + 1));
                assert(out@ + replace_tilde(s@.skip(i + 1), d, r) =~= replace_tilde(s@, d, r));
            }
            i = i + 1;
        }
    }
    proof {
        assert(s@.skip(n as int) =~= Seq::<char>::empty());
        assert(out@ + replace_tilde(s@.skip(n as int), d, r) =~= out@);
    }
    out
}

/// The segment `s` unescaped.
fn unescape(s: &String) -> (r: String)
    ensures
        r@ == unescape_segment(s@),
{
    let a = replace_tilde_in(s, '1', '/');
    replace_tilde_in(&a, '0', '~')
}

/// The path named by the JSON Pointer `s`.
pub fn parse_path(s: &str) -> (r: Vec<String>)
    ensures
        path_view(r@) == parse_pointer(s@),
{
    let n = s.unicode_len();
    let mut out: Vec<String> = Vec::new();
    if n == 0 {
        proof {
            assert(path_view(out@) =~= parse_pointer(s@));
        }
        return out;
    }
    let ghost t = s@.skip(1);
    let mut cur = String::new();
    let mut i: usize = 1;
    proof {
        assert(t.take(0) =~= Seq::<char>::empty());
    }
    while i < n
        invariant
            n == s@.len(),
            1 <= i <= n,
            t == s@.skip(1),
            split_slash(t.take(i - 1)).len() == out@.len() + 1,
            cur@ == split_slash(t.take(i - 1)).last(),
            forall|k: int| #![trigger out@[k]] 0 <= k < out@.len() ==> out@[k]@ == unescape_segment(split_slash(t.take(i - 1))[k]),
        decreases n - i,
    {
        let c = s.get_char(i);
        let ghost pre = t.take(i - 1);
        proof {
            assert(t.take(i as int).drop_last() =~= pre);
            assert(t.take(i as int).last() == c);
            lemma_split_nonempty(pre);
        }
        if c == '/' {
            let u = unescape(&cur);
            out.push(u);
            cur = String::new();
        } else {
            push_char(&mut cur, c);
        }
        i = i + 1;
    }
    let u = unescape(&cur);
    out.push(u);
    proof {
        assert(t.take(n - 1) =~= t);
        assert(path_view(out@) =~= parse_pointer(s@));
    }
    out
}

// ── Reading the JSON form ──────────────────────────────────────────────────

/// The value under key `k`: that of the first entry with it.
pub open spec fn get_field(e: Seq<(String, JsonBinary)>, k: Seq<char>) -> Option<JsonBinary> {
    let i = key_index(e, k);
    if 0 <= i < e.len() {
        Some(e[i].1)
    } else {
        None
    }
}

/// The characters of a string value.
pub open spec fn text_of(v: Option<JsonBinary>) -> Option<Seq<char>> {
    match v {
        Some(JsonBinary::String(s)) => Some(s@),
        _ => None,
    }
}

/// A boolean value's truth; false for anything else.
pub open spec fn flag_of(v: Option<JsonBinary>) -> bool {
    match v {
        Some(JsonBinary::Bool(b)) => b,
        _ => false,
    }
}

/// A number value that is a non-negative integer of 64 bits.
pub open spec fn index_of(v: Option<JsonBinary>) -> Option<u64> {
    match v {
        Some(JsonBinary::Number(n)) => u64_of_number(n),
        _ => None,
    }
}

/// Both absent, or both present with the second a copy of the first.
pub open spec fn copy_opt(a: Option<JsonBinary>, b: Option<JsonBinary>) -> bool {
    match (a, b) {
        (None, None) => true,
        (Some(x), Some(y)) => json_copy(x, y),
        _ => false,
    }
}

/// The text of the path entry; an absent path reads as the empty pointer.
pub open spec fn path_text(e: Seq<(String, JsonBinary)>) -> Option<Seq<char>> {
    match get_field(e, "path"@) {
        None => Some(Seq::empty()),
        Some(JsonBinary::String(s)) => Some(s@),
        Some(_) => None,
    }
}

/// A string naming a value type.
pub open spec fn names_type(v: JsonBinary) -> bool {
    v matches JsonBinary::String(s) && type_of_name(s@) is Some
}

/// Whether `n` is the name of an operation.
pub open spec fn is_op_name(n: Seq<char>) -> bool {
    n == "add"@
    || n == "remove"@
    || n == "replace"@
    || n == "copy"@
    || n == "move"@
    || n == "test"@
    || n == "str_ins"@
    || n == "str_del"@
    || n == "flip"@
    || n == "inc"@
    || n == "split"@
    || n == "merge"@
    || n == "extend"@
    || n == "defined"@
    || n == "undefined"@
    || n == "contains"@
    || n == "ends"@
    || n == "starts"@
    || n == "in"@
    || n == "less"@
    || n == "more"@
    || n == "matches"@
    || n == "test_type"@
    || n == "test_string"@
    || n == "test_string_len"@
    || n == "type"@
    || n == "and"@
    || n == "not"@
    || n == "or"@
}

/// Whether `n` names a composite operation.
pub open spec fn is_composite(n: Seq<char>) -> bool {
    n == "and"@ || n == "not"@ || n == "or"@
}

/// The entries hold what the operation named `n`, not a composite one,
/// needs; false for a name that is no operation's.
pub open spec fn fields_present(e: Seq<(String, JsonBinary)>, n: Seq<char>) -> bool {
    if n == "add"@ || n == "replace"@ || n == "test"@ {
        get_field(e, "value"@) is Some
    } else if n == "remove"@ || n == "flip"@ || n == "defined"@ || n == "undefined"@ {
        true
    } else if n == "copy"@ || n == "move"@ {
        text_of(get_field(e, "from"@)) is Some
    } else if n == "str_ins"@ || n == "test_string"@ {
        index_of(get_field(e, "pos"@)) is Some && text_of(get_field(e, "str"@)) is Some
    } else if n == "str_del"@ || n == "split"@ || n == "merge"@ {
        index_of(get_field(e, "pos"@)) is Some
    } else if n == "inc"@ {
        get_field(e, "inc"@) matches Some(JsonBinary::Number(_))
    } else if n == "extend"@ {
        get_field(e, "props"@) matches Some(JsonBinary::Object(_))
    } else if n == "contains"@ || n == "ends"@ || n == "starts"@ || n == "matches"@ {
        text_of(get_field(e, "value"@)) is Some
    } else if n == "in"@ {
        get_field(e, "value"@) matches Some(JsonBinary::Array(_))
    } else if n == "less"@ || n == "more"@ {
        get_field(e, "value"@) matches Some(JsonBinary::Number(_))
    } else if n == "test_type"@ {
        get_field(e, "type"@) matches Some(JsonBinary::Array(xs)) && forall|i: int|
            #![trigger xs@[i]]
            0 <= i < xs@.len() ==> names_type(xs@[i])
    } else if n == "test_string_len"@ {
        index_of(get_field(e, "len"@)) is Some
    } else if n == "type"@ {
        get_field(e, "value"@) matches Some(x) && names_type(x)
    } else {
        false
    }
}

/// `v` is the JSON form of an operation: an object with a string `op`
/// naming one, a path that is a string or absent, and the fields that
/// operation needs; a composite one's `apply` is an array of such forms.
pub open spec fn decodable(v: JsonBinary) -> bool
    decreases v,
{
    match v {
        JsonBinary::Object(e) => match text_of(get_field(e@, "op"@)) {
            Some(n) => {
                &&& path_text(e@) is Some
                &&& if is_composite(n) {
                    let j = key_index(e@, "apply"@);
                    &&& 0 <= j < e@.len()
                    &&& e@[j].1 matches JsonBinary::Array(xs) && forall|i: int|
                        #![trigger xs@[i]]
                        0 <= i < xs@.len() ==> decodable(xs@[i])
                } else {
                    fields_present(e@, n)
                }
            },
            None => false,
        },
        _ => false,
    }
}

/// The fields of `op`, other than its name, path and operations, are read
/// from the entries `e`.
pub open spec fn fields_read(e: Seq<(String, JsonBinary)>, op: Op) -> bool {
    let pos = index_of(get_field(e, "pos"@));
    match op {
        Op::Add { value, .. } => copy_opt(get_field(e, "value"@), Some(value)),
        Op::Remove { old_value, .. } => copy_opt(get_field(e, "oldValue"@), old_value),
        Op::Replace { value, old_value, .. } => copy_opt(get_field(e, "value"@), Some(value))
            && copy_opt(get_field(e, "oldValue"@), old_value),
        Op::Copy { from, .. } => text_of(get_field(e, "from"@)) matches Some(t) && path_view(from@)
            == parse_pointer(t),
        Op::Move { from, .. } => text_of(get_field(e, "from"@)) matches Some(t) && path_view(from@)
            == parse_pointer(t),
        Op::Test { value, not, .. } => copy_opt(get_field(e, "value"@), Some(value)) && not == flag_of(
            get_field(e, "not"@),
        ),
        Op::StrIns { pos: p, str_val, .. } => pos matches Some(u) && p == u as usize && text_of(
            get_field(e, "str"@),
        ) == Some(str_val@),
        Op::StrDel { pos: p, str_val, len, .. } => {
            &&& pos matches Some(u) && p == u as usize
            &&& match (str_val, text_of(get_field(e, "str"@))) {
                (Some(x), Some(t)) => x@ == t,
                (None, None) => true,
                _ => false,
            }
            &&& match index_of(get_field(e, "len"@)) {
                Some(u) => len == Some(u as usize),
                None => len is None,
            }
        },
        Op::Flip { .. } => true,
        Op::Inc { inc, .. } => get_field(e, "inc"@) == Some(JsonBinary::Number(inc)),
        Op::Split { pos: p, props, .. } => pos matches Some(u) && p == u as usize && copy_opt(
            get_field(e, "props"@),
            props,
        ),
        Op::Merge { pos: p, props, .. } => pos matches Some(u) && p == u as usize && copy_opt(
            get_field(e, "props"@),
            props,
        ),
        Op::Extend { props, delete_null, .. } => {
            &&& get_field(e, "props"@) matches Some(x) && json_copy(x, JsonBinary::Object(props))
            &&& delete_null == flag_of(get_field(e, "deleteNull"@))
        },
        Op::Defined { .. } => true,
        Op::Undefined { .. } => true,
        Op::Contains { value, ignore_case, .. } => text_of(get_field(e, "value"@)) == Some(value@)
            && ignore_case == flag_of(get_field(e, "ignore_case"@)),
        Op::Ends { value, ignore_case, .. } => text_of(get_field(e, "value"@)) == Some(value@)
            && ignore_case == flag_of(get_field(e, "ignore_case"@)),
        Op::Starts { value, ignore_case, .. } => text_of(get_field(e, "value"@)) == Some(value@)
            && ignore_case == flag_of(get_field(e, "ignore_case"@)),
        Op::In { value, .. } => get_field(e, "value"@) matches Some(x) && json_copy(x, JsonBinary::Array(value)),
        Op::Less { value, .. } => get_field(e, "value"@) == Some(JsonBinary::Number(value)),
        Op::More { value, .. } => get_field(e, "value"@) == Some(JsonBinary::Number(value)),
        Op::Matches { value, ignore_case, .. } => text_of(get_field(e, "value"@)) == Some(value@)
            && ignore_case == flag_of(get_field(e, "ignore_case"@)),
        Op::TestType { type_vals, .. } => get_field(e, "type"@) matches Some(JsonBinary::Array(xs))
            && xs@.len() == type_vals@.len() && forall|i: int|
            #![trigger xs@[i]]
            0 <= i < xs@.len() ==> (xs@[i] matches JsonBinary::String(s) && type_of_name(s@) == Some(type_vals@[i])),
        Op::TestString { pos: p, str_val, not, .. } => pos matches Some(u) && p == u as usize && text_of(
            get_field(e, "str"@),
        ) == Some(str_val@) && not == flag_of(get_field(e, "not"@)),
        Op::TestStringLen { len, not, .. } => index_of(get_field(e, "len"@)) matches Some(u) && len
            == u as usize && not == flag_of(get_field(e, "not"@)),
        Op::Type { value, .. } => get_field(e, "value"@) matches Some(JsonBinary::String(s)) && type_of_name(s@)
            == Some(value),
        Op::And { .. } => true,
        Op::Not { .. } => true,
        Op::Or { .. } => true,
    }
}

/// The operations a composite operation holds; none for the others.
pub open spec fn op_children(op: Op) -> Seq<Op> {
    match op {
        Op::And { ops, .. } => ops@,
        Op::Not { ops, .. } => ops@,
        Op::Or { ops, .. } => ops@,
        _ => Seq::empty(),
    }
}

/// `op` is what `v` reads as: its name is `v`'s `op`, its path is the one
/// `v`'s path names (the empty path when it is absent), its fields are read
/// from `v`'s entries, and a composite one holds what the items of `v`'s
/// `apply` read as.
pub open spec fn decodes(v: JsonBinary, op: Op) -> bool
    decreases v,
{
    match v {
        JsonBinary::Object(e) => {
            &&& text_of(get_field(e@, "op"@)) == Some(op_name(op))
            &&& path_text(e@) matches Some(t) && path_view(op_path(op)@) == parse_pointer(t)
            &&& fields_read(e@, op)
            &&& is_composite(op_name(op)) ==> {
                let j = key_index(e@, "apply"@);
                let ops = op_children(op);
                &&& 0 <= j < e@.len()
                &&& e@[j].1 matches JsonBinary::Array(xs) && xs@.len() == ops.len() && forall|i: int|
                    #![trigger xs@[i]]
                    0 <= i < xs@.len() ==> decodes(xs@[i], ops[i])
            }
        },
        _ => false,
    }
}

/// The index of the first entry with key `k`, if any.
fn find_field(e: &Vec<(String, JsonBinary)>, k: &str) -> (r: Option<usize>)
    ensures
        match r {
            Some(i) => i == key_index(e@, k@) && i < e@.len(),
            None => key_index(e@, k@) == -1,
        },
{
    proof {
        lemma_key_index(e@, k@);
    }
    let mut i: usize = 0;
    while i < e.len()
        invariant
            i <= e@.len(),
            forall|m: int| 0 <= m < i ==> e@[m].0@ != k@,
            -1 <= key_index(e@, k@) < e@.len(),
            key_index(e@, k@) >= 0 ==> e@[key_index(e@, k@)].0@ == k@,
            forall|m: int| 0 <= m < e@.len() && m < key_index(e@, k@) ==> e@[m].0@ != k@,
            key_index(e@, k@) == -1 ==> forall|m: int| 0 <= m < e@.len() ==> e@[m].0@ != k@,
        decreases e@.len() - i,
    {
        if str_eq(e[i].0.as_str(), k) {
            return Some(i);
        }
        i = i + 1;
    }
    None
}

/// The value under key `k`.
fn field<'a>(e: &'a Vec<(String, JsonBinary)>, k: &str) -> (r: Option<&'a JsonBinary>)
    ensures
        match r {
            Some(x) => get_field(e@, k@) == Some(*x),
            None => get_field(e@, k@) is None,
        },
{
    match find_field(e, k) {
        Some(i) => Some(&e[i].1),
        None => None,
    }
}

/// The characters of the string under key `k`.
fn text_field(e: &Vec<(String, JsonBinary)>, k: &str) -> (r: Option<String>)
    ensures
        match r {
            Some(s) => text_of(get_field(e@, k@)) == Some(s@),
            None => text_of(get_field(e@, k@)) is None,
        },
{
    match field(e, k) {
        Some(JsonBinary::String(s)) => Some(s.clone()),
        _ => None,
    }
}

/// Whether the value under key `k` is `true`.
fn flag_field_of(e: &Vec<(String, JsonBinary)>, k: &str) -> (r: bool)
    ensures
        r == flag_of(get_field(e@, k@)),
{
    match field(e, k) {
        Some(JsonBinary::Bool(b)) => *b,
        _ => false,
    }
}

/// The non-negative integer under key `k`.
fn index_field(e: &Vec<(String, JsonBinary)>, k: &str) -> (r: Option<u64>)
    ensures
        r == index_of(get_field(e@, k@)),
{
    match field(e, k) {
        Some(JsonBinary::Number(n)) => number_as_u64(n),
        _ => None,
    }
}

/// A copy of the value under key `k`.
fn copy_field(e: &Vec<(String, JsonBinary)>, k: &str) -> (r: Option<JsonBinary>)
    ensures
        copy_opt(get_field(e@, k@), r),
{
    match field(e, k) {
        Some(x) => Some(x.clone()),
        None => None,
    }
}

/// The number under key `k`.
fn number_field(e: &Vec<(String, JsonBinary)>, k: &str) -> (r: Option<serde_json::Number>)
    ensures
        match r {
            Some(n) => get_field(e@, k@) == Some(JsonBinary::Number(n)),
            None => !(get_field(e@, k@) matches Some(JsonBinary::Number(_))),
        },
{
    match field(e, k) {
        Some(JsonBinary::Number(n)) => Some(number_clone(n)),
        _ => None,
    }
}

/// An `InvalidOp` error with message `m`.
fn invalid(m: &str) -> (r: PatchError)
    ensures
        r is InvalidOp,
{
    PatchError::InvalidOp(String::from_str(m))
}

/// The `InvalidOp` error saying that operation `name` requires `what`.
fn missing_field(name: &str, what: &str) -> (r: PatchError)
    ensures
        r is InvalidOp,
{
    let a = crate::text::concat_str(name, " requires '");
    let b = crate::text::concat_str(a.as_str(), what);
    PatchError::InvalidOp(crate::text::concat_str(b.as_str(), "'"))
}

/// The value types an array of names names.
fn read_types(xs: &Vec<JsonBinary>) -> (r: Result<Vec<JsonPatchType>, PatchError>)
    ensures
        r is Ok <==> forall|i: int| #![trigger xs@[i]] 0 <= i < xs@.len() ==> names_type(xs@[i]),
        r matches Ok(ts) ==> ts@.len() == xs@.len() && forall|i: int|
            #![trigger xs@[i]]
            0 <= i < xs@.len() ==> (xs@[i] matches JsonBinary::String(s) && type_of_name(s@) == Some(ts@[i])),
        r matches Err(e) ==> e is InvalidOp,
{
    let mut out: Vec<JsonPatchType> = Vec::new();
    let mut i: usize = 0;
    while i < xs.len()
        invariant
            i <= xs@.len(),
            out@.len() == i,
            forall|k: int| #![trigger xs@[k]] 0 <= k < i ==> (xs@[k] matches JsonBinary::String(s) && type_of_name(s@) == Some(out@[k])),
        decreases xs@.len() - i,
    {
        match &xs[i] {
            JsonBinary::String(s) => {
                match JsonPatchType::parse_str(s.as_str()) {
                    Ok(t) => out.push(t),
                    Err(e) => {
                        proof {
                            assert(!names_type(xs@[i as int]));
                        }
                        return Err(e);
                    },
                }
            },
            _ => {
                proof {
                    assert(!names_type(xs@[i as int]));
                }
                return Err(invalid("type must be a string"));
            },
        }
        i = i + 1;
    }
    Ok(out)
}

/// The operations an array of JSON forms reads as.
fn read_ops(xs: &Vec<JsonBinary>) -> (r: Result<Vec<Op>, PatchError>)
    ensures
        r is Ok <==> forall|i: int| #![trigger xs@[i]] 0 <= i < xs@.len() ==> decodable(xs@[i]),
        r matches Ok(ops) ==> ops@.len() == xs@.len() && forall|i: int|
            #![trigger xs@[i]]
            0 <= i < xs@.len() ==> decodes(xs@[i], ops@[i]),
        r matches Err(e) ==> e is InvalidOp,
    decreases xs,
{
    let mut out: Vec<Op> = Vec::new();
    let mut i: usize = 0;
    while i < xs.len()
        invariant
            i <= xs@.len(),
            out@.len() == i,
            forall|k: int| #![trigger xs@[k]] 0 <= k < i ==> decodable(xs@[k]) && decodes(xs@[k], out@[k]),
        decreases xs@.len() - i,
    {
        proof {
            assert(decreases_to!(*xs => xs@));
            assert(decreases_to!(xs@ => xs@[i as int]));
        }
        match from_json(&xs[i]) {
            Ok(op) => out.push(op),
            Err(e) => return Err(e),
        }
        i = i + 1;
    }
    Ok(out)
}

/// Reads an operation from its JSON form.  Fails with `InvalidOp` exactly
/// when `v` is not the JSON form of an operation (see `decodable`); what it
/// reads is described by `decodes`.  A path is read as a JSON Pointer, and
/// an absent path as the empty one.
pub fn from_json(v: &JsonBinary) -> (r: Result<Op, PatchError>)
    ensures
        r is Ok <==> decodable(*v),
        r matches Ok(op) ==> decodes(*v, op),
        r matches Err(e) ==> e is InvalidOp,
        v matches JsonBinary::Object(e) ==> (text_of(get_field(e@, "op"@)) matches Some(n) ==> (path_text(e@)
            is Some && !is_op_name(n) ==> (r matches Err(PatchError::InvalidOp(m)) && m@ == "unknown op: "@ + n))),
    decreases v,
{
    let e = match v {
        JsonBinary::Object(e) => e,
        _ => return Err(invalid("operation must be an object")),
    };
    let name = match text_field(e, "op") {
        Some(name) => name,
        None => return Err(invalid("missing 'op' field")),
    };
    let path = match field(e, "path") {
        None => {
            let p: Vec<String> = Vec::new();
            proof {
                assert(path_view(p@) =~= parse_pointer(Seq::empty()));
            }
            p
        },
        Some(JsonBinary::String(s)) => parse_path(s.as_str()),
        Some(_) => return Err(invalid("path must be a string")),
    };
    let n = name.as_str();
    if str_eq(n, "and") || str_eq(n, "not") || str_eq(n, "or") {
        let j = match find_field(e, "apply") {
            Some(j) => j,
            None => return Err(missing_field(n, "apply")),
        };
        match &e[j].1 {
            JsonBinary::Array(xs) => {
                proof {
                    assert(decreases_to!(*v => *e));
                    assert(decreases_to!(*e => e@));
                    assert(decreases_to!(e@ => e@[j as int]));
                    assert(decreases_to!(e@[j as int] => e@[j as int].1));
                    assert(decreases_to!(e@[j as int].1 => *xs));
                }
                match read_ops(xs) {
                    Ok(ops) => {
                        if str_eq(n, "and") {
                            Ok(Op::And { path, ops })
                        } else if str_eq(n, "not") {
                            Ok(Op::Not { path, ops })
                        } else {
                            Ok(Op::Or { path, ops })
                        }
                    },
                    Err(err) => Err(err),
                }
            },
            _ => Err(invalid("ops must be array")),
        }
    } else if str_eq(n, "add") {
        match copy_field(e, "value") {
            Some(value) => Ok(Op::Add { path, value }),
            None => Err(invalid("add requires 'value'")),
        }
    } else if str_eq(n, "replace") {
        match copy_field(e, "value") {
            Some(value) => Ok(Op::Replace { path, value, old_value: copy_field(e, "oldValue") }),
            None => Err(invalid("replace requires 'value'")),
        }
    } else if str_eq(n, "test") {
        match copy_field(e, "value") {
            Some(value) => Ok(Op::Test { path, value, not: flag_field_of(e, "not") }),
            None => Err(invalid("test requires 'value'")),
        }
    } else if str_eq(n, "remove") {
        Ok(Op::Remove { path, old_value: copy_field(e, "oldValue") })
    } else if str_eq(n, "flip") {
        Ok(Op::Flip { path })
    } else if str_eq(n, "defined") {
        Ok(Op::Defined { path })
    } else if str_eq(n, "undefined") {
        Ok(Op::Undefined { path })
    } else if str_eq(n, "copy") || str_eq(n, "move") {
        match text_field(e, "from") {
            Some(f) => {
                let from = parse_path(f.as_str());
                if str_eq(n, "copy") {
                    Ok(Op::Copy { path, from })
                } else {
                    Ok(Op::Move { path, from })
                }
            },
            None => match field(e, "from") {
                Some(_) => Err(invalid("path must be a string")),
                None => Err(missing_field(n, "from")),
            },
        }
    } else if str_eq(n, "str_ins") || str_eq(n, "test_string") {
        match (index_field(e, "pos"), text_field(e, "str")) {
            (Some(pos), Some(str_val)) => {
                if str_eq(n, "str_ins") {
                    Ok(Op::StrIns { path, pos: pos as usize, str_val })
                } else {
                    Ok(Op::TestString { path, pos: pos as usize, str_val, not: flag_field_of(e, "not") })
                }
            },
            (None, _) => Err(missing_field(n, "pos")),
            (_, None) => Err(missing_field(n, "str")),
        }
    } else if str_eq(n, "str_del") || str_eq(n, "split") || str_eq(n, "merge") {
        match index_field(e, "pos") {
            Some(pos) => {
                if str_eq(n, "str_del") {
                    let len = match index_field(e, "len") {
                        Some(l) => Some(l as usize),
                        None => None,
                    };
                    Ok(Op::StrDel { path, pos: pos as usize, str_val: text_field(e, "str"), len })
                } else if str_eq(n, "split") {
                    Ok(Op::Split { path, pos: pos as usize, props: copy_field(e, "props") })
                } else {
                    Ok(Op::Merge { path, pos: pos as usize, props: copy_field(e, "props") })
                }
            },
            None => Err(missing_field(n, "pos")),
        }
    } else if str_eq(n, "inc") {
        match number_field(e, "inc") {
            Some(inc) => Ok(Op::Inc { path, inc }),
            None => Err(invalid("inc requires 'inc'")),
        }
    } else if str_eq(n, "extend") {
        match field(e, "props") {
            Some(JsonBinary::Object(x)) => Ok(
                Op::Extend { path, props: copy_entries(x), delete_null: flag_field_of(e, "deleteNull") },
            ),
            _ => Err(invalid("extend requires 'props'")),
        }
    } else if str_eq(n, "contains") || str_eq(n, "ends") || str_eq(n, "starts") || str_eq(n, "matches") {
        match text_field(e, "value") {
            Some(value) => {
                let ignore_case = flag_field_of(e, "ignore_case");
                if str_eq(n, "contains") {
                    Ok(Op::Contains { path, value, ignore_case })
                } else if str_eq(n, "ends") {
                    Ok(Op::Ends { path, value, ignore_case })
                } else if str_eq(n, "starts") {
                    Ok(Op::Starts { path, value, ignore_case })
                } else {
                    Ok(Op::Matches { path, value, ignore_case })
                }
            },
            None => Err(missing_field(n, "value")),
        }
    } else if str_eq(n, "in") {
        match field(e, "value") {
            Some(JsonBinary::Array(x)) => Ok(Op::In { path, value: copy_items(x) }),
            _ => Err(invalid("in requires 'value' array")),
        }
    } else if str_eq(n, "less") || str_eq(n, "more") {
        match number_field(e, "value") {
            Some(value) => {
                if str_eq(n, "less") {
                    Ok(Op::Less { path, value })
                } else {
                    Ok(Op::More { path, value })
                }
            },
            None => Err(missing_field(n, "value")),
        }
    } else if str_eq(n, "test_type") {
        match field(e, "type") {
            Some(JsonBinary::Array(xs)) => match read_types(xs) {
                Ok(type_vals) => Ok(Op::TestType { path, type_vals }),
                Err(err) => Err(err),
            },
            _ => Err(invalid("test_type requires 'type' array")),
        }
    } else if str_eq(n, "test_string_len") {
        match index_field(e, "len") {
            Some(len) => Ok(Op::TestStringLen { path, len: len as usize, not: flag_field_of(e, "not") }),
            None => Err(invalid("test_string_len requires 'len'")),
        }
    } else if str_eq(n, "type") {
        match field(e, "value") {
            Some(JsonBinary::String(s)) => match JsonPatchType::parse_str(s.as_str()) {
                Ok(value) => Ok(Op::Type { path, value }),
                Err(err) => Err(err),
            },
            Some(_) => Err(invalid("type must be a string")),
            None => Err(invalid("type requires 'value'")),
        }
    } else {
        Err(PatchError::InvalidOp(crate::text::concat_str("unknown op: ", n)))
    }
}

/// The JSON forms of the operations, as an array.
pub fn to_json_patch(ops: &Vec<Op>) -> (r: JsonBinary)
    ensures
        r matches JsonBinary::Array(xs) && xs@.len() == ops@.len() && forall|i: int|
            #![trigger xs@[i]]
            0 <= i < ops@.len() ==> is_op_json(ops@[i], xs@[i]),
{
    JsonBinary::Array(ops_json(ops))
}

/// Reads a patch, an array of JSON forms of operations.  Fails with
/// `InvalidOp` exactly when `v` is not an array or one of its items is not
/// the JSON form of an operation.
pub fn from_json_patch(v: &JsonBinary) -> (r: Result<Vec<Op>, PatchError>)
    ensures
        r is Ok <==> (v matches JsonBinary::Array(xs) && forall|i: int|
            #![trigger xs@[i]]
            0 <= i < xs@.len() ==> decodable(xs@[i])),
        r matches Ok(ops) ==> (v matches JsonBinary::Array(xs) && ops@.len() == xs@.len() && forall|i: int|
            #![trigger xs@[i]]
            0 <= i < xs@.len() ==> decodes(xs@[i], ops@[i])),
        r matches Err(e) ==> e is InvalidOp,
{
    match v {
        JsonBinary::Array(xs) => read_ops(xs),
        _ => Err(invalid("patch must be an array")),
    }
}

/// Whether `op` tests the document rather than changing it.
pub open spec fn is_predicate_op(op: Op) -> bool {
    op is Test || op is Defined || op is Undefined || op is Contains || op is Ends || op is Starts || op is In || op is Less || op is More || op is Matches || op is TestType || op is TestString || op is TestStringLen || op is Type || op is And || op is Not || op is Or
}

impl Op {
    /// The operation's name.
    pub fn op_name(&self) -> (r: &'static str)
        ensures
            r@ == op_name(*self),
    {
        match self {
            Op::Add { .. } => "add",
            Op::Remove { .. } => "remove",
            Op::Replace { .. } => "replace",
            Op::Copy { .. } => "copy",
            Op::Move { .. } => "move",
            Op::Test { .. } => "test",
            Op::StrIns { .. } => "str_ins",
            Op::StrDel { .. } => "str_del",
            Op::Flip { .. } => "flip",
            Op::Inc { .. } => "inc",
            Op::Split { .. } => "split",
            Op::Merge { .. } => "merge",
            Op::Extend { .. } => "extend",
            Op::Defined { .. } => "defined",
            Op::Undefined { .. } => "undefined",
            Op::Contains { .. } => "contains",
            Op::Ends { .. } => "ends",
            Op::Starts { .. } => "starts",
            Op::In { .. } => "in",
            Op::Less { .. } => "less",
            Op::More { .. } => "more",
            Op::Matches { .. } => "matches",
            Op::TestType { .. } => "test_type",
            Op::TestString { .. } => "test_string",
            Op::TestStringLen { .. } => "test_string_len",
            Op::Type { .. } => "type",
            Op::And { .. } => "and",
            Op::Not { .. } => "not",
            Op::Or { .. } => "or",
        }
    }

    /// The operation's path.
    pub fn path(&self) -> (r: &Vec<String>)
        ensures
            *r == op_path(*self),
    {
        match self {
            Op::Add { path, .. } => path,
            Op::Remove { path, .. } => path,
            Op::Replace { path, .. } => path,
            Op::Copy { path, .. } => path,
            Op::Move { path, .. } => path,
            Op::Test { path, .. } => path,
            Op::StrIns { path, .. } => path,
            Op::StrDel { path, .. } => path,
            Op::Flip { path, .. } => path,
            Op::Inc { path, .. } => path,
            Op::Split { path, .. } => path,
            Op::Merge { path, .. } => path,
            Op::Extend { path, .. } => path,
            Op::Defined { path, .. } => path,
            Op::Undefined { path, .. } => path,
            Op::Contains { path, .. } => path,
            Op::Ends { path, .. } => path,
            Op::Starts { path, .. } => path,
            Op::In { path, .. } => path,
            Op::Less { path, .. } => path,
            Op::More { path, .. } => path,
            Op::Matches { path, .. } => path,
            Op::TestType { path, .. } => path,
            Op::TestString { path, .. } => path,
            Op::TestStringLen { path, .. } => path,
            Op::Type { path, .. } => path,
            Op::And { path, .. } => path,
            Op::Not { path, .. } => path,
            Op::Or { path, .. } => path,
        }
    }

    /// Whether the operation tests the document rather than changing it.
    pub fn is_predicate(&self) -> (r: bool)
        ensures
            r == is_predicate_op(*self),
    {
        match self {
            Op::Add { .. } | Op::Remove { .. } | Op::Replace { .. } | Op::Copy { .. } | Op::Move { .. }
            | Op::StrIns { .. } | Op::StrDel { .. } | Op::Flip { .. } | Op::Inc { .. } | Op::Split { .. }
            | Op::Merge { .. } | Op::Extend { .. } => false,
            _ => true,
        }
    }
}

// ── Paths read back ────────────────────────────────────────────────────────

/// Escaping works character by character.
proof fn lemma_escape_concat(a: Seq<char>, b: Seq<char>)
    ensures
        escape_segment(a + b) == escape_segment(a) + escape_segment(b),
    decreases b.len(),
{
    if b.len() == 0 {
        assert(a + b =~= a);
        assert(escape_segment(a) + escape_segment(b) =~= escape_segment(a));
    } else {
        lemma_escape_concat(a, b.drop_last());
        assert((a + b).drop_last() =~= a + b.drop_last());
        assert(escape_segment(a) + escape_segment(b) =~= escape_segment(a) + escape_segment(b.drop_last())
            + escape_char(b.last()));
    }
}

/// An escaped segment holds no `/`.
proof fn lemma_escape_no_slash(s: Seq<char>)
    ensures
        forall|i: int| 0 <= i < escape_segment(s).len() ==> escape_segment(s)[i] != '/',
    decreases s.len(),
{
    if s.len() > 0 {
        lemma_escape_no_slash(s.drop_last());
        let d = escape_segment(s.drop_last());
        let l = escape_char(s.last());
        assert(escape_segment(s) == d + l);
        assert forall|i: int| 0 <= i < escape_segment(s).len() implies escape_segment(s)[i] != '/' by {
            if i >= d.len() {
                assert(escape_segment(s)[i] == l[i - d.len()]);
            } else {
                assert(escape_segment(s)[i] == d[i]);
            }
        }
    }
}

/// Unescaping undoes escaping.
proof fn lemma_unescape_escape(s: Seq<char>)
    ensures
        unescape_segment(escape_segment(s)) == s,
    decreases s.len(),
{
    if s.len() == 0 {
        assert(escape_segment(s) =~= Seq::<char>::empty());
    } else {
        let c = s[0];
        let t = s.skip(1);
        assert(s =~= seq![c] + t);
        lemma_escape_concat(seq![c], t);
        assert(seq![c].drop_last() =~= Seq::<char>::empty());
        assert(escape_segment(Seq::<char>::empty()) =~= Seq::<char>::empty());
        assert(escape_segment(seq![c]) == escape_segment(seq![c].drop_last()) + escape_char(seq![c].last()));
        assert(escape_segment(seq![c]) =~= escape_char(c));
        let e = escape_segment(t);
        lemma_unescape_escape(t);
        let a1 = replace_tilde(e, '1', '/');
        assert(replace_tilde(a1, '0', '~') == t);
        if c == '~' {
            let x = seq!['~', '0'] + e;
            assert(x.skip(1) =~= seq!['0'] + e);
            assert((seq!['0'] + e).skip(1) =~= e);
            assert(replace_tilde(seq!['0'] + e, '1', '/') =~= seq!['0'] + a1);
            assert(replace_tilde(x, '1', '/') =~= seq!['~', '0'] + a1);
            let y = seq!['~', '0'] + a1;
            assert(y.skip(2) =~= a1);
            assert(replace_tilde(y, '0', '~') =~= seq!['~'] + t);
        } else if c == '/' {
            let x = seq!['~', '1'] + e;
            assert(x.skip(2) =~= e);
            assert(replace_tilde(x, '1', '/') =~= seq!['/'] + a1);
            let y = seq!['/'] + a1;
            assert(y.skip(1) =~= a1);
            assert(replace_tilde(y, '0', '~') =~= seq!['/'] + t);
        } else {
            let x = seq![c] + e;
            assert(x.skip(1) =~= e);
            assert(replace_tilde(x, '1', '/') =~= seq![c] + a1);
            let y = seq![c] + a1;
            assert(y.skip(1) =~= a1);
            assert(replace_tilde(y, '0', '~') =~= seq![c] + t);
        }
    }
}

/// Splitting `a` followed by text without a slash extends the last part.
proof fn lemma_split_no_slash(a: Seq<char>, b: Seq<char>)
    requires
        forall|i: int| 0 <= i < b.len() ==> b[i] != '/',
    ensures
        split_slash(a + b) == split_slash(a).update(split_slash(a).len() - 1, split_slash(a).last() + b),
        split_slash(a + b).len() == split_slash(a).len(),
    decreases b.len(),
{
    lemma_split_nonempty(a);
    let sa = split_slash(a);
    if b.len() == 0 {
        assert(a + b =~= a);
        assert(sa.update(sa.len() - 1, sa.last() + b) =~= sa);
    } else {
        let b1 = b.drop_last();
        lemma_split_no_slash(a, b1);
        assert((a + b).drop_last() =~= a + b1);
        assert((a + b).last() == b.last());
        assert(b.last() != '/');
        let pp = split_slash(a + b1);
        assert(pp.len() == sa.len());
        assert(pp.last() == sa.last() + b1);
        assert((sa.last() + b1).push(b.last()) =~= sa.last() + b);
        assert(split_slash(a + b) == pp.update(pp.len() - 1, pp.last().push(b.last())));
        assert(split_slash(a + b) =~= sa.update(sa.len() - 1, sa.last() + b));
    }
}

/// The text after the leading `/` of a non-empty path's pointer splits
/// into the escaped segments.
proof fn lemma_split_pointer(p: Seq<Seq<char>>)
    requires
        p.len() >= 1,
    ensures
        pointer_of(p).len() >= 1,
        pointer_of(p)[0] == '/',
        split_slash(pointer_of(p).skip(1)) == p.map_values(|x: Seq<char>| escape_segment(x)),
    decreases p.len(),
{
    let q = p.drop_last();
    let e = escape_segment(p.last());
    lemma_escape_no_slash(p.last());
    if p.len() == 1 {
        assert(pointer_of(q) =~= Seq::<char>::empty());
        assert(pointer_of(p).skip(1) =~= Seq::<char>::empty() + e);
        lemma_split_no_slash(Seq::empty(), e);
        assert(split_slash(pointer_of(p).skip(1)) =~= p.map_values(|x: Seq<char>| escape_segment(x)));
    } else {
        lemma_split_pointer(q);
        let x = pointer_of(q).skip(1);
        assert(pointer_of(p).skip(1) =~= x.push('/') + e);
        assert(x.push('/').drop_last() =~= x);
        lemma_split_nonempty(x);
        lemma_split_no_slash(x.push('/'), e);
        assert(split_slash(pointer_of(p).skip(1)) =~= p.map_values(|y: Seq<char>| escape_segment(y)));
    }
}

/// A path written as a JSON Pointer reads back as the same path.
pub proof fn lemma_path_roundtrip(p: Seq<Seq<char>>)
    ensures
        parse_pointer(pointer_of(p)) == p,
{
    if p.len() == 0 {
        assert(parse_pointer(pointer_of(p)) =~= p);
    } else {
        lemma_split_pointer(p);
        assert forall|i: int| 0 <= i < p.len() implies #[trigger] parse_pointer(pointer_of(p))[i] == p[i] by {
            lemma_unescape_escape(p[i]);
        }
        assert(parse_pointer(pointer_of(p)) =~= p);
    }
}

// ── The JSON form reads back ───────────────────────────────────────────────

/// How the names and keys of the JSON form are spelled.
proof fn lemma_spellings()
    ensures
        "add"@.len() == 3 && "add"@[0] == 'a' && "add"@[1] == 'd' && "add"@[2] == 'd',
        "remove"@.len() == 6 && "remove"@[0] == 'r' && "remove"@[1] == 'e' && "remove"@[2] == 'm' && "remove"@[3] == 'o' && "remove"@[4] == 'v' && "remove"@[5] == 'e',
        "replace"@.len() == 7 && "replace"@[0] == 'r' && "replace"@[1] == 'e' && "replace"@[2] == 'p' && "replace"@[3] == 'l' && "replace"@[4] == 'a' && "replace"@[5] == 'c' && "replace"@[6] == 'e',
        "copy"@.len() == 4 && "copy"@[0] == 'c' && "copy"@[1] == 'o' && "copy"@[2] == 'p' && "copy"@[3] == 'y',
        "move"@.len() == 4 && "move"@[0] == 'm' && "move"@[1] == 'o' && "move"@[2] == 'v' && "move"@[3] == 'e',
        "test"@.len() == 4 && "test"@[0] == 't' && "test"@[1] == 'e' && "test"@[2] == 's' && "test"@[3] == 't',
        "str_ins"@.len() == 7 && "str_ins"@[0] == 's' && "str_ins"@[1] == 't' && "str_ins"@[2] == 'r' && "str_ins"@[3] == '_' && "str_ins"@[4] == 'i' && "str_ins"@[5] == 'n' && "str_ins"@[6] == 's',
        "str_del"@.len() == 7 && "str_del"@[0] == 's' && "str_del"@[1] == 't' && "str_del"@[2] == 'r' && "str_del"@[3] == '_' && "str_del"@[4] == 'd' && "str_del"@[5] == 'e' && "str_del"@[6] == 'l',
        "flip"@.len() == 4 && "flip"@[0] == 'f' && "flip"@[1] == 'l' && "flip"@[2] == 'i' && "flip"@[3] == 'p',
        "inc"@.len() == 3 && "inc"@[0] == 'i' && "inc"@[1] == 'n' && "inc"@[2] == 'c',
        "split"@.len() == 5 && "split"@[0] == 's' && "split"@[1] == 'p' && "split"@[2] == 'l' && "split"@[3] == 'i' && "split"@[4] == 't',
        "merge"@.len() == 5 && "merge"@[0] == 'm' && "merge"@[1] == 'e' && "merge"@[2] == 'r' && "merge"@[3] == 'g' && "merge"@[4] == 'e',
        "extend"@.len() == 6 && "extend"@[0] == 'e' && "extend"@[1] == 'x' && "extend"@[2] == 't' && "extend"@[3] == 'e' && "extend"@[4] == 'n' && "extend"@[5] == 'd',
        "defined"@.len() == 7 && "defined"@[0] == 'd' && "defined"@[1] == 'e' && "defined"@[2] == 'f' && "defined"@[3] == 'i' && "defined"@[4] == 'n' && "defined"@[5] == 'e' && "defined"@[6] == 'd',
        "undefined"@.len() == 9 && "undefined"@[0] == 'u' && "undefined"@[1] == 'n' && "undefined"@[2] == 'd' && "undefined"@[3] == 'e' && "undefined"@[4] == 'f' && "undefined"@[5] == 'i' && "undefined"@[6] == 'n' && "undefined"@[7] == 'e' && "undefined"@[8] == 'd',
        "contains"@.len() == 8 && "contains"@[0] == 'c' && "contains"@[1] == 'o' && "contains"@[2] == 'n' && "contains"@[3] == 't' && "contains"@[4] == 'a' && "contains"@[5] == 'i' && "contains"@[6] == 'n' && "contains"@[7] == 's',
        "ends"@.len() == 4 && "ends"@[0] == 'e' && "ends"@[1] == 'n' && "ends"@[2] == 'd' && "ends"@[3] == 's',
        "starts"@.len() == 6 && "starts"@[0] == 's' && "starts"@[1] == 't' && "starts"@[2] == 'a' && "starts"@[3] == 'r' && "starts"@[4] == 't' && "starts"@[5] == 's',
        "in"@.len() == 2 && "in"@[0] == 'i' && "in"@[1] == 'n',
        "less"@.len() == 4 && "less"@[0] == 'l' && "less"@[1] == 'e' && "less"@[2] == 's' && "less"@[3] == 's',
        "more"@.len() == 4 && "more"@[0] == 'm' && "more"@[1] == 'o' && "more"@[2] == 'r' && "more"@[3] == 'e',
        "matches"@.len() == 7 && "matches"@[0] == 'm' && "matches"@[1] == 'a' && "matches"@[2] == 't' && "matches"@[3] == 'c' && "matches"@[4] == 'h' && "matches"@[5] == 'e' && "matches"@[6] == 's',
        "test_type"@.len() == 9 && "test_type"@[0] == 't' && "test_type"@[1] == 'e' && "test_type"@[2] == 's' && "test_type"@[3] == 't' && "test_type"@[4] == '_' && "test_type"@[5] == 't' && "test_type"@[6] == 'y' && "test_type"@[7] == 'p' && "test_type"@[8] == 'e',
        "test_string"@.len() == 11 && "test_string"@[0] == 't' && "test_string"@[1] == 'e' && "test_string"@[2] == 's' && "test_string"@[3] == 't' && "test_string"@[4] == '_' && "test_string"@[5] == 's' && "test_string"@[6] == 't' && "test_string"@[7] == 'r' && "test_string"@[8] == 'i' && "test_string"@[9] == 'n' && "test_string"@[10] == 'g',
        "test_string_len"@.len() == 15 && "test_string_len"@[0] == 't' && "test_string_len"@[1] == 'e' && "test_string_len"@[2] == 's' && "test_string_len"@[3] == 't' && "test_string_len"@[4] == '_' && "test_string_len"@[5] == 's' && "test_string_len"@[6] == 't' && "test_string_len"@[7] == 'r' && "test_string_len"@[8] == 'i' && "test_string_len"@[9] == 'n' && "test_string_len"@[10] == 'g' && "test_string_len"@[11] == '_' && "test_string_len"@[12] == 'l' && "test_string_len"@[13] == 'e' && "test_string_len"@[14] == 'n',
        "type"@.len() == 4 && "type"@[0] == 't' && "type"@[1] == 'y' && "type"@[2] == 'p' && "type"@[3] == 'e',
        "and"@.len() == 3 && "and"@[0] == 'a' && "and"@[1] == 'n' && "and"@[2] == 'd',
        "not"@.len() == 3 && "not"@[0] == 'n' && "not"@[1] == 'o' && "not"@[2] == 't',
        "or"@.len() == 2 && "or"@[0] == 'o' && "or"@[1] == 'r',
        "op"@.len() == 2 && "op"@[0] == 'o' && "op"@[1] == 'p',
        "path"@.len() == 4 && "path"@[0] == 'p' && "path"@[1] == 'a' && "path"@[2] == 't' && "path"@[3] == 'h',
        "value"@.len() == 5 && "value"@[0] == 'v' && "value"@[1] == 'a' && "value"@[2] == 'l' && "value"@[3] == 'u' && "value"@[4] == 'e',
        "oldValue"@.len() == 8 && "oldValue"@[0] == 'o' && "oldValue"@[1] == 'l' && "oldValue"@[2] == 'd' && "oldValue"@[3] == 'V' && "oldValue"@[4] == 'a' && "oldValue"@[5] == 'l' && "oldValue"@[6] == 'u' && "oldValue"@[7] == 'e',
        "from"@.len() == 4 && "from"@[0] == 'f' && "from"@[1] == 'r' && "from"@[2] == 'o' && "from"@[3] == 'm',
        "pos"@.len() == 3 && "pos"@[0] == 'p' && "pos"@[1] == 'o' && "pos"@[2] == 's',
        "str"@.len() == 3 && "str"@[0] == 's' && "str"@[1] == 't' && "str"@[2] == 'r',
        "len"@.len() == 3 && "len"@[0] == 'l' && "len"@[1] == 'e' && "len"@[2] == 'n',
        "props"@.len() == 5 && "props"@[0] == 'p' && "props"@[1] == 'r' && "props"@[2] == 'o' && "props"@[3] == 'p' && "props"@[4] == 's',
        "deleteNull"@.len() == 10 && "deleteNull"@[0] == 'd' && "deleteNull"@[1] == 'e' && "deleteNull"@[2] == 'l' && "deleteNull"@[3] == 'e' && "deleteNull"@[4] == 't' && "deleteNull"@[5] == 'e' && "deleteNull"@[6] == 'N' && "deleteNull"@[7] == 'u' && "deleteNull"@[8] == 'l' && "deleteNull"@[9] == 'l',
        "ignore_case"@.len() == 11 && "ignore_case"@[0] == 'i' && "ignore_case"@[1] == 'g' && "ignore_case"@[2] == 'n' && "ignore_case"@[3] == 'o' && "ignore_case"@[4] == 'r' && "ignore_case"@[5] == 'e' && "ignore_case"@[6] == '_' && "ignore_case"@[7] == 'c' && "ignore_case"@[8] == 'a' && "ignore_case"@[9] == 's' && "ignore_case"@[10] == 'e',
        "apply"@.len() == 5 && "apply"@[0] == 'a' && "apply"@[1] == 'p' && "apply"@[2] == 'p' && "apply"@[3] == 'l' && "apply"@[4] == 'y',
{
    reveal_strlit("add");
    reveal_strlit("remove");
    reveal_strlit("replace");
    reveal_strlit("copy");
    reveal_strlit("move");
    reveal_strlit("test");
    reveal_strlit("str_ins");
    reveal_strlit("str_del");
    reveal_strlit("flip");
    reveal_strlit("inc");
    reveal_strlit("split");
    reveal_strlit("merge");
    reveal_strlit("extend");
    reveal_strlit("defined");
    reveal_strlit("undefined");
    reveal_strlit("contains");
    reveal_strlit("ends");
    reveal_strlit("starts");
    reveal_strlit("in");
    reveal_strlit("less");
    reveal_strlit("more");
    reveal_strlit("matches");
    reveal_strlit("test_type");
    reveal_strlit("test_string");
    reveal_strlit("test_string_len");
    reveal_strlit("type");
    reveal_strlit("and");
    reveal_strlit("not");
    reveal_strlit("or");
    reveal_strlit("op");
    reveal_strlit("path");
    reveal_strlit("value");
    reveal_strlit("oldValue");
    reveal_strlit("from");
    reveal_strlit("pos");
    reveal_strlit("str");
    reveal_strlit("len");
    reveal_strlit("props");
    reveal_strlit("deleteNull");
    reveal_strlit("ignore_case");
    reveal_strlit("apply");
}

/// The first entries of `e` are, in order, the fields `x`.
pub open spec fn fields_prefix(e: Seq<(String, JsonBinary)>, x: Seq<(Seq<char>, Field)>) -> bool {
    &&& x.len() <= e.len()
    &&& forall|i: int| #![trigger x[i]] 0 <= i < x.len() ==> e[i].0@ == x[i].0 && field_ok(e[i].1, x[i].1)
}

/// An entry among the first ones whose key no earlier entry has is what
/// `get_field` finds.
proof fn lemma_field_at(e: Seq<(String, JsonBinary)>, x: Seq<(Seq<char>, Field)>, i: int)
    requires
        fields_prefix(e, x),
        0 <= i < x.len(),
        forall|m: int| 0 <= m < i ==> x[m].0 != x[i].0,
    ensures
        get_field(e, x[i].0) == Some(e[i].1),
        field_ok(e[i].1, x[i].1),
{
    lemma_key_index(e, x[i].0);
    let k = key_index(e, x[i].0);
    assert(e[i].0@ == x[i].0);
    if k >= 0 && k < i {
        assert(e[k].0@ == x[k].0);
    }
}

/// Each value type's name names it.
proof fn lemma_type_name(t: JsonPatchType)
    ensures
        type_of_name(name_of_type(t)) == Some(t),
{
    reveal_strlit("string");
    reveal_strlit("number");
    reveal_strlit("boolean");
    reveal_strlit("object");
    reveal_strlit("integer");
    reveal_strlit("array");
    reveal_strlit("null");
    assert("string"@.len() == 6 && "string"@[0] == 's' && "string"@[1] == 't' && "string"@[2] == 'r' && "string"@[3] == 'i' && "string"@[4] == 'n' && "string"@[5] == 'g');
    assert("number"@.len() == 6 && "number"@[0] == 'n' && "number"@[1] == 'u' && "number"@[2] == 'm' && "number"@[3] == 'b' && "number"@[4] == 'e' && "number"@[5] == 'r');
    assert("boolean"@.len() == 7 && "boolean"@[0] == 'b' && "boolean"@[1] == 'o' && "boolean"@[2] == 'o' && "boolean"@[3] == 'l' && "boolean"@[4] == 'e' && "boolean"@[5] == 'a' && "boolean"@[6] == 'n');
    assert("object"@.len() == 6 && "object"@[0] == 'o' && "object"@[1] == 'b' && "object"@[2] == 'j' && "object"@[3] == 'e' && "object"@[4] == 'c' && "object"@[5] == 't');
    assert("integer"@.len() == 7 && "integer"@[0] == 'i' && "integer"@[1] == 'n' && "integer"@[2] == 't' && "integer"@[3] == 'e' && "integer"@[4] == 'g' && "integer"@[5] == 'e' && "integer"@[6] == 'r');
    assert("array"@.len() == 5 && "array"@[0] == 'a' && "array"@[1] == 'r' && "array"@[2] == 'r' && "array"@[3] == 'a' && "array"@[4] == 'y');
    assert("null"@.len() == 4 && "null"@[0] == 'n' && "null"@[1] == 'u' && "null"@[2] == 'l' && "null"@[3] == 'l');
    match t {
        JsonPatchType::String => {},
        JsonPatchType::Number => {},
        JsonPatchType::Boolean => {},
        JsonPatchType::Object => {},
        JsonPatchType::Integer => {},
        JsonPatchType::Array => {},
        JsonPatchType::Null => {},
    }
}

/// The head of the JSON form: `get_field` finds the name and the path.
proof fn lemma_head_read(op: Op, e: Seq<(String, JsonBinary)>)
    requires
        fields_prefix(e, head_fields(op)),
    ensures
        text_of(get_field(e, "op"@)) == Some(op_name(op)),
        path_text(e) == Some(pointer_of(path_view(op_path(op)@))),
{
    lemma_spellings();
    let hf = head_fields(op);
    lemma_field_at(e, hf, 0);
    lemma_field_at(e, hf, 1);
}

/// What an operation read from `v` holds of its name and path, when `v`'s
/// head names `op`.
proof fn lemma_decodes_head(op: Op, v: JsonBinary)
    requires
        v matches JsonBinary::Object(e) && text_of(get_field(e@, "op"@)) == Some(op_name(op)) && path_text(e@)
            == Some(pointer_of(path_view(op_path(op)@))),
    ensures
        forall|op2: Op| #[trigger] decodes(v, op2) ==> op_name(op2) == op_name(op) && path_view(op_path(op2)@)
            == path_view(op_path(op)@),
{
    lemma_path_roundtrip(path_view(op_path(op)@));
}

/// The JSON form of an operation reads back, as an operation with the same
/// name and the same path.
#[verifier::rlimit(100)]
#[verifier::spinoff_prover]
pub proof fn lemma_json_reads_back(op: Op, v: JsonBinary)
    requires
        is_op_json(op, v),
    ensures
        decodable(v),
        forall|op2: Op| #[trigger] decodes(v, op2) ==> op_name(op2) == op_name(op) && path_view(op_path(op2)@)
            == path_view(op_path(op)@),
    decreases op,
{
    lemma_spellings();
    let e = v->Object_0@;
    let hf = head_fields(op);
    match op {
        Op::And { ops, .. } | Op::Not { ops, .. } | Op::Or { ops, .. } => {
            assert(fields_prefix(e, hf)) by {
                assert forall|i: int| #![trigger hf[i]] 0 <= i < hf.len() implies e[i].0@ == hf[i].0 && field_ok(e[i].1, hf[i].1) by {
                    assert(e.take(2)[i] == e[i]);
                }
            }
            lemma_head_read(op, e);
            lemma_key_index(e, "apply"@);
            let xs = e[2].1->Array_0;
            assert forall|i: int| #![trigger xs@[i]] 0 <= i < xs@.len() implies decodable(xs@[i]) by {
                assert(decreases_to!(op => ops));
                assert(decreases_to!(ops => ops@));
                assert(decreases_to!(ops@ => ops@[i]));
                lemma_json_reads_back(ops@[i], xs@[i]);
            }
            lemma_decodes_head(op, v);
        },
        _ => {
            let x = hf + tail_fields(op);
            assert(fields_prefix(e, x));
            assert(fields_prefix(e, hf)) by {
                assert forall|i: int| #![trigger hf[i]] 0 <= i < hf.len() implies e[i].0@ == hf[i].0 && field_ok(e[i].1, hf[i].1) by {
                    assert(x[i] == hf[i]);
                }
            }
            lemma_head_read(op, e);
            match op {
                Op::StrIns { .. } | Op::TestString { .. } => {
                    lemma_field_at(e, x, 2);
                    lemma_field_at(e, x, 3);
                },
                Op::Remove { .. } | Op::Flip { .. } | Op::Defined { .. } | Op::Undefined { .. } => {},
                Op::TestType { type_vals, .. } => {
                    lemma_field_at(e, x, 2);
                    let ys = e[2].1->Array_0;
                    assert forall|i: int| #![trigger ys@[i]] 0 <= i < ys@.len() implies names_type(ys@[i]) by {
                        lemma_type_name(type_vals@[i]);
                    }
                },
                Op::Type { value, .. } => {
                    lemma_field_at(e, x, 2);
                    lemma_type_name(value);
                },
                _ => {
                    lemma_field_at(e, x, 2);
                },
            }
            lemma_decodes_head(op, v);
        },
    }
}

} // verus!
