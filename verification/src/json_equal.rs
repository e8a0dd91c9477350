//! Deep equality of JSON values that may hold binary data.
use vstd::prelude::*;
use crate::text::str_eq;
use vstd::set_lib::{set_int_range, lemma_int_range, lemma_map_size, lemma_subset_equality};

verus! {

/// A JSON number as `serde_json` holds it.
#[verifier::external_type_specification]
#[verifier::external_body]
pub struct ExNumber(serde_json::Number);

/// Whether two numbers are equal by `serde_json::Number`'s `==`.
pub uninterp spec fn numbers_equal(a: serde_json::Number, b: serde_json::Number) -> bool;

/// Calls `==` on two `serde_json::Number`s.  Its result is named
/// `numbers_equal(a, b)`.  The source derives `PartialEq` for `Number` over
/// an inner enum whose variants (a `u64`, a negative `i64`, a finite `f64`)
/// compare arm by arm with `==`; so the comparison is symmetric, and a
/// number is equal to itself (no variant holds a NaN).
#[verifier::external_body]
fn number_eq(a: &serde_json::Number, b: &serde_json::Number) -> (r: bool)
    ensures
        r == numbers_equal(*a, *b),
        r == numbers_equal(*b, *a),
        *a == *b ==> r,
{
    a == b
}

/// `Clone` of `serde_json::Number`: the same number.
#[verifier::external_body]
pub(crate) fn number_clone(n: &serde_json::Number) -> (r: serde_json::Number)
    ensures
        r == *n,
{
    n.clone()
}

/// A JSON value that may also hold raw bytes.  An object is a list of
/// key/value entries in which no key occurs twice (see `well_formed`).
#[derive(Debug, PartialEq)]
pub enum JsonBinary {
    Null,
    Bool(bool),
    Number(serde_json::Number),
    String(String),
    Binary(Vec<u8>),
    Array(Vec<JsonBinary>),
    Object(Vec<(String, JsonBinary)>),
}

/// The index of the first entry of `entries` with key `k`, or -1 if none
/// has it.
pub open spec fn key_index(entries: Seq<(String, JsonBinary)>, k: Seq<char>) -> int
    decreases entries.len(),
{
    if entries.len() == 0 {
        -1
    } else {
        let r = key_index(entries.drop_last(), k);
        if r >= 0 {
            r
        } else if entries.last().0@ == k {
            entries.len() - 1
        } else {
            -1
        }
    }
}

/// `key_index` is the first index with the key, and -1 exactly when no entry
/// has it.
pub proof fn lemma_key_index(entries: Seq<(String, JsonBinary)>, k: Seq<char>)
    ensures
        -1 <= key_index(entries, k) < entries.len(),
        key_index(entries, k) >= 0 ==> entries[key_index(entries, k)].0@ == k,
        forall|m: int| 0 <= m < entries.len() && m < key_index(entries, k) ==> entries[m].0@ != k,
        key_index(entries, k) == -1 ==> forall|m: int| 0 <= m < entries.len() ==> entries[m].0@ != k,
    decreases entries.len(),
{
    if entries.len() > 0 {
        let d = entries.drop_last();
        lemma_key_index(d, k);
        assert forall|m: int| 0 <= m < d.len() implies d[m] == entries[m] by {}
    }
}

/// Deep equality: same kind and equal contents; arrays element by element;
/// objects of the same size where each key of `a` is found in `b` (its first
/// entry there) with a deeply equal value.
pub open spec fn json_eq(a: JsonBinary, b: JsonBinary) -> bool
    decreases a,
{
    match (a, b) {
        (JsonBinary::Null, JsonBinary::Null) => true,
        (JsonBinary::Bool(x), JsonBinary::Bool(y)) => x == y,
        (JsonBinary::Number(x), JsonBinary::Number(y)) => numbers_equal(x, y),
        (JsonBinary::String(x), JsonBinary::String(y)) => x@ == y@,
        (JsonBinary::Binary(x), JsonBinary::Binary(y)) => x@ == y@,
        (JsonBinary::Array(x), JsonBinary::Array(y)) => {
            &&& x@.len() == y@.len()
            &&& forall|i: int| #![trigger x@[i]] 0 <= i < x@.len() ==> json_eq(x@[i], y@[i])
        },
        (JsonBinary::Object(x), JsonBinary::Object(y)) => {
            &&& x@.len() == y@.len()
            &&& forall|i: int|
                #![trigger x@[i]]
                0 <= i < x@.len() ==> key_index(y@, x@[i].0@) >= 0 && json_eq(
                    x@[i].1,
                    y@[key_index(y@, x@[i].0@)].1,
                )
        },
        _ => false,
    }
}

/// No object key occurs twice, at any depth.
pub open spec fn well_formed(v: JsonBinary) -> bool
    decreases v,
{
    match v {
        JsonBinary::Array(x) => forall|i: int| #![trigger x@[i]] 0 <= i < x@.len() ==> well_formed(x@[i]),
        JsonBinary::Object(x) => {
            &&& forall|i: int, j: int|
                0 <= i < j < x@.len() ==> #[trigger] x@[i].0@ != #[trigger] x@[j].0@
            &&& forall|i: int| #![trigger x@[i]] 0 <= i < x@.len() ==> well_formed(x@[i].1)
        },
        _ => true,
    }
}

/// `b` is a structural copy of `a`: the same variant, with the same flag,
/// number, text, bytes or keys, and copies inside.
pub open spec fn json_copy(a: JsonBinary, b: JsonBinary) -> bool
    decreases a,
{
    match (a, b) {
        (JsonBinary::Null, JsonBinary::Null) => true,
        (JsonBinary::Bool(x), JsonBinary::Bool(y)) => x == y,
        (JsonBinary::Number(x), JsonBinary::Number(y)) => x == y,
        (JsonBinary::String(x), JsonBinary::String(y)) => x@ == y@,
        (JsonBinary::Binary(x), JsonBinary::Binary(y)) => x@ == y@,
        (JsonBinary::Array(x), JsonBinary::Array(y)) => {
            &&& x@.len() == y@.len()
            &&& forall|i: int| #![trigger x@[i]] 0 <= i < x@.len() ==> json_copy(x@[i], y@[i])
        },
        (JsonBinary::Object(x), JsonBinary::Object(y)) => {
            &&& x@.len() == y@.len()
            &&& forall|i: int|
                #![trigger x@[i]]
                0 <= i < x@.len() ==> x@[i].0@ == y@[i].0@ && json_copy(x@[i].1, y@[i].1)
        },
        _ => false,
    }
}

impl Clone for JsonBinary {
    fn clone(&self) -> (r: Self)
        ensures
            json_copy(*self, r),
        decreases self,
    {
        match self {
            JsonBinary::Null => JsonBinary::Null,
            JsonBinary::Bool(b) => JsonBinary::Bool(*b),
            JsonBinary::Number(n) => JsonBinary::Number(number_clone(n)),
            JsonBinary::String(s) => JsonBinary::String(s.clone()),
            JsonBinary::Binary(b) => {
                let c = b.clone();
                assert(c@ =~= b@);
                JsonBinary::Binary(c)
            },
            JsonBinary::Array(v) => {
                let mut out: Vec<JsonBinary> = Vec::new();
                let mut i: usize = 0;
                while i < v.len()
                    invariant
                        *self == JsonBinary::Array(*v),
                        i <= v@.len(),
                        out@.len() == i,
                        forall|k: int| #![trigger v@[k]] 0 <= k < i ==> json_copy(v@[k], out@[k]),
                    decreases v@.len() - i,
                {
                    proof {
                        assert(decreases_to!(*self => self->Array_0));
                        assert(decreases_to!(*v => v@));
                        assert(decreases_to!(v@ => v@[i as int]));
                    }
                    let c = v[i].clone();
                    out.push(c);
                    i = i + 1;
                }
                JsonBinary::Array(out)
            },
            JsonBinary::Object(v) => {
                let mut out: Vec<(String, JsonBinary)> = Vec::new();
                let mut i: usize = 0;
                while i < v.len()
                    invariant
                        *self == JsonBinary::Object(*v),
                        i <= v@.len(),
                        out@.len() == i,
                        forall|k: int|
                            #![trigger v@[k]]
                            0 <= k < i ==> v@[k].0@ == out@[k].0@ && json_copy(v@[k].1, out@[k].1),
                    decreases v@.len() - i,
                {
                    proof {
                        assert(decreases_to!(*self => self->Object_0));
                        assert(decreases_to!(*v => v@));
                        assert(decreases_to!(v@ => v@[i as int]));
                        assert(decreases_to!(v@[i as int] => v@[i as int].1));
                    }
                    let k = v[i].0.clone();
                    let c = v[i].1.clone();
                    out.push((k, c));
                    i = i + 1;
                }
                JsonBinary::Object(out)
            },
        }
    }
}

/// Whether two byte vectors hold the same bytes.
pub(crate) fn bytes_eq(a: &Vec<u8>, b: &Vec<u8>) -> (r: bool)
    ensures
        r == (a@ == b@),
{
    if a.len() != b.len() {
        return false;
    }
    let mut i: usize = 0;
    while i < a.len()
        invariant
            a@.len() == b@.len(),
            i <= a@.len(),
            forall|k: int| 0 <= k < i ==> a@[k] == b@[k],
        decreases a@.len() - i,
    {
        if a[i] != b[i] {
            return false;
        }
        i = i + 1;
    }
    assert(a@ =~= b@);
    true
}

/// The index of the first entry with key `k`, if any: `key_index`.
fn find_key(entries: &Vec<(String, JsonBinary)>, k: &String) -> (r: Option<usize>)
    ensures
        match r {
            Some(j) => j == key_index(entries@, k@),
            None => key_index(entries@, k@) == -1,
        },
{
    proof {
        lemma_key_index(entries@, k@);
    }
    let mut i: usize = 0;
    while i < entries.len()
        invariant
            i <= entries@.len(),
            forall|m: int| 0 <= m < i ==> entries@[m].0@ != k@,
            -1 <= key_index(entries@, k@) < entries@.len(),
            key_index(entries@, k@) >= 0 ==> entries@[key_index(entries@, k@)].0@ == k@,
            forall|m: int|
                0 <= m < entries@.len() && m < key_index(entries@, k@) ==> entries@[m].0@ != k@,
            key_index(entries@, k@) == -1 ==> forall|m: int|
                0 <= m < entries@.len() ==> entries@[m].0@ != k@,
        decreases entries@.len() - i,
    {
        if str_eq(entries[i].0.as_str(), k.as_str()) {
            proof {
                let ki = key_index(entries@, k@);
                assert(entries@[i as int].0@ == k@);
                if ki < i {
                    assert(ki >= 0);
                }
                if ki > i {
                    assert(entries@[i as int].0@ != k@);
                }
            }
            return Some(i);
        }
        i = i + 1;
    }
    None
}

/// The items of a well-formed array are well-formed.
proof fn lemma_wf_item(v: JsonBinary, i: int)
    requires
        well_formed(v),
        v matches JsonBinary::Array(x) && 0 <= i < x@.len(),
    ensures
        v matches JsonBinary::Array(x) && well_formed(x@[i]),
{
}

/// The values of a well-formed object are well-formed.
proof fn lemma_wf_entry(v: JsonBinary, i: int)
    requires
        well_formed(v),
        v matches JsonBinary::Object(x) && 0 <= i < x@.len(),
    ensures
        v matches JsonBinary::Object(x) && well_formed(x@[i].1),
{
}

/// Some index of `0..n` is mapped to `j`.
spec fn reached(f: spec_fn(int) -> int, n: int, j: int) -> bool {
    exists|i: int| 0 <= i < n && #[trigger] f(i) == j
}

/// A one-to-one map of `0..n` into itself reaches every index.
proof fn lemma_injection_onto(f: spec_fn(int) -> int, n: int)
    requires
        n >= 0,
        forall|i: int| 0 <= i < n ==> 0 <= #[trigger] f(i) < n,
        forall|i: int, k: int| 0 <= i < n && 0 <= k < n && #[trigger] f(i) == #[trigger] f(k) ==> i == k,
    ensures
        forall|j: int| 0 <= j < n ==> #[trigger] reached(f, n, j),
{
    let dom = set_int_range(0, n);
    lemma_int_range(0, n);
    let img = dom.map(f);
    assert(vstd::relations::injective_on(f, dom));
    lemma_map_size(dom, img, f);
    assert(img.subset_of(dom)) by {
        assert forall|y: int| img.contains(y) implies dom.contains(y) by {
            let x = choose|x: int| dom.contains(x) && f(x) == y;
        }
    }
    lemma_subset_equality(img, dom);
    assert forall|j: int| 0 <= j < n implies #[trigger] reached(f, n, j) by {
        assert(dom.contains(j));
        assert(img.contains(j));
    }
}

/// In an object without repeated keys, the entry at `i` is the first with
/// its key.
proof fn lemma_first_key(e: Seq<(String, JsonBinary)>, i: int)
    requires
        0 <= i < e.len(),
        forall|p: int, q: int| 0 <= p < q < e.len() ==> #[trigger] e[p].0@ != #[trigger] e[q].0@,
    ensures
        key_index(e, e[i].0@) == i,
{
    lemma_key_index(e, e[i].0@);
}

/// Deep equality of two values: `json_eq`.  A well-formed value is equal
/// to itself, and between well-formed values the comparison is symmetric.
pub fn deep_equal_binary(a: &JsonBinary, b: &JsonBinary) -> (r: bool)
    ensures
        r == json_eq(*a, *b),
        *a == *b && well_formed(*a) ==> r,
        well_formed(*a) && well_formed(*b) ==> r == json_eq(*b, *a),
    decreases *a,
{
    match (a, b) {
        (JsonBinary::Null, JsonBinary::Null) => true,
        (JsonBinary::Bool(x), JsonBinary::Bool(y)) => *x == *y,
        (JsonBinary::Number(x), JsonBinary::Number(y)) => number_eq(x, y),
        (JsonBinary::String(x), JsonBinary::String(y)) => str_eq(x.as_str(), y.as_str()),
        (JsonBinary::Binary(x), JsonBinary::Binary(y)) => bytes_eq(x, y),
        (JsonBinary::Array(x), JsonBinary::Array(y)) => {
            if x.len() != y.len() {
                return false;
            }
            let mut i: usize = 0;
            while i < x.len()
                invariant
                    *a == JsonBinary::Array(*x),
                    *b == JsonBinary::Array(*y),
                    x@.len() == y@.len(),
                    i <= x@.len(),
                    forall|k: int| #![trigger x@[k]] 0 <= k < i ==> json_eq(x@[k], y@[k]),
                    well_formed(*a) && well_formed(*b) ==> forall|k: int| #![trigger y@[k]] 0 <= k < i ==> json_eq(y@[k], x@[k]),
                decreases x@.len() - i,
            {
                proof {
                    assert(decreases_to!(*a => a->Array_0));
                    assert(decreases_to!(*x => x@));
                    assert(decreases_to!(x@ => x@[i as int]));
                    assert(decreases_to!(*a => x@[i as int]));
                }
                let e = deep_equal_binary(&x[i], &y[i]);
                proof {
                    if well_formed(*a) && well_formed(*b) {
                        assert(well_formed(x@[i as int]));
                        lemma_wf_item(*b, i as int);
                        assert(well_formed(y@[i as int]));
                    }
                }
                if !e {
                    proof {
                        assert(!json_eq(x@[i as int], y@[i as int]));
                        assert(!json_eq(*a, *b));
                        if well_formed(*a) && well_formed(*b) {
                            assert(!json_eq(y@[i as int], x@[i as int]));
                        }
                        if *a == *b && well_formed(*a) {
                            assert(well_formed(x@[i as int]));
                        }
                    }
                    return false;
                }
                i = i + 1;
            }
            proof {
                assert(json_eq(*a, *b));
                if well_formed(*a) && well_formed(*b) {
                    assert forall|k: int| #![trigger y@[k]] 0 <= k < y@.len() implies json_eq(y@[k], x@[k]) by {}
                }
            }
            true
        },
        (JsonBinary::Object(x), JsonBinary::Object(y)) => {
            if x.len() != y.len() {
                return false;
            }
            let mut i: usize = 0;
            while i < x.len()
                invariant
                    *a == JsonBinary::Object(*x),
                    *b == JsonBinary::Object(*y),
                    x@.len() == y@.len(),
                    i <= x@.len(),
                    forall|k: int|
                        #![trigger x@[k]]
                        0 <= k < i ==> key_index(y@, x@[k].0@) >= 0 && json_eq(
                            x@[k].1,
                            y@[key_index(y@, x@[k].0@)].1,
                        ),
                    well_formed(*a) && well_formed(*b) ==> forall|k: int|
                        #![trigger x@[k]]
                        0 <= k < i ==> json_eq(y@[key_index(y@, x@[k].0@)].1, x@[k].1),
                decreases x@.len() - i,
            {
                proof {
                    assert(decreases_to!(*a => a->Object_0));
                    assert(decreases_to!(*x => x@));
                    assert(decreases_to!(x@ => x@[i as int]));
                    assert(decreases_to!(x@[i as int] => x@[i as int].1));
                    assert(decreases_to!(*a => x@[i as int].1));
                    lemma_key_index(y@, x@[i as int].0@);
                }
                match find_key(y, &x[i].0) {
                    Some(j) => {
                        let e = deep_equal_binary(&x[i].1, &y[j].1);
                        proof {
                            if well_formed(*a) && well_formed(*b) {
                                assert(well_formed(x@[i as int].1));
                                assert(0 <= j < y@.len());
                                lemma_wf_entry(*b, j as int);
                                assert(well_formed(y@[j as int].1));
                            }
                        }
                        if !e {
                            proof {
                                assert(!json_eq(*a, *b));
                                if well_formed(*a) && well_formed(*b) {
                                    assert(!json_eq(y@[j as int].1, x@[i as int].1));
                                    assert(y@[j as int].0@ == x@[i as int].0@);
                                    lemma_first_key(x@, i as int);
                                    assert(!json_eq(*b, *a));
                                }
                                if *a == *b && well_formed(*a) {
                                    assert(x@ == y@);
                                    assert(well_formed(JsonBinary::Object(*x)));
                                    if (j as int) < i {
                                        assert(x@[j as int].0@ != x@[i as int].0@);
                                    } else if (j as int) > i {
                                        assert(y@[i as int].0@ != x@[i as int].0@);
                                    }
                                    assert(j == i);
                                    assert(well_formed(x@[i as int].1));
                                }
                            }
                            return false;
                        }
                    },
                    None => {
                        proof {
                            assert(!json_eq(*a, *b));
                            if *a == *b && well_formed(*a) {
                                assert(y@[i as int].0@ == x@[i as int].0@);
                            }
                            if well_formed(*a) && well_formed(*b) && json_eq(*b, *a) {
                                let n = y@.len() as int;
                                let g = |j: int| key_index(x@, y@[j].0@);
                                assert forall|j: int| 0 <= j < n implies 0 <= #[trigger] g(j) < n by {
                                    assert(key_index(x@, y@[j].0@) >= 0);
                                    lemma_key_index(x@, y@[j].0@);
                                }
                                assert forall|p: int, q: int| 0 <= p < n && 0 <= q < n && #[trigger] g(p) == #[trigger] g(q) implies p == q by {
                                    lemma_key_index(x@, y@[p].0@);
                                    lemma_key_index(x@, y@[q].0@);
                                }
                                lemma_injection_onto(g, n);
                                assert(reached(g, n, i as int));
                                let j = choose|j: int| 0 <= j < n && #[trigger] g(j) == i;
                                lemma_key_index(x@, y@[j].0@);
                                assert(y@[j].0@ == x@[i as int].0@);
                                assert(false);
                            }
                        }
                        return false;
                    },
                }
                i = i + 1;
            }
            proof {
                assert(json_eq(*a, *b));
                if well_formed(*a) && well_formed(*b) {
                    let n = x@.len() as int;
                    let f = |k: int| key_index(y@, x@[k].0@);
                    assert forall|k: int| 0 <= k < n implies 0 <= #[trigger] f(k) < n by {
                        assert(key_index(y@, x@[k].0@) >= 0);
                        lemma_key_index(y@, x@[k].0@);
                    }
                    assert forall|p: int, q: int| 0 <= p < n && 0 <= q < n && #[trigger] f(p) == #[trigger] f(q) implies p == q by {
                        lemma_key_index(y@, x@[p].0@);
                        lemma_key_index(y@, x@[q].0@);
                    }
                    lemma_injection_onto(f, n);
                    assert forall|j: int| #![trigger y@[j]] 0 <= j < n implies key_index(x@, y@[j].0@) >= 0 && json_eq(
                        y@[j].1,
                        x@[key_index(x@, y@[j].0@)].1,
                    ) by {
                        assert(reached(f, n, j));
                        let k = choose|k: int| 0 <= k < n && #[trigger] f(k) == j;
                        lemma_key_index(y@, x@[k].0@);
                        assert(y@[j].0@ == x@[k].0@);
                        lemma_first_key(x@, k);
                        assert(json_eq(y@[key_index(y@, x@[k].0@)].1, x@[k].1));
                    }
                    assert(json_eq(*b, *a));
                }
            }
            true
        },
        _ => false,
    }
}

} // verus!
