//! The values of a JSON value in visiting order: the value itself, then
//! what each array item and each object value holds, in order.
use vstd::prelude::*;
use crate::json_equal::{JsonBinary, json_copy};

verus! {

/// The values visited from `v`: `v`, then those visited from each of its
/// array items or object values, in order.
pub open spec fn walk_order(v: JsonBinary) -> Seq<JsonBinary>
    decreases v, 1nat,
{
    seq![v] + match v {
        JsonBinary::Array(x) => walk_items(x@),
        JsonBinary::Object(e) => walk_values(e@),
        _ => Seq::empty(),
    }
}

/// The values visited from each of the items, one after the other.
pub open spec fn walk_items(xs: Seq<JsonBinary>) -> Seq<JsonBinary>
    decreases xs, 0nat,
{
    if xs.len() == 0 {
        Seq::empty()
    } else {
        walk_items(xs.drop_last()) + walk_order(xs.last())
    }
}

/// The values visited from each entry's value, one after the other.
pub open spec fn walk_values(es: Seq<(String, JsonBinary)>) -> Seq<JsonBinary>
    decreases es, 0nat,
{
    if es.len() == 0 {
        Seq::empty()
    } else {
        walk_values(es.drop_last()) + walk_order(es.last().1)
    }
}

/// `r` holds copies of `s`, in order.
pub open spec fn copies(s: Seq<JsonBinary>, r: Seq<JsonBinary>) -> bool {
    &&& r.len() == s.len()
    &&& forall|i: int| 0 <= i < s.len() ==> json_copy(#[trigger] s[i], r[i])
}

/// The walk of any value visits the value itself first.
pub proof fn lemma_walk_starts_with_value(v: JsonBinary)
    ensures
        walk_order(v).len() >= 1,
        walk_order(v)[0] == v,
{
}

/// The walk of items starts with the first item itself.
proof fn lemma_items_start(xs: Seq<JsonBinary>)
    requires
        xs.len() > 0,
    ensures
        walk_items(xs).len() >= 1,
        walk_items(xs)[0] == xs[0],
    decreases xs.len(),
{
    let front = walk_items(xs.drop_last());
    let back = walk_order(xs.last());
    assert(walk_items(xs) == front + back);
    lemma_walk_starts_with_value(xs.last());
    if xs.len() == 1 {
        assert(xs.drop_last() =~= Seq::<JsonBinary>::empty());
        assert(front =~= Seq::<JsonBinary>::empty());
        assert((front + back)[0] == back[0]);
    } else {
        lemma_items_start(xs.drop_last());
        assert((front + back)[0] == front[0]);
        assert(xs.drop_last()[0] == xs[0]);
    }
}

/// The walk of entries starts with the first entry's value itself.
proof fn lemma_values_start(es: Seq<(String, JsonBinary)>)
    requires
        es.len() > 0,
    ensures
        walk_values(es).len() >= 1,
        walk_values(es)[0] == es[0].1,
    decreases es.len(),
{
    let front = walk_values(es.drop_last());
    let back = walk_order(es.last().1);
    assert(walk_values(es) == front + back);
    lemma_walk_starts_with_value(es.last().1);
    if es.len() == 1 {
        assert(es.drop_last() =~= Seq::<(String, JsonBinary)>::empty());
        assert(front =~= Seq::<JsonBinary>::empty());
        assert((front + back)[0] == back[0]);
    } else {
        lemma_values_start(es.drop_last());
        assert((front + back)[0] == front[0]);
        assert(es.drop_last()[0] == es[0]);
    }
}

/// A value is visited before what it holds: right after an array or object
/// comes its first item or first entry's value.
pub proof fn lemma_walk_parent_before_child(v: JsonBinary)
    ensures
        v matches JsonBinary::Array(x) ==> (x@.len() > 0 ==> (walk_order(v).len() >= 2
            && walk_order(v)[1] == x@[0])),
        v matches JsonBinary::Object(e) ==> (e@.len() > 0 ==> (walk_order(v).len() >= 2
            && walk_order(v)[1] == e@[0].1)),
{
    match v {
        JsonBinary::Array(x) => {
            if x@.len() > 0 {
                lemma_items_start(x@);
            }
        },
        JsonBinary::Object(e) => {
            if e@.len() > 0 {
                lemma_values_start(e@);
            }
        },
        _ => {},
    }
}

/// Appends copies of `t` after copies of `s`.
proof fn lemma_copies_concat(s: Seq<JsonBinary>, r: Seq<JsonBinary>, t: Seq<JsonBinary>, q: Seq<JsonBinary>)
    requires
        copies(s, r),
        copies(t, q),
    ensures
        copies(s + t, r + q),
{
    assert forall|i: int| 0 <= i < (s + t).len() implies json_copy(#[trigger] (s + t)[i], (r + q)[i]) by {
        if i < s.len() {
            assert((s + t)[i] == s[i] && (r + q)[i] == r[i]);
        } else {
            assert((s + t)[i] == t[i - s.len()] && (r + q)[i] == q[i - s.len()]);
        }
    }
}

/// Copies of the values visited from `value`, in visiting order: the value
/// itself first, then every nested array item and object value.
pub fn walk(value: &JsonBinary) -> (r: Vec<JsonBinary>)
    ensures
        copies(walk_order(*value), r@),
        r@.len() > 0 && json_copy(*value, r@[0]),
    decreases *value,
{
    let mut out: Vec<JsonBinary> = Vec::new();
    out.push(value.clone());
    proof {
        assert(copies(seq![*value], out@));
    }
    match value {
        JsonBinary::Array(x) => {
            let mut i: usize = 0;
            while i < x.len()
                invariant
                    *value == JsonBinary::Array(*x),
                    i <= x@.len(),
                    copies(seq![*value] + walk_items(x@.take(i as int)), out@),
                decreases x@.len() - i,
            {
                proof {
                    assert(decreases_to!(*value => value->Array_0));
                    assert(decreases_to!(*x => x@));
                    assert(decreases_to!(x@ => x@[i as int]));
                }
                let mut sub = walk(&x[i]);
                let ghost before = out@;
                let ghost got = sub@;
                out.append(&mut sub);
                proof {
                    let t = x@.take(i + 1);
                    assert(t.drop_last() =~= x@.take(i as int));
                    lemma_copies_concat(seq![*value] + walk_items(x@.take(i as int)), before, walk_order(x@[i as int]), got);
                    assert(seq![*value] + walk_items(x@.take(i + 1)) =~= seq![*value] + walk_items(x@.take(i as int)) + walk_order(x@[i as int]));
                }
                i = i + 1;
            }
            proof {
                assert(x@.take(x@.len() as int) =~= x@);
            }
        },
        JsonBinary::Object(e) => {
            let mut i: usize = 0;
            while i < e.len()
                invariant
                    *value == JsonBinary::Object(*e),
                    i <= e@.len(),
                    copies(seq![*value] + walk_values(e@.take(i as int)), out@),
                decreases e@.len() - i,
            {
                proof {
                    assert(decreases_to!(*value => value->Object_0));
                    assert(decreases_to!(*e => e@));
                    assert(decreases_to!(e@ => e@[i as int]));
                    assert(decreases_to!(e@[i as int] => e@[i as int].1));
                }
                let mut sub = walk(&e[i].1);
                let ghost before = out@;
                let ghost got = sub@;
                out.append(&mut sub);
                proof {
                    let t = e@.take(i + 1);
                    assert(t.drop_last() =~= e@.take(i as int));
                    lemma_copies_concat(seq![*value] + walk_values(e@.take(i as int)), before, walk_order(e@[i as int].1), got);
                    assert(seq![*value] + walk_values(e@.take(i + 1)) =~= seq![*value] + walk_values(e@.take(i as int)) + walk_order(e@[i as int].1));
                }
                i = i + 1;
            }
            proof {
                assert(e@.take(e@.len() as int) =~= e@);
            }
        },
        _ => {
            proof {
                assert(walk_order(*value) =~= seq![*value]);
            }
        },
    }
    proof {
        lemma_walk_starts_with_value(*value);
    }
    out
}

} // verus!
