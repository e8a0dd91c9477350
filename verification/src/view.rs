//! The JSON view of a document's nodes: a constant as its value, text as a
//! string, bytes as an array of numbers, and registers, objects, tuples and
//! arrays with each reference replaced by the view of the node it names.
use vstd::prelude::*;
use crate::clock::{Ts, spec_origin};
use crate::crdt::{ConNode, CrdtNode, NodeIndex, key_of};
use crate::equal::{acyclic_from, arr_live_ids, followed, get_node, lemma_followed_ref, lemma_rank_node};
use crate::equal::{rank_bound, ranked, ranking_from, ranks_refs};
use crate::json_equal::{JsonBinary, json_copy};
use crate::nodes::{ArrNode, BinNode, ObjNode, RootNode, StrNode, ValNode, VecNode, live_items};
use crate::nodes::{obj_map_entry, obj_map_len};
use crate::operations::ConValue;

verus! {

/// The number that `serde_json` makes of a byte.
pub uninterp spec fn byte_number(b: u8) -> serde_json::Number;

/// `serde_json::Number::from` a byte.  Its result is named
/// `byte_number(b)`.
#[verifier::external_body]
fn number_from_byte(b: u8) -> (r: serde_json::Number)
    ensures
        r == byte_number(b),
{
    serde_json::Number::from(b)
}

/// Whether an object entry pointing at `t` is shown: `t` names a node of the
/// index, and that node is not a constant holding the undefined value.
pub open spec fn shown_in(idx: Map<(u64, u64), CrdtNode>, t: Ts) -> bool {
    &&& idx.contains_key(key_of(t))
    &&& !(idx[key_of(t)] matches CrdtNode::Con(c) && c.val is Undefined)
}

/// Whether `n` is a constant holding the undefined value.
fn is_undefined_con(n: &CrdtNode) -> (r: bool)
    ensures
        r == (*n matches CrdtNode::Con(c) && c.val is Undefined),
{
    match n {
        CrdtNode::Con(c) => match c.val {
            ConValue::Undefined => true,
            _ => false,
        },
        _ => false,
    }
}

/// The entries of an object that are shown (see `shown_in`), in order.
pub open spec fn present_entries(e: Seq<(Seq<char>, Ts)>, idx: Map<(u64, u64), CrdtNode>) -> Seq<
    (Seq<char>, Ts),
>
    decreases e.len(),
{
    if e.len() == 0 {
        Seq::empty()
    } else {
        present_entries(e.drop_last(), idx) + if shown_in(idx, e.last().1) {
            seq![e.last()]
        } else {
            Seq::empty()
        }
    }
}

/// `r` shows a constant: a copy of a JSON value, null otherwise.
pub open spec fn shows_con(r: JsonBinary, v: ConValue) -> bool {
    match v {
        ConValue::Ref(_) => r == JsonBinary::Null,
        ConValue::Val(p) => json_copy(p, r),
        ConValue::Undefined => r == JsonBinary::Null,
    }
}

/// `r` shows the bytes `b`: an array of their numbers.
pub open spec fn shows_bytes(r: JsonBinary, b: Seq<u8>) -> bool {
    &&& r is Array
    &&& r->Array_0@.len() == b.len()
    &&& forall|i: int|
        #![trigger r->Array_0@[i]]
        0 <= i < b.len() ==> r->Array_0@[i] == JsonBinary::Number(byte_number(b[i]))
}

/// `r` shows node `n`, following references at most `fuel` levels down.
pub open spec fn shows_node(r: JsonBinary, n: CrdtNode, idx: Map<(u64, u64), CrdtNode>, fuel: nat) -> bool
    decreases fuel, 1nat,
{
    match n {
        CrdtNode::Con(c) => shows_con(r, c.val),
        CrdtNode::Val(v) => shows_ref(r, v.val, idx, fuel),
        CrdtNode::Str(s) => r is String && r->String_0@ == live_items(s.rga@),
        CrdtNode::Bin(b) => shows_bytes(r, live_items(b.rga@)),
        CrdtNode::Obj(o) => {
            &&& r is Object
            &&& r->Object_0@.len() == present_entries(o.entries(), idx).len()
            &&& forall|i: int|
                #![trigger r->Object_0@[i]]
                0 <= i < r->Object_0@.len() ==> r->Object_0@[i].0@ == present_entries(
                    o.entries(),
                    idx,
                )[i].0 && shows_ref(
                    r->Object_0@[i].1,
                    present_entries(o.entries(), idx)[i].1,
                    idx,
                    fuel,
                )
        },
        CrdtNode::Vec(t) => {
            &&& r is Array
            &&& r->Array_0@.len() == t.elements@.len()
            &&& forall|i: int|
                #![trigger r->Array_0@[i]]
                0 <= i < r->Array_0@.len() ==> match t.elements@[i] {
                    Some(id) => shows_ref(r->Array_0@[i], id, idx, fuel),
                    None => r->Array_0@[i] == JsonBinary::Null,
                }
        },
        CrdtNode::Arr(a) => {
            &&& r is Array
            &&& r->Array_0@.len() == live_items(a.rga@).len()
            &&& forall|i: int|
                #![trigger r->Array_0@[i]]
                0 <= i < r->Array_0@.len() ==> shows_ref(
                    r->Array_0@[i],
                    live_items(a.rga@)[i],
                    idx,
                    fuel,
                )
        },
    }
}

/// `r` shows the node that `t` names, following references at most `fuel`
/// levels down; null when the index has no such node.
pub open spec fn shows_ref(r: JsonBinary, t: Ts, idx: Map<(u64, u64), CrdtNode>, fuel: nat) -> bool
    decreases fuel, 0nat,
{
    if idx.contains_key(key_of(t)) {
        if fuel == 0 {
            false
        } else {
            shows_node(r, idx[key_of(t)], idx, (fuel - 1) as nat)
        }
    } else {
        r == JsonBinary::Null
    }
}

/// `r` is the view of `n`: it shows `n` deep enough to follow every chain of
/// references from `n`.
pub open spec fn is_view(r: JsonBinary, n: CrdtNode, idx: Map<(u64, u64), CrdtNode>) -> bool {
    shows_node(r, n, idx, rank_bound(followed(n), idx, ranking_from(n, idx)))
}

/// The root seen as a register holding its value.
pub open spec fn root_register(root: RootNode) -> CrdtNode {
    CrdtNode::Val(ValNode { id: spec_origin(), val: root.val })
}

/// Once the depth bounds the ranks of `n`'s references, showing `n` deeper
/// shows it the same way.
pub proof fn lemma_view_depth(
    r: JsonBinary,
    n: CrdtNode,
    idx: Map<(u64, u64), CrdtNode>,
    rank: Map<(u64, u64), nat>,
    f: nat,
    g: nat,
)
    requires
        ranked(idx, rank),
        ranks_refs(n, idx, rank),
        rank_bound(followed(n), idx, rank) <= f,
        rank_bound(followed(n), idx, rank) <= g,
    ensures
        shows_node(r, n, idx, f) == shows_node(r, n, idx, g),
    decreases f, 1nat,
{
    match n {
        CrdtNode::Val(v) => {
            lemma_followed_ref(n, idx, rank, f, 0);
            lemma_followed_ref(n, idx, rank, g, 0);
            lemma_view_ref_depth(r, v.val, idx, rank, f, g);
        },
        CrdtNode::Obj(o) => {
            if r is Object {
                let x = r->Object_0@;
                let p = present_entries(o.entries(), idx);
                assert forall|i: int| 0 <= i < x.len() && i < p.len() implies shows_ref(
                    #[trigger] x[i].1,
                    p[i].1,
                    idx,
                    f,
                ) == shows_ref(x[i].1, p[i].1, idx, g) by {
                    let j = lemma_present_entry(o.entries(), idx, i);
                    assert(followed(n)[j] == Some(o.entries()[j].1));
                    lemma_followed_ref(n, idx, rank, f, j);
                    lemma_followed_ref(n, idx, rank, g, j);
                    lemma_view_ref_depth(x[i].1, p[i].1, idx, rank, f, g);
                }
            }
        },
        CrdtNode::Vec(t) => {
            if r is Array {
                let x = r->Array_0@;
                assert forall|i: int|
                    0 <= i < x.len() && i < t.elements@.len() && #[trigger] t.elements@[i] is Some implies shows_ref(
                    x[i],
                    t.elements@[i]->0,
                    idx,
                    f,
                ) == shows_ref(x[i], t.elements@[i]->0, idx, g) by {
                    assert(followed(n)[i] == t.elements@[i]);
                    lemma_followed_ref(n, idx, rank, f, i);
                    lemma_followed_ref(n, idx, rank, g, i);
                    lemma_view_ref_depth(x[i], t.elements@[i]->0, idx, rank, f, g);
                }
                if x.len() == t.elements@.len() {
                    assert forall|i: int| 0 <= i < x.len() implies (match #[trigger] t.elements@[i] {
                        Some(id) => shows_ref(x[i], id, idx, f),
                        None => x[i] == JsonBinary::Null,
                    }) == (match t.elements@[i] {
                        Some(id) => shows_ref(x[i], id, idx, g),
                        None => x[i] == JsonBinary::Null,
                    }) by {}
                }
            }
        },
        CrdtNode::Arr(a) => {
            if r is Array {
                let x = r->Array_0@;
                let l = live_items(a.rga@);
                assert forall|i: int| 0 <= i < x.len() && i < l.len() implies shows_ref(
                    #[trigger] x[i],
                    l[i],
                    idx,
                    f,
                ) == shows_ref(x[i], l[i], idx, g) by {
                    assert(followed(n)[i] == Some(l[i]));
                    lemma_followed_ref(n, idx, rank, f, i);
                    lemma_followed_ref(n, idx, rank, g, i);
                    lemma_view_ref_depth(x[i], l[i], idx, rank, f, g);
                }
            }
        },
        _ => {},
    }
}

proof fn lemma_view_ref_depth(
    r: JsonBinary,
    t: Ts,
    idx: Map<(u64, u64), CrdtNode>,
    rank: Map<(u64, u64), nat>,
    f: nat,
    g: nat,
)
    requires
        ranked(idx, rank),
        idx.contains_key(key_of(t)) ==> rank.contains_key(key_of(t)) && rank[key_of(t)] < f
            && rank[key_of(t)] < g,
    ensures
        shows_ref(r, t, idx, f) == shows_ref(r, t, idx, g),
    decreases f, 0nat,
{
    if idx.contains_key(key_of(t)) {
        lemma_rank_node(idx, rank, key_of(t));
        lemma_view_depth(r, idx[key_of(t)], idx, rank, (f - 1) as nat, (g - 1) as nat);
    }
}

/// Each present entry is an entry of the object.
proof fn lemma_present_entry(e: Seq<(Seq<char>, Ts)>, idx: Map<(u64, u64), CrdtNode>, i: int) -> (j: int)
    requires
        0 <= i < present_entries(e, idx).len(),
    ensures
        0 <= j < e.len(),
        present_entries(e, idx)[i] == e[j],
    decreases e.len(),
{
    let d = e.drop_last();
    let p = present_entries(d, idx);
    if i < p.len() {
        let j = lemma_present_entry(d, idx, i);
        assert(d[j] == e[j]);
        j
    } else {
        (e.len() - 1) as int
    }
}

/// Two rankings that show `acyclic_from` give the same view: the view does
/// not depend on the ranking chosen.
pub proof fn lemma_view_any_ranking(
    r: JsonBinary,
    n: CrdtNode,
    idx: Map<(u64, u64), CrdtNode>,
    rank: Map<(u64, u64), nat>,
)
    requires
        ranked(idx, rank),
        ranks_refs(n, idx, rank),
    ensures
        is_view(r, n, idx) == shows_node(r, n, idx, rank_bound(followed(n), idx, rank)),
{
    let r0 = ranking_from(n, idx);
    let f0 = rank_bound(followed(n), idx, r0);
    let f1 = rank_bound(followed(n), idx, rank);
    let top = if f0 >= f1 { f0 } else { f1 };
    lemma_view_depth(r, n, idx, r0, f0, top);
    lemma_view_depth(r, n, idx, rank, f1, top);
}

/// The view of the node that `id` names, following references at most
/// `fuel` levels down.
fn view_ref(
    id: Ts,
    index: &NodeIndex,
    Ghost(rank): Ghost<Map<(u64, u64), nat>>,
    Ghost(fuel): Ghost<nat>,
) -> (r: JsonBinary)
    requires
        ranked(index@, rank),
        index@.contains_key(key_of(id)) ==> rank.contains_key(key_of(id)) && rank[key_of(id)]
            < fuel,
    ensures
        shows_ref(r, id, index@, fuel),
    decreases fuel, 0nat,
{
    match get_node(index, id) {
        Some(node) => {
            proof {
                lemma_rank_node(index@, rank, key_of(id));
            }
            view_in(node, index, Ghost(rank), Ghost((fuel - 1) as nat))
        },
        None => JsonBinary::Null,
    }
}

/// The view of a node, following references at most `fuel` levels down.
fn view_in(
    n: &CrdtNode,
    index: &NodeIndex,
    Ghost(rank): Ghost<Map<(u64, u64), nat>>,
    Ghost(fuel): Ghost<nat>,
) -> (r: JsonBinary)
    requires
        ranked(index@, rank),
        ranks_refs(*n, index@, rank),
        rank_bound(followed(*n), index@, rank) <= fuel,
    ensures
        shows_node(r, *n, index@, fuel),
    decreases fuel, 2nat,
{
    match n {
        CrdtNode::Con(c) => c.view(),
        CrdtNode::Val(v) => {
            proof {
                lemma_followed_ref(*n, index@, rank, fuel, 0);
            }
            view_ref(v.val, index, Ghost(rank), Ghost(fuel))
        },
        CrdtNode::Str(s) => s.view(),
        CrdtNode::Bin(b) => b.view_json(),
        CrdtNode::Obj(o) => obj_view_in(o, index, Ghost(rank), Ghost(fuel)),
        CrdtNode::Vec(t) => vec_view_in(t, index, Ghost(rank), Ghost(fuel)),
        CrdtNode::Arr(a) => arr_view_in(a, index, Ghost(rank), Ghost(fuel)),
    }
}

fn obj_view_in(
    o: &ObjNode,
    index: &NodeIndex,
    Ghost(rank): Ghost<Map<(u64, u64), nat>>,
    Ghost(fuel): Ghost<nat>,
) -> (r: JsonBinary)
    requires
        ranked(index@, rank),
        ranks_refs(CrdtNode::Obj(*o), index@, rank),
        rank_bound(followed(CrdtNode::Obj(*o)), index@, rank) <= fuel,
    ensures
        shows_node(r, CrdtNode::Obj(*o), index@, fuel),
    decreases fuel, 1nat,
{
    let len = obj_map_len(&o.keys);
    let ghost e = o.entries();
    let mut out: Vec<(String, JsonBinary)> = Vec::new();
    let mut i: usize = 0;
    while i < len
        invariant
            i <= len,
            len == e.len(),
            e == o.entries(),
            ranked(index@, rank),
            ranks_refs(CrdtNode::Obj(*o), index@, rank),
            rank_bound(followed(CrdtNode::Obj(*o)), index@, rank) <= fuel,
            out@.len() == present_entries(e.take(i as int), index@).len(),
            forall|j: int|
                #![trigger out@[j]]
                0 <= j < out@.len() ==> out@[j].0@ == present_entries(e.take(i as int), index@)[j].0
                    && shows_ref(
                    out@[j].1,
                    present_entries(e.take(i as int), index@)[j].1,
                    index@,
                    fuel,
                ),
        decreases len - i,
    {
        let (key, id) = match obj_map_entry(&o.keys, i) {
            Some(p) => p,
            None => {
                return JsonBinary::Null;
            },
        };
        let ghost before = present_entries(e.take(i as int), index@);
        proof {
            assert(e.take(i + 1).drop_last() =~= e.take(i as int));
            assert(e.take(i + 1).last() == e[i as int]);
            assert(followed(CrdtNode::Obj(*o))[i as int] == Some(e[i as int].1));
            lemma_followed_ref(CrdtNode::Obj(*o), index@, rank, fuel, i as int);
        }
        match get_node(index, id) {
            Some(node) if is_undefined_con(node) => {
                proof {
                    assert(present_entries(e.take(i + 1), index@) =~= before);
                }
            },
            Some(node) => {
                proof {
                    lemma_rank_node(index@, rank, key_of(id));
                }
                let v = view_in(node, index, Ghost(rank), Ghost((fuel - 1) as nat));
                let k = key.clone();
                let ghost prev = out@;
                out.push((k, v));
                proof {
                    let after = present_entries(e.take(i + 1), index@);
                    assert(after =~= before.push(e[i as int]));
                    assert forall|j: int| 0 <= j < out@.len() implies #[trigger] out@[j].0@
                        == after[j].0 && shows_ref(out@[j].1, after[j].1, index@, fuel) by {
                        if j < prev.len() {
                            assert(out@[j] == prev[j]);
                        }
                    }
                }
            },
            None => {
                proof {
                    assert(present_entries(e.take(i + 1), index@) =~= before);
                }
            },
        }
        i = i + 1;
    }
    proof {
        assert(e.take(len as int) =~= e);
    }
    JsonBinary::Object(out)
}

fn vec_view_in(
    t: &VecNode,
    index: &NodeIndex,
    Ghost(rank): Ghost<Map<(u64, u64), nat>>,
    Ghost(fuel): Ghost<nat>,
) -> (r: JsonBinary)
    requires
        ranked(index@, rank),
        ranks_refs(CrdtNode::Vec(*t), index@, rank),
        rank_bound(followed(CrdtNode::Vec(*t)), index@, rank) <= fuel,
    ensures
        shows_node(r, CrdtNode::Vec(*t), index@, fuel),
    decreases fuel, 1nat,
{
    let mut out: Vec<JsonBinary> = Vec::new();
    let mut i: usize = 0;
    while i < t.elements.len()
        invariant
            i <= t.elements@.len(),
            out@.len() == i,
            ranked(index@, rank),
            ranks_refs(CrdtNode::Vec(*t), index@, rank),
            rank_bound(followed(CrdtNode::Vec(*t)), index@, rank) <= fuel,
            forall|j: int|
                #![trigger out@[j]]
                0 <= j < i ==> match t.elements@[j] {
                    Some(id) => shows_ref(out@[j], id, index@, fuel),
                    None => out@[j] == JsonBinary::Null,
                },
        decreases t.elements@.len() - i,
    {
        let v = match t.elements[i] {
            Some(id) => {
                proof {
                    assert(followed(CrdtNode::Vec(*t))[i as int] == t.elements@[i as int]);
                    lemma_followed_ref(CrdtNode::Vec(*t), index@, rank, fuel, i as int);
                }
                view_ref(id, index, Ghost(rank), Ghost(fuel))
            },
            None => JsonBinary::Null,
        };
        out.push(v);
        i = i + 1;
    }
    JsonBinary::Array(out)
}

fn arr_view_in(
    a: &ArrNode,
    index: &NodeIndex,
    Ghost(rank): Ghost<Map<(u64, u64), nat>>,
    Ghost(fuel): Ghost<nat>,
) -> (r: JsonBinary)
    requires
        ranked(index@, rank),
        ranks_refs(CrdtNode::Arr(*a), index@, rank),
        rank_bound(followed(CrdtNode::Arr(*a)), index@, rank) <= fuel,
    ensures
        shows_node(r, CrdtNode::Arr(*a), index@, fuel),
    decreases fuel, 1nat,
{
    let ids = arr_live_ids(a);
    let mut out: Vec<JsonBinary> = Vec::new();
    let mut i: usize = 0;
    while i < ids.len()
        invariant
            i <= ids@.len(),
            ids@ == live_items(a.rga@),
            out@.len() == i,
            ranked(index@, rank),
            ranks_refs(CrdtNode::Arr(*a), index@, rank),
            rank_bound(followed(CrdtNode::Arr(*a)), index@, rank) <= fuel,
            forall|j: int| #![trigger out@[j]] 0 <= j < i ==> shows_ref(out@[j], ids@[j], index@, fuel),
        decreases ids@.len() - i,
    {
        proof {
            assert(followed(CrdtNode::Arr(*a))[i as int] == Some(ids@[i as int]));
            lemma_followed_ref(CrdtNode::Arr(*a), index@, rank, fuel, i as int);
        }
        let v = view_ref(ids[i], index, Ghost(rank), Ghost(fuel));
        out.push(v);
        i = i + 1;
    }
    JsonBinary::Array(out)
}

impl ConNode {
    /// The constant's view: null for a reference, a copy of the value
    /// otherwise.
    pub fn view(&self) -> (r: JsonBinary)
        ensures
            shows_con(r, self.val),
    {
        match &self.val {
            ConValue::Ref(_) => JsonBinary::Null,
            ConValue::Val(p) => p.clone(),
            ConValue::Undefined => JsonBinary::Null,
        }
    }
}

impl StrNode {
    /// The text as a JSON string.
    pub fn view(&self) -> (r: JsonBinary)
        ensures
            r is String && r->String_0@ == live_items(self.rga@),
    {
        JsonBinary::String(self.view_str())
    }
}

impl BinNode {
    /// The bytes as a JSON array of numbers.
    pub fn view_json(&self) -> (r: JsonBinary)
        ensures
            shows_bytes(r, live_items(self.rga@)),
    {
        let bytes = self.view();
        let mut out: Vec<JsonBinary> = Vec::new();
        let mut i: usize = 0;
        while i < bytes.len()
            invariant
                i <= bytes@.len(),
                out@.len() == i,
                forall|j: int|
                    #![trigger out@[j]]
                    0 <= j < i ==> out@[j] == JsonBinary::Number(byte_number(bytes@[j])),
            decreases bytes@.len() - i,
        {
            out.push(JsonBinary::Number(number_from_byte(bytes[i])));
            i = i + 1;
        }
        JsonBinary::Array(out)
    }
}

impl ValNode {
    /// The view of the node the register holds, or null.
    pub fn view(&self, index: &NodeIndex) -> (r: JsonBinary)
        requires
            acyclic_from(CrdtNode::Val(*self), index@),
        ensures
            is_view(r, CrdtNode::Val(*self), index@),
    {
        let ghost n = CrdtNode::Val(*self);
        let ghost rank = ranking_from(n, index@);
        let ghost fuel = rank_bound(followed(n), index@, rank);
        proof {
            lemma_followed_ref(n, index@, rank, fuel, 0);
        }
        view_ref(self.val, index, Ghost(rank), Ghost(fuel))
    }
}

impl ObjNode {
    /// The keys whose ids name nodes of the index, with those nodes' views.
    pub fn view(&self, index: &NodeIndex) -> (r: JsonBinary)
        requires
            acyclic_from(CrdtNode::Obj(*self), index@),
        ensures
            is_view(r, CrdtNode::Obj(*self), index@),
    {
        let ghost n = CrdtNode::Obj(*self);
        let ghost rank = ranking_from(n, index@);
        obj_view_in(self, index, Ghost(rank), Ghost(rank_bound(followed(n), index@, rank)))
    }
}

impl VecNode {
    /// The elements' views, null where unset or unresolved.
    pub fn view(&self, index: &NodeIndex) -> (r: JsonBinary)
        requires
            acyclic_from(CrdtNode::Vec(*self), index@),
        ensures
            is_view(r, CrdtNode::Vec(*self), index@),
    {
        let ghost n = CrdtNode::Vec(*self);
        let ghost rank = ranking_from(n, index@);
        vec_view_in(self, index, Ghost(rank), Ghost(rank_bound(followed(n), index@, rank)))
    }
}

impl ArrNode {
    /// The live elements' views, null where unresolved.
    pub fn view(&self, index: &NodeIndex) -> (r: JsonBinary)
        requires
            acyclic_from(CrdtNode::Arr(*self), index@),
        ensures
            is_view(r, CrdtNode::Arr(*self), index@),
    {
        let ghost n = CrdtNode::Arr(*self);
        let ghost rank = ranking_from(n, index@);
        arr_view_in(self, index, Ghost(rank), Ghost(rank_bound(followed(n), index@, rank)))
    }
}

impl RootNode {
    /// The view of the node the root holds, or null.
    pub fn view(&self, index: &NodeIndex) -> (r: JsonBinary)
        requires
            acyclic_from(root_register(*self), index@),
        ensures
            is_view(r, root_register(*self), index@),
    {
        let ghost n = root_register(*self);
        let ghost rank = ranking_from(n, index@);
        let ghost fuel = rank_bound(followed(n), index@, rank);
        proof {
            lemma_followed_ref(n, index@, rank, fuel, 0);
        }
        view_ref(self.val, index, Ghost(rank), Ghost(fuel))
    }
}

impl CrdtNode {
    /// The node's view.
    pub fn view(&self, index: &NodeIndex) -> (r: JsonBinary)
        requires
            acyclic_from(*self, index@),
        ensures
            is_view(r, *self, index@),
    {
        let ghost rank = ranking_from(*self, index@);
        view_in(self, index, Ghost(rank), Ghost(rank_bound(followed(*self), index@, rank)))
    }
}

} // verus!
