//! Equality of document nodes: by schema and content (`cmp`), resolving
//! referenced nodes in the index, and by metadata (`cmp_node`): ids, the id
//! of the last chunk, the number of live items and the number of chunks.
use vstd::prelude::*;
use crate::clock::{Ts, equal};
use crate::crdt::{ConNode, CrdtNode, NodeIndex, key_of};
use crate::operations::ConValue;
use crate::json_equal::{bytes_eq, deep_equal_binary, json_eq, well_formed};
use crate::text::str_eq;
use crate::rga::{ChunkView, Rga};
use crate::nodes::{ArrNode, BinNode, ObjNode, StrNode, ValNode, VecNode, arr_size, live_items, live_span, entry_index, lemma_entry_index};
use crate::nodes::{obj_map_entry, obj_map_get, obj_map_len};

verus! {

/// Both sequences are empty, or both have a last chunk and the two have the
/// same id.
pub open spec fn same_last_id<I>(a: Seq<ChunkView<I>>, b: Seq<ChunkView<I>>) -> bool {
    if a.len() == 0 || b.len() == 0 {
        a.len() == 0 && b.len() == 0
    } else {
        a.last().id == b.last().id
    }
}

/// Total length of the payloads of the chunks that are not deleted.
pub open spec fn live_data_len<I>(v: Seq<ChunkView<I>>) -> nat
    decreases v.len(),
{
    if v.len() == 0 {
        0
    } else {
        live_data_len(v.drop_last()) + if !v.last().deleted && v.last().items is Some {
            v.last().items->0.len()
        } else {
            0
        }
    }
}

proof fn lemma_live_data_len_prefix<I>(v: Seq<ChunkView<I>>, i: int)
    requires
        0 <= i <= v.len(),
    ensures
        live_data_len(v.take(i)) <= live_data_len(v),
    decreases v.len() - i,
{
    if i < v.len() {
        lemma_live_data_len_prefix(v, i + 1);
        assert(v.take(i + 1).drop_last() =~= v.take(i));
    } else {
        assert(v.take(i) =~= v);
    }
}

/// Whether the last chunks of two RGAs have the same id (or both RGAs are
/// empty).
fn same_last_chunk<T: crate::rga::ChunkData>(a: &Rga<T>, b: &Rga<T>) -> (r: bool)
    ensures
        r == same_last_id(a@, b@),
{
    match (a.last_chunk(), b.last_chunk()) {
        (Some(ca), Some(cb)) => equal(ca.id, cb.id),
        (None, None) => true,
        _ => false,
    }
}

/// Total length of the live payloads of a binary RGA.
fn bin_live_len(a: &Rga<Vec<u8>>) -> (r: usize)
    requires
        live_data_len(a@) <= usize::MAX,
    ensures
        r == live_data_len(a@),
{
    let n = a.chunk_count();
    let mut total: usize = 0;
    let mut i: usize = 0;
    while i < n
        invariant
            i <= n,
            n == a@.len(),
            total == live_data_len(a@.take(i as int)),
            live_data_len(a@) <= usize::MAX,
        decreases n - i,
    {
        let c = a.slot(i);
        proof {
            assert(a@.take(i + 1).drop_last() =~= a@.take(i as int));
            lemma_live_data_len_prefix(a@, i + 1);
        }
        if !c.deleted {
            match &c.data {
                Some(d) => {
                    total = total + d.len();
                },
                None => {},
            }
        }
        i = i + 1;
    }
    proof {
        assert(a@.take(n as int) =~= a@);
    }
    total
}

/// Two string nodes agree on the id of their last chunk, their number of
/// live UTF-16 code units and their number of chunks.
pub fn cmp_rga_str(a: &StrNode, b: &StrNode) -> (r: bool)
    requires
        live_span(a.rga@) <= usize::MAX,
        live_span(b.rga@) <= usize::MAX,
    ensures
        r == (same_last_id(a.rga@, b.rga@) && live_span(a.rga@) == live_span(b.rga@)
            && a.rga@.len() == b.rga@.len()),
{
    if !same_last_chunk(&a.rga, &b.rga) {
        return false;
    }
    a.size() == b.size() && a.rga.chunk_count() == b.rga.chunk_count()
}

/// Two binary nodes agree on the id of their last chunk, their number of
/// live bytes and their number of chunks.
pub fn cmp_rga_bin(a: &BinNode, b: &BinNode) -> (r: bool)
    requires
        live_data_len(a.rga@) <= usize::MAX,
        live_data_len(b.rga@) <= usize::MAX,
    ensures
        r == (same_last_id(a.rga@, b.rga@) && live_data_len(a.rga@) == live_data_len(b.rga@)
            && a.rga@.len() == b.rga@.len()),
{
    if !same_last_chunk(&a.rga, &b.rga) {
        return false;
    }
    let len_a = bin_live_len(&a.rga);
    let len_b = bin_live_len(&b.rga);
    len_a == len_b && a.rga.chunk_count() == b.rga.chunk_count()
}

/// Two array nodes agree on the id of their last chunk, their number of
/// live elements and their number of chunks.
pub fn cmp_rga_arr(a: &ArrNode, b: &ArrNode) -> (r: bool)
    requires
        arr_size(a.rga@) <= usize::MAX,
        arr_size(b.rga@) <= usize::MAX,
    ensures
        r == (same_last_id(a.rga@, b.rga@) && arr_size(a.rga@) == arr_size(b.rga@) && a.rga@.len()
            == b.rga@.len()),
{
    if !same_last_chunk(&a.rga, &b.rga) {
        return false;
    }
    a.size() == b.size() && a.rga.chunk_count() == b.rga.chunk_count()
}

/// In an object compared with itself, each key is found at its own
/// position.
proof fn lemma_same_entry(
    a: CrdtNode,
    b: CrdtNode,
    ea: Seq<(Seq<char>, Ts)>,
    eb: Seq<(Seq<char>, Ts)>,
    j: int,
)
    requires
        a matches CrdtNode::Obj(x) && x.entries() == ea,
        b matches CrdtNode::Obj(y) && y.entries() == eb,
        0 <= j < ea.len(),
    ensures
        a == b && node_wf(a) ==> entry_index(eb, ea[j].0) == j,
{
    lemma_entry_index(eb, ea[j].0);
    if a == b && node_wf(a) {
        assert(ea == eb);
        let ei = entry_index(eb, ea[j].0);
        assert(ea[ei].0 == ea[j].0);
    }
}

/// A position as an integer.
spec fn pos(i: usize) -> int {
    i as int
}

/// RGA sizes that the metadata comparison adds up fit in `usize`.
pub open spec fn sizes_fit(n: CrdtNode) -> bool {
    match n {
        CrdtNode::Str(x) => live_span(x.rga@) <= usize::MAX,
        CrdtNode::Bin(x) => live_data_len(x.rga@) <= usize::MAX,
        CrdtNode::Arr(x) => arr_size(x.rga@) <= usize::MAX,
        _ => true,
    }
}

/// Two nodes have the same type and the same metadata: the same id; for a
/// register the same value id; for an object the same keys with the same
/// ids; for a tuple the same elements; for an RGA node the same last chunk
/// id, number of live items and number of chunks.
pub open spec fn cmp_node_spec(a: CrdtNode, b: CrdtNode) -> bool {
    match (a, b) {
        (CrdtNode::Con(x), CrdtNode::Con(y)) => x.id == y.id,
        (CrdtNode::Val(x), CrdtNode::Val(y)) => x.id == y.id && x.val == y.val,
        (CrdtNode::Str(x), CrdtNode::Str(y)) => {
            &&& x.id == y.id
            &&& same_last_id(x.rga@, y.rga@)
            &&& live_span(x.rga@) == live_span(y.rga@)
            &&& x.rga@.len() == y.rga@.len()
        },
        (CrdtNode::Bin(x), CrdtNode::Bin(y)) => {
            &&& x.id == y.id
            &&& same_last_id(x.rga@, y.rga@)
            &&& live_data_len(x.rga@) == live_data_len(y.rga@)
            &&& x.rga@.len() == y.rga@.len()
        },
        (CrdtNode::Obj(x), CrdtNode::Obj(y)) => {
            &&& x.id == y.id
            &&& x.entries().len() == y.entries().len()
            &&& forall|i: int|
                #![trigger x.entries()[i]]
                0 <= i < x.entries().len() ==> entry_index(y.entries(), x.entries()[i].0) >= 0
                    && y.entries()[entry_index(y.entries(), x.entries()[i].0)].1
                    == x.entries()[i].1
        },
        (CrdtNode::Vec(x), CrdtNode::Vec(y)) => x.id == y.id && x.elements@ == y.elements@,
        (CrdtNode::Arr(x), CrdtNode::Arr(y)) => {
            &&& x.id == y.id
            &&& same_last_id(x.rga@, y.rga@)
            &&& arr_size(x.rga@) == arr_size(y.rga@)
            &&& x.rga@.len() == y.rga@.len()
        },
        _ => false,
    }
}

/// Compares the type and metadata of two nodes, not their values.
pub fn cmp_node(a: &CrdtNode, b: &CrdtNode) -> (r: bool)
    requires
        sizes_fit(*a),
        sizes_fit(*b),
    ensures
        r == cmp_node_spec(*a, *b),
        *a == *b && node_wf(*a) ==> r,
{
    match (a, b) {
        (CrdtNode::Con(na), CrdtNode::Con(nb)) => equal(na.id, nb.id),
        (CrdtNode::Val(na), CrdtNode::Val(nb)) => equal(na.id, nb.id) && equal(na.val, nb.val),
        (CrdtNode::Str(na), CrdtNode::Str(nb)) => {
            if !equal(na.id, nb.id) {
                return false;
            }
            cmp_rga_str(na, nb)
        },
        (CrdtNode::Bin(na), CrdtNode::Bin(nb)) => {
            if !equal(na.id, nb.id) {
                return false;
            }
            cmp_rga_bin(na, nb)
        },
        (CrdtNode::Obj(na), CrdtNode::Obj(nb)) => {
            if !equal(na.id, nb.id) {
                return false;
            }
            let len = obj_map_len(&na.keys);
            if len != obj_map_len(&nb.keys) {
                return false;
            }
            let ghost ea = na.entries();
            let ghost eb = nb.entries();
            let mut i: usize = 0;
            while i < len
                invariant
                    *a == CrdtNode::Obj(*na),
                    *b == CrdtNode::Obj(*nb),
                    na.id == nb.id,
                    i <= len,
                    len == ea.len(),
                    ea.len() == eb.len(),
                    ea == na.entries(),
                    eb == nb.entries(),
                    forall|j: int|
                        #![trigger ea[j]]
                        0 <= j < i ==> entry_index(eb, ea[j].0) >= 0 && eb[entry_index(
                            eb,
                            ea[j].0,
                        )].1 == ea[j].1,
                decreases len - i,
            {
                let (key, ts_a) = match obj_map_entry(&na.keys, i) {
                    Some(p) => p,
                    None => {
                        return false;
                    },
                };
                proof {
                    let ghost j: int = pos(i);
                    assert(ea[j].0 == key@ && ea[j].1 == ts_a);
                    lemma_same_entry(*a, *b, ea, eb, j);
                }
                match obj_map_get(&nb.keys, key.as_str()) {
                    Some(ts_b) => {
                        if !equal(ts_a, ts_b) {
                            return false;
                        }
                    },
                    None => {
                        return false;
                    },
                }
                i = i + 1;
            }
            true
        },
        (CrdtNode::Vec(na), CrdtNode::Vec(nb)) => {
            if !equal(na.id, nb.id) {
                return false;
            }
            let len = na.elements.len();
            if len != nb.elements.len() {
                return false;
            }
            let mut i: usize = 0;
            while i < len
                invariant
                    *a == CrdtNode::Vec(*na),
                    *b == CrdtNode::Vec(*nb),
                    na.id == nb.id,
                    i <= len,
                    len == na.elements@.len(),
                    len == nb.elements@.len(),
                    forall|j: int| 0 <= j < i ==> na.elements@[j] == nb.elements@[j],
                decreases len - i,
            {
                match (na.elements[i], nb.elements[i]) {
                    (Some(x), Some(y)) => {
                        if !equal(x, y) {
                            let ghost j: int = pos(i);
                            assert(na.elements@[j] != nb.elements@[j]);
                            return false;
                        }
                    },
                    (None, None) => {},
                    _ => {
                        let ghost j: int = pos(i);
                        assert(na.elements@[j] != nb.elements@[j]);
                        return false;
                    },
                }
                i = i + 1;
            }
            assert(na.elements@ =~= nb.elements@);
            true
        },
        (CrdtNode::Arr(na), CrdtNode::Arr(nb)) => {
            if !equal(na.id, nb.id) {
                return false;
            }
            cmp_rga_arr(na, nb)
        },
        _ => false,
    }
}

/// A node's own data is well formed: an object's keys are distinct, and a
/// constant's JSON value is well formed.
pub open spec fn node_wf(n: CrdtNode) -> bool {
    match n {
        CrdtNode::Con(c) => match c.val {
            ConValue::Val(p) => well_formed(p),
            ConValue::Ref(_) => true,
            ConValue::Undefined => true,
        },
        CrdtNode::Obj(o) => o.wf(),
        _ => true,
    }
}

/// Every node of the index is well formed.
pub open spec fn index_wf(idx: Map<(u64, u64), CrdtNode>) -> bool {
    forall|k: (u64, u64)| idx.contains_key(k) ==> #[trigger] node_wf(idx[k])
}

/// Two constant values agree: the same reference, equal JSON values, or
/// both undefined.
pub open spec fn con_eq(a: ConValue, b: ConValue) -> bool {
    match (a, b) {
        (ConValue::Ref(x), ConValue::Ref(y)) => x == y,
        (ConValue::Val(x), ConValue::Val(y)) => json_eq(x, y),
        (ConValue::Undefined, ConValue::Undefined) => true,
        _ => false,
    }
}

/// The references that the deep comparison follows from a node, in order: a
/// register's value, an object's values, a tuple's elements (`None` where
/// unset) and an array's live elements.
pub open spec fn followed(n: CrdtNode) -> Seq<Option<Ts>> {
    match n {
        CrdtNode::Val(x) => seq![Some(x.val)],
        CrdtNode::Obj(x) => x.entries().map_values(|e: (Seq<char>, Ts)| Some(e.1)),
        CrdtNode::Vec(x) => x.elements@,
        CrdtNode::Arr(x) => live_items(x.rga@).map_values(|t: Ts| Some(t)),
        _ => Seq::empty(),
    }
}

/// The node of the index at `k` has a rank, and every node of the index that
/// it refers to has a smaller one.
pub open spec fn ranked_at(
    idx: Map<(u64, u64), CrdtNode>,
    rank: Map<(u64, u64), nat>,
    k: (u64, u64),
) -> bool {
    &&& idx.contains_key(k)
    &&& forall|i: int|
        #![trigger followed(idx[k])[i]]
        0 <= i < followed(idx[k]).len() ==> match followed(idx[k])[i] {
            Some(t) => idx.contains_key(key_of(t)) ==> rank.contains_key(key_of(t))
                && rank[key_of(t)] < rank[k],
            None => true,
        }
}

/// `rank` ranks the nodes it names: a node's references into the index lead
/// to nodes of smaller rank.
pub open spec fn ranked(idx: Map<(u64, u64), CrdtNode>, rank: Map<(u64, u64), nat>) -> bool {
    forall|k: (u64, u64)| rank.contains_key(k) ==> #[trigger] ranked_at(idx, rank, k)
}

/// Every reference of `a` into the index leads to a ranked node.
pub open spec fn ranks_refs(a: CrdtNode, idx: Map<(u64, u64), CrdtNode>, rank: Map<(u64, u64), nat>) -> bool {
    forall|i: int|
        #![trigger followed(a)[i]]
        0 <= i < followed(a).len() ==> match followed(a)[i] {
            Some(t) => idx.contains_key(key_of(t)) ==> rank.contains_key(key_of(t)),
            None => true,
        }
}

/// No chain of references that starts at `a` runs in a circle through the
/// index.
pub open spec fn acyclic_from(a: CrdtNode, idx: Map<(u64, u64), CrdtNode>) -> bool {
    exists|rank: Map<(u64, u64), nat>| ranked(idx, rank) && ranks_refs(a, idx, rank)
}

/// A ranking that shows `acyclic_from(a, idx)`.
pub open spec fn ranking_from(a: CrdtNode, idx: Map<(u64, u64), CrdtNode>) -> Map<(u64, u64), nat> {
    choose|rank: Map<(u64, u64), nat>| ranked(idx, rank) && ranks_refs(a, idx, rank)
}

/// One more than the largest rank among the references of `s` into the index
/// (0 when there is none).
pub open spec fn rank_bound(
    s: Seq<Option<Ts>>,
    idx: Map<(u64, u64), CrdtNode>,
    rank: Map<(u64, u64), nat>,
) -> nat
    decreases s.len(),
{
    if s.len() == 0 {
        0
    } else {
        let m = rank_bound(s.drop_last(), idx, rank);
        let here: nat = match s.last() {
            Some(t) => if idx.contains_key(key_of(t)) {
                rank[key_of(t)] + 1
            } else {
                0
            },
            None => 0,
        };
        if m >= here {
            m
        } else {
            here
        }
    }
}

/// Deep comparison of two nodes, following references at most `n` levels
/// down: same type; with `cc`, the same constant, text or bytes; registers,
/// objects (key by key), tuples and arrays (element by element, and with
/// `cc` only for the elements) whose references agree.
pub open spec fn nodes_agree_within(
    a: CrdtNode,
    b: CrdtNode,
    cc: bool,
    idx: Map<(u64, u64), CrdtNode>,
    n: nat,
) -> bool
    decreases n, 1nat,
{
    match (a, b) {
        (CrdtNode::Con(x), CrdtNode::Con(y)) => !cc || con_eq(x.val, y.val),
        (CrdtNode::Val(x), CrdtNode::Val(y)) => refs_agree_within(x.val, y.val, cc, idx, n),
        (CrdtNode::Str(x), CrdtNode::Str(y)) => !cc || live_items(x.rga@) == live_items(y.rga@),
        (CrdtNode::Bin(x), CrdtNode::Bin(y)) => !cc || live_items(x.rga@) == live_items(y.rga@),
        (CrdtNode::Obj(x), CrdtNode::Obj(y)) => {
            &&& x.entries().len() == y.entries().len()
            &&& forall|i: int|
                #![trigger x.entries()[i]]
                0 <= i < x.entries().len() ==> entry_index(y.entries(), x.entries()[i].0) >= 0
                    && refs_agree_within(
                    x.entries()[i].1,
                    y.entries()[entry_index(y.entries(), x.entries()[i].0)].1,
                    cc,
                    idx,
                    n,
                )
        },
        (CrdtNode::Vec(x), CrdtNode::Vec(y)) => {
            &&& x.elements@.len() == y.elements@.len()
            &&& forall|i: int|
                #![trigger x.elements@[i]]
                0 <= i < x.elements@.len() ==> match (x.elements@[i], y.elements@[i]) {
                    (Some(p), Some(q)) => refs_agree_within(p, q, cc, idx, n),
                    (None, None) => true,
                    _ => false,
                }
        },
        (CrdtNode::Arr(x), CrdtNode::Arr(y)) => {
            &&& live_items(x.rga@).len() == live_items(y.rga@).len()
            &&& (!cc || forall|i: int|
                #![trigger live_items(x.rga@)[i]]
                0 <= i < live_items(x.rga@).len() ==> refs_agree_within(
                    live_items(x.rga@)[i],
                    live_items(y.rga@)[i],
                    cc,
                    idx,
                    n,
                ))
        },
        _ => false,
    }
}

/// Two references agree, following them at most `n` levels down: both name
/// nodes of the index and those compare equal, or neither does.
pub open spec fn refs_agree_within(x: Ts, y: Ts, cc: bool, idx: Map<(u64, u64), CrdtNode>, n: nat) -> bool
    decreases n, 0nat,
{
    if idx.contains_key(key_of(x)) && idx.contains_key(key_of(y)) {
        if n == 0 {
            false
        } else {
            nodes_agree_within(idx[key_of(x)], idx[key_of(y)], cc, idx, (n - 1) as nat)
        }
    } else {
        !idx.contains_key(key_of(x)) && !idx.contains_key(key_of(y))
    }
}

/// `n` with its own id replaced by `t`.
pub open spec fn with_id(n: CrdtNode, t: Ts) -> CrdtNode {
    match n {
        CrdtNode::Con(x) => CrdtNode::Con(ConNode { id: t, ..x }),
        CrdtNode::Val(x) => CrdtNode::Val(ValNode { id: t, ..x }),
        CrdtNode::Obj(x) => CrdtNode::Obj(ObjNode { id: t, ..x }),
        CrdtNode::Vec(x) => CrdtNode::Vec(VecNode { id: t, ..x }),
        CrdtNode::Str(x) => CrdtNode::Str(StrNode { id: t, ..x }),
        CrdtNode::Bin(x) => CrdtNode::Bin(BinNode { id: t, ..x }),
        CrdtNode::Arr(x) => CrdtNode::Arr(ArrNode { id: t, ..x }),
    }
}

/// The deep comparison ignores the compared nodes' own ids.
pub proof fn lemma_agree_ignores_ids(
    a: CrdtNode,
    b: CrdtNode,
    s: Ts,
    t: Ts,
    cc: bool,
    idx: Map<(u64, u64), CrdtNode>,
    n: nat,
)
    ensures
        nodes_agree_within(with_id(a, s), with_id(b, t), cc, idx, n) == nodes_agree_within(
            a,
            b,
            cc,
            idx,
            n,
        ),
        followed(with_id(a, s)) == followed(a),
{
}

/// Deep comparison of two nodes with enough depth to follow every chain of
/// references from `a`.
pub open spec fn nodes_agree(a: CrdtNode, b: CrdtNode, cc: bool, idx: Map<(u64, u64), CrdtNode>) -> bool {
    nodes_agree_within(a, b, cc, idx, rank_bound(followed(a), idx, ranking_from(a, idx)))
}

pub(crate) proof fn lemma_rank_bound_ge(
    s: Seq<Option<Ts>>,
    idx: Map<(u64, u64), CrdtNode>,
    rank: Map<(u64, u64), nat>,
    i: int,
)
    requires
        0 <= i < s.len(),
        s[i] is Some,
        idx.contains_key(key_of(s[i]->0)),
    ensures
        rank[key_of(s[i]->0)] + 1 <= rank_bound(s, idx, rank),
    decreases s.len(),
{
    if i < s.len() - 1 {
        lemma_rank_bound_ge(s.drop_last(), idx, rank, i);
    }
}

proof fn lemma_rank_bound_le(
    s: Seq<Option<Ts>>,
    idx: Map<(u64, u64), CrdtNode>,
    rank: Map<(u64, u64), nat>,
    bound: nat,
)
    requires
        forall|i: int|
            0 <= i < s.len() && #[trigger] s[i] is Some && idx.contains_key(key_of(s[i]->0))
                ==> rank[key_of(s[i]->0)] + 1 <= bound,
    ensures
        rank_bound(s, idx, rank) <= bound,
    decreases s.len(),
{
    if s.len() > 0 {
        let d = s.drop_last();
        assert forall|i: int|
            0 <= i < d.len() && #[trigger] d[i] is Some && idx.contains_key(key_of(d[i]->0))
                implies rank[key_of(d[i]->0)] + 1 <= bound by {
            assert(d[i] == s[i]);
        }
        lemma_rank_bound_le(d, idx, rank, bound);
        let l = s.len() - 1;
        assert(s[l] == s.last());
    }
}

/// The references of a ranked node lead to nodes of smaller rank: the
/// node's rank bounds their ranks.
pub(crate) proof fn lemma_rank_node(idx: Map<(u64, u64), CrdtNode>, rank: Map<(u64, u64), nat>, k: (u64, u64))
    requires
        ranked(idx, rank),
        rank.contains_key(k),
    ensures
        idx.contains_key(k),
        ranks_refs(idx[k], idx, rank),
        rank_bound(followed(idx[k]), idx, rank) <= rank[k],
{
    assert(ranked_at(idx, rank, k));
    let s = followed(idx[k]);
    assert forall|i: int|
        0 <= i < s.len() && #[trigger] s[i] is Some && idx.contains_key(key_of(s[i]->0))
            implies rank[key_of(s[i]->0)] + 1 <= rank[k] by {
        assert(followed(idx[k])[i] == s[i]);
    }
    lemma_rank_bound_le(s, idx, rank, rank[k]);
}

/// Once the depth bounds the ranks of `a`'s references, following
/// references deeper does not change the comparison.
pub proof fn lemma_agree_depth(
    a: CrdtNode,
    b: CrdtNode,
    cc: bool,
    idx: Map<(u64, u64), CrdtNode>,
    rank: Map<(u64, u64), nat>,
    n: nat,
    m: nat,
)
    requires
        ranked(idx, rank),
        ranks_refs(a, idx, rank),
        rank_bound(followed(a), idx, rank) <= n,
        rank_bound(followed(a), idx, rank) <= m,
    ensures
        nodes_agree_within(a, b, cc, idx, n) == nodes_agree_within(a, b, cc, idx, m),
    decreases n, 1nat,
{
    match (a, b) {
        (CrdtNode::Val(x), CrdtNode::Val(y)) => {
            lemma_followed_ref(a, idx, rank, n, 0);
            lemma_followed_ref(a, idx, rank, m, 0);
            lemma_refs_depth(x.val, y.val, cc, idx, rank, n, m);
        },
        (CrdtNode::Obj(x), CrdtNode::Obj(y)) => {
            let ea = x.entries();
            let eb = y.entries();
            assert forall|i: int| 0 <= i < ea.len() && entry_index(eb, ea[i].0) >= 0 implies
                refs_agree_within(#[trigger] ea[i].1, eb[entry_index(eb, ea[i].0)].1, cc, idx, n)
                == refs_agree_within(ea[i].1, eb[entry_index(eb, ea[i].0)].1, cc, idx, m) by {
                assert(followed(a)[i] == Some(ea[i].1));
                lemma_followed_ref(a, idx, rank, n, i);
                lemma_followed_ref(a, idx, rank, m, i);
                lemma_refs_depth(ea[i].1, eb[entry_index(eb, ea[i].0)].1, cc, idx, rank, n, m);
            }
        },
        (CrdtNode::Vec(x), CrdtNode::Vec(y)) => {
            let ea = x.elements@;
            let eb = y.elements@;
            assert forall|i: int| 0 <= i < ea.len() && #[trigger] ea[i] is Some && eb[i] is Some implies
                refs_agree_within(ea[i]->0, eb[i]->0, cc, idx, n)
                == refs_agree_within(ea[i]->0, eb[i]->0, cc, idx, m) by {
                assert(followed(a)[i] == ea[i]);
                lemma_followed_ref(a, idx, rank, n, i);
                lemma_followed_ref(a, idx, rank, m, i);
                lemma_refs_depth(ea[i]->0, eb[i]->0, cc, idx, rank, n, m);
            }
            if ea.len() == eb.len() {
                assert forall|i: int| 0 <= i < ea.len() implies (match (#[trigger] ea[i], eb[i]) {
                    (Some(p), Some(q)) => refs_agree_within(p, q, cc, idx, n),
                    (None, None) => true,
                    _ => false,
                }) == (match (ea[i], eb[i]) {
                    (Some(p), Some(q)) => refs_agree_within(p, q, cc, idx, m),
                    (None, None) => true,
                    _ => false,
                }) by {
                    if ea[i] is Some && eb[i] is Some {
                        assert(refs_agree_within(ea[i]->0, eb[i]->0, cc, idx, n)
                            == refs_agree_within(ea[i]->0, eb[i]->0, cc, idx, m));
                    }
                }
            }
        },
        (CrdtNode::Arr(x), CrdtNode::Arr(y)) => {
            let va = live_items(x.rga@);
            let vb = live_items(y.rga@);
            assert forall|i: int| 0 <= i < va.len() && i < vb.len() implies refs_agree_within(
                #[trigger] va[i],
                vb[i],
                cc,
                idx,
                n,
            ) == refs_agree_within(va[i], vb[i], cc, idx, m) by {
                assert(followed(a)[i] == Some(va[i]));
                lemma_followed_ref(a, idx, rank, n, i);
                lemma_followed_ref(a, idx, rank, m, i);
                lemma_refs_depth(va[i], vb[i], cc, idx, rank, n, m);
            }
        },
        _ => {},
    }
}

proof fn lemma_refs_depth(
    x: Ts,
    y: Ts,
    cc: bool,
    idx: Map<(u64, u64), CrdtNode>,
    rank: Map<(u64, u64), nat>,
    n: nat,
    m: nat,
)
    requires
        ranked(idx, rank),
        idx.contains_key(key_of(x)) ==> rank.contains_key(key_of(x)) && rank[key_of(x)] < n
            && rank[key_of(x)] < m,
    ensures
        refs_agree_within(x, y, cc, idx, n) == refs_agree_within(x, y, cc, idx, m),
    decreases n, 0nat,
{
    if idx.contains_key(key_of(x)) && idx.contains_key(key_of(y)) {
        lemma_rank_node(idx, rank, key_of(x));
        lemma_agree_depth(
            idx[key_of(x)],
            idx[key_of(y)],
            cc,
            idx,
            rank,
            (n - 1) as nat,
            (m - 1) as nat,
        );
    }
}

/// Two rankings that show `acyclic_from` give the same comparison: the
/// result does not depend on the ranking chosen.
pub proof fn lemma_agree_any_ranking(
    a: CrdtNode,
    b: CrdtNode,
    cc: bool,
    idx: Map<(u64, u64), CrdtNode>,
    rank: Map<(u64, u64), nat>,
)
    requires
        ranked(idx, rank),
        ranks_refs(a, idx, rank),
    ensures
        nodes_agree(a, b, cc, idx) == nodes_agree_within(a, b, cc, idx, rank_bound(followed(a), idx, rank)),
{
    let r0 = ranking_from(a, idx);
    let n0 = rank_bound(followed(a), idx, r0);
    let n1 = rank_bound(followed(a), idx, rank);
    let top = if n0 >= n1 { n0 } else { n1 };
    lemma_agree_depth(a, b, cc, idx, r0, n0, top);
    lemma_agree_depth(a, b, cc, idx, rank, n1, top);
}

/// The node with id `id` in the index, if any.
pub(crate) fn get_node<'a>(index: &'a NodeIndex, id: Ts) -> (r: Option<&'a CrdtNode>)
    ensures
        match r {
            Some(n) => index@.contains_key(key_of(id)) && *n == index@[key_of(id)],
            None => !index@.contains_key(key_of(id)),
        },
{
    broadcast use vstd::std_specs::btree::group_btree_axioms;
    broadcast use vstd::laws_cmp::group_laws_cmp;

    index.get(&(id.time, id.sid))
}

/// The live elements of an array node, in order.
pub(crate) fn arr_live_ids(n: &ArrNode) -> (r: Vec<Ts>)
    ensures
        r@ == live_items(n.rga@),
{
    let mut out: Vec<Ts> = Vec::new();
    let count = n.rga.chunk_count();
    let mut i: usize = 0;
    while i < count
        invariant
            i <= count,
            count == n.rga@.len(),
            out@ == live_items(n.rga@.take(i as int)),
        decreases count - i,
    {
        let c = n.rga.slot(i);
        proof {
            assert(n.rga@.take(i + 1).drop_last() =~= n.rga@.take(i as int));
        }
        if !c.deleted {
            match &c.data {
                Some(d) => {
                    let ghost before = out@;
                    let mut k: usize = 0;
                    while k < d.len()
                        invariant
                            k <= d@.len(),
                            out@ == before + d@.take(k as int),
                        decreases d@.len() - k,
                    {
                        out.push(d[k]);
                        k = k + 1;
                        assert(out@ =~= before + d@.take(k as int));
                    }
                    assert(d@.take(d@.len() as int) =~= d@);
                },
                None => {},
            }
        }
        i = i + 1;
    }
    proof {
        assert(n.rga@.take(count as int) =~= n.rga@);
    }
    out
}

/// Whether two constant values agree.
fn con_value_eq(a: &ConValue, b: &ConValue) -> (r: bool)
    ensures
        r == con_eq(*a, *b),
        *a == *b && (*a matches ConValue::Val(p) ==> well_formed(p)) ==> r,
{
    match (a, b) {
        (ConValue::Ref(x), ConValue::Ref(y)) => equal(*x, *y),
        (ConValue::Val(x), ConValue::Val(y)) => deep_equal_binary(x, y),
        (ConValue::Undefined, ConValue::Undefined) => true,
        _ => false,
    }
}

/// One less than a positive depth.
spec fn less_one(n: nat) -> nat {
    (n - 1) as nat
}

/// A reference that `a` follows leads to a ranked node of rank below `n`
/// when `n` bounds the ranks of `a`'s references.
pub(crate) proof fn lemma_followed_ref(
    a: CrdtNode,
    idx: Map<(u64, u64), CrdtNode>,
    rank: Map<(u64, u64), nat>,
    n: nat,
    i: int,
)
    requires
        ranks_refs(a, idx, rank),
        rank_bound(followed(a), idx, rank) <= n,
        0 <= i < followed(a).len(),
        followed(a)[i] is Some,
    ensures
        idx.contains_key(key_of(followed(a)[i]->0)) ==> rank.contains_key(
            key_of(followed(a)[i]->0),
        ) && rank[key_of(followed(a)[i]->0)] < n,
{
    if idx.contains_key(key_of(followed(a)[i]->0)) {
        lemma_rank_bound_ge(followed(a), idx, rank, i);
    }
}

/// Compares the nodes that two references name, following references at
/// most `n` levels down.
fn cmp_ref(
    x: Ts,
    y: Ts,
    compare_content: bool,
    index: &NodeIndex,
    Ghost(rank): Ghost<Map<(u64, u64), nat>>,
    Ghost(n): Ghost<nat>,
) -> (r: bool)
    requires
        ranked(index@, rank),
        index@.contains_key(key_of(x)) ==> rank.contains_key(key_of(x)) && rank[key_of(x)] < n,
    ensures
        r == refs_agree_within(x, y, compare_content, index@, n),
        x == y && index_wf(index@) ==> r,
    decreases n, 0nat,
{
    match (get_node(index, x), get_node(index, y)) {
        (Some(ca), Some(cb)) => {
            proof {
                lemma_rank_node(index@, rank, key_of(x));
            }
            cmp_in(ca, cb, compare_content, index, Ghost(rank), Ghost(less_one(n)))
        },
        (None, None) => true,
        _ => false,
    }
}

/// Deep comparison of two nodes, following references at most `n` levels
/// down; `n` bounds the ranks of `a`'s references.
fn cmp_in(
    a: &CrdtNode,
    b: &CrdtNode,
    compare_content: bool,
    index: &NodeIndex,
    Ghost(rank): Ghost<Map<(u64, u64), nat>>,
    Ghost(n): Ghost<nat>,
) -> (r: bool)
    requires
        ranked(index@, rank),
        ranks_refs(*a, index@, rank),
        rank_bound(followed(*a), index@, rank) <= n,
    ensures
        r == nodes_agree_within(*a, *b, compare_content, index@, n),
        *a == *b && node_wf(*a) && index_wf(index@) ==> r,
    decreases n, 1nat,
{
    match (a, b) {
        (CrdtNode::Con(na), CrdtNode::Con(nb)) => {
            if !compare_content {
                return true;
            }
            con_value_eq(&na.val, &nb.val)
        },
        (CrdtNode::Val(na), CrdtNode::Val(nb)) => {
            proof {
                lemma_followed_ref(*a, index@, rank, n, 0);
            }
            cmp_ref(na.val, nb.val, compare_content, index, Ghost(rank), Ghost(n))
        },
        (CrdtNode::Str(na), CrdtNode::Str(nb)) => {
            if !compare_content {
                return true;
            }
            let sa = na.view_str();
            let sb = nb.view_str();
            str_eq(sa.as_str(), sb.as_str())
        },
        (CrdtNode::Bin(na), CrdtNode::Bin(nb)) => {
            if !compare_content {
                return true;
            }
            let ba = na.view();
            let bb = nb.view();
            bytes_eq(&ba, &bb)
        },
        (CrdtNode::Obj(na), CrdtNode::Obj(nb)) => {
            let len = obj_map_len(&na.keys);
            if len != obj_map_len(&nb.keys) {
                return false;
            }
            let ghost ea = na.entries();
            let ghost eb = nb.entries();
            let mut i: usize = 0;
            while i < len
                invariant
                    *a == CrdtNode::Obj(*na),
                    *b == CrdtNode::Obj(*nb),
                    ranked(index@, rank),
                    ranks_refs(*a, index@, rank),
                    rank_bound(followed(*a), index@, rank) <= n,
                    i <= len,
                    len == ea.len(),
                    ea.len() == eb.len(),
                    ea == na.entries(),
                    eb == nb.entries(),
                    forall|j: int|
                        #![trigger ea[j]]
                        0 <= j < i ==> entry_index(eb, ea[j].0) >= 0 && refs_agree_within(
                            ea[j].1,
                            eb[entry_index(eb, ea[j].0)].1,
                            compare_content,
                            index@,
                            n,
                        ),
                decreases len - i,
            {
                let (key, id_a) = match obj_map_entry(&na.keys, i) {
                    Some(p) => p,
                    None => {
                        return false;
                    },
                };
                let ghost j: int = pos(i);
                proof {
                    assert(ea[j].0 == key@ && ea[j].1 == id_a);
                    assert(followed(*a)[j] == Some(ea[j].1));
                    lemma_followed_ref(*a, index@, rank, n, j);
                    lemma_same_entry(*a, *b, ea, eb, j);
                }
                let id_b = match obj_map_get(&nb.keys, key.as_str()) {
                    Some(id) => id,
                    None => {
                        return false;
                    },
                };
                if !cmp_ref(id_a, id_b, compare_content, index, Ghost(rank), Ghost(n)) {
                    return false;
                }
                i = i + 1;
            }
            true
        },
        (CrdtNode::Vec(na), CrdtNode::Vec(nb)) => {
            let len = na.elements.len();
            if len != nb.elements.len() {
                return false;
            }
            let mut i: usize = 0;
            while i < len
                invariant
                    *a == CrdtNode::Vec(*na),
                    *b == CrdtNode::Vec(*nb),
                    ranked(index@, rank),
                    ranks_refs(*a, index@, rank),
                    rank_bound(followed(*a), index@, rank) <= n,
                    i <= len,
                    len == na.elements@.len(),
                    len == nb.elements@.len(),
                    forall|j: int|
                        #![trigger na.elements@[j]]
                        0 <= j < i ==> match (na.elements@[j], nb.elements@[j]) {
                            (Some(p), Some(q)) => refs_agree_within(p, q, compare_content, index@, n),
                            (None, None) => true,
                            _ => false,
                        },
                decreases len - i,
            {
                let ghost j: int = pos(i);
                match (na.elements[i], nb.elements[i]) {
                    (Some(ia), Some(ib)) => {
                        proof {
                            assert(followed(*a)[j] == na.elements@[j]);
                            lemma_followed_ref(*a, index@, rank, n, j);
                        }
                        if !cmp_ref(ia, ib, compare_content, index, Ghost(rank), Ghost(n)) {
                            return false;
                        }
                    },
                    (None, None) => {},
                    _ => {
                        return false;
                    },
                }
                i = i + 1;
            }
            true
        },
        (CrdtNode::Arr(na), CrdtNode::Arr(nb)) => {
            let va = arr_live_ids(na);
            let vb = arr_live_ids(nb);
            if va.len() != vb.len() {
                return false;
            }
            if !compare_content {
                return true;
            }
            let mut i: usize = 0;
            while i < va.len()
                invariant
                    *a == CrdtNode::Arr(*na),
                    *b == CrdtNode::Arr(*nb),
                    compare_content,
                    ranked(index@, rank),
                    ranks_refs(*a, index@, rank),
                    rank_bound(followed(*a), index@, rank) <= n,
                    i <= va@.len(),
                    va@ == live_items(na.rga@),
                    vb@ == live_items(nb.rga@),
                    va@.len() == vb@.len(),
                    forall|j: int|
                        #![trigger va@[j]]
                        0 <= j < i ==> refs_agree_within(va@[j], vb@[j], compare_content, index@, n),
                decreases va@.len() - i,
            {
                let ghost j: int = pos(i);
                proof {
                    assert(followed(*a)[j] == Some(va@[j]));
                    lemma_followed_ref(*a, index@, rank, n, j);
                }
                if !cmp_ref(va[i], vb[i], compare_content, index, Ghost(rank), Ghost(n)) {
                    return false;
                }
                i = i + 1;
            }
            true
        },
        _ => false,
    }
}

/// Deeply checks whether two nodes have the same schema and, with
/// `compare_content`, the same values, resolving referenced nodes in
/// `index`.
pub fn cmp(a: &CrdtNode, b: &CrdtNode, compare_content: bool, index: &NodeIndex) -> (r: bool)
    requires
        acyclic_from(*a, index@),
    ensures
        r == nodes_agree(*a, *b, compare_content, index@),
        *a == *b && node_wf(*a) && index_wf(index@) ==> r,
{
    let ghost rank = ranking_from(*a, index@);
    cmp_in(a, b, compare_content, index, Ghost(rank), Ghost(rank_bound(followed(*a), index@, rank)))
}

} // verus!
