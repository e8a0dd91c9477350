//! The document's nodes as one type, and the index that resolves node ids
//! to nodes.
use vstd::prelude::*;
use crate::clock::Ts;
use crate::operations::ConValue;
use crate::nodes::{ArrNode, BinNode, ObjNode, StrNode, ValNode, VecNode, obj_map_entry, obj_map_len};
use crate::rga::ChunkView;

verus! {

/// Immutable constant node.
#[derive(Debug)]
pub struct ConNode {
    pub id: Ts,
    pub val: ConValue,
}

impl ConNode {
    pub fn new(id: Ts, val: ConValue) -> (r: Self)
        ensures
            r.id == id,
            r.val == val,
    {
        Self { id, val }
    }
}

/// Any node of a document.
#[derive(Debug)]
pub enum CrdtNode {
    Con(ConNode),
    Val(ValNode),
    Obj(ObjNode),
    Vec(VecNode),
    Str(StrNode),
    Bin(BinNode),
    Arr(ArrNode),
}

/// The nodes of a document by id; an id is keyed by its time, then its
/// session id.
pub type NodeIndex = std::collections::BTreeMap<(u64, u64), CrdtNode>;

/// The index key of a node id.
pub open spec fn key_of(t: Ts) -> (u64, u64) {
    (t.time, t.sid)
}

/// The index key of a node id.
pub fn node_key(id: Ts) -> (r: (u64, u64))
    ensures
        r == key_of(id),
{
    (id.time, id.sid)
}

/// The set elements of a tuple, in order.
pub open spec fn set_elements(s: Seq<Option<Ts>>) -> Seq<Ts>
    decreases s.len(),
{
    if s.len() == 0 {
        Seq::empty()
    } else {
        set_elements(s.drop_last()) + match s.last() {
            Some(t) => seq![t],
            None => Seq::empty(),
        }
    }
}

/// The items of every chunk that holds items, deleted or not, in order.
pub open spec fn held_items<I>(v: Seq<ChunkView<I>>) -> Seq<I>
    decreases v.len(),
{
    if v.len() == 0 {
        Seq::empty()
    } else {
        held_items(v.drop_last()) + match v.last().items {
            Some(s) => s,
            None => Seq::empty(),
        }
    }
}

impl CrdtNode {
    /// The node's id.
    pub open spec fn spec_id(&self) -> Ts {
        match self {
            CrdtNode::Con(n) => n.id,
            CrdtNode::Val(n) => n.id,
            CrdtNode::Obj(n) => n.id,
            CrdtNode::Vec(n) => n.id,
            CrdtNode::Str(n) => n.id,
            CrdtNode::Bin(n) => n.id,
            CrdtNode::Arr(n) => n.id,
        }
    }

    /// The node's type name.
    pub open spec fn spec_name(&self) -> Seq<char> {
        match self {
            CrdtNode::Con(_) => "con"@,
            CrdtNode::Val(_) => "val"@,
            CrdtNode::Obj(_) => "obj"@,
            CrdtNode::Vec(_) => "vec"@,
            CrdtNode::Str(_) => "str"@,
            CrdtNode::Bin(_) => "bin"@,
            CrdtNode::Arr(_) => "arr"@,
        }
    }

    /// The ids of the node's immediate children: a register's value unless it
    /// is the origin, an object's values, a tuple's set elements, and the
    /// elements of every chunk of an array that holds elements.
    pub open spec fn children(&self) -> Seq<Ts> {
        match self {
            CrdtNode::Val(n) => if n.val.sid == 0 && n.val.time == 0 {
                Seq::empty()
            } else {
                seq![n.val]
            },
            CrdtNode::Obj(n) => n.entries().map_values(|e: (Seq<char>, Ts)| e.1),
            CrdtNode::Vec(n) => set_elements(n.elements@),
            CrdtNode::Arr(n) => held_items(n.rga@),
            _ => Seq::empty(),
        }
    }

    pub fn id(&self) -> (r: Ts)
        ensures
            r == self.spec_id(),
    {
        match self {
            CrdtNode::Con(n) => n.id,
            CrdtNode::Val(n) => n.id,
            CrdtNode::Obj(n) => n.id,
            CrdtNode::Vec(n) => n.id,
            CrdtNode::Str(n) => n.id,
            CrdtNode::Bin(n) => n.id,
            CrdtNode::Arr(n) => n.id,
        }
    }

    pub fn child_ids(&self) -> (r: Vec<Ts>)
        ensures
            r@ == self.children(),
    {
        match self {
            CrdtNode::Con(_) | CrdtNode::Str(_) | CrdtNode::Bin(_) => Vec::new(),
            CrdtNode::Val(n) => {
                if n.val.sid == 0 && n.val.time == 0 {
                    Vec::new()
                } else {
                    let mut v = Vec::new();
                    v.push(n.val);
                    assert(v@ =~= seq![n.val]);
                    v
                }
            },
            CrdtNode::Obj(n) => {
                let len = obj_map_len(&n.keys);
                let ghost e = n.entries();
                let mut out: Vec<Ts> = Vec::new();
                let mut i: usize = 0;
                while i < len
                    invariant
                        i <= len,
                        len == e.len(),
                        e == n.entries(),
                        out@ =~= e.take(i as int).map_values(|x: (Seq<char>, Ts)| x.1),
                    decreases len - i,
                {
                    match obj_map_entry(&n.keys, i) {
                        Some(p) => {
                            out.push(p.1);
                        },
                        None => {},
                    }
                    assert(e.take(i + 1) =~= e.take(i as int).push(e[i as int]));
                    i = i + 1;
                }
                assert(e.take(len as int) =~= e);
                out
            },
            CrdtNode::Vec(n) => {
                let mut out: Vec<Ts> = Vec::new();
                let mut i: usize = 0;
                while i < n.elements.len()
                    invariant
                        i <= n.elements@.len(),
                        out@ == set_elements(n.elements@.take(i as int)),
                    decreases n.elements@.len() - i,
                {
                    assert(n.elements@.take(i + 1).drop_last() =~= n.elements@.take(i as int));
                    match n.elements[i] {
                        Some(t) => {
                            out.push(t);
                        },
                        None => {},
                    }
                    i = i + 1;
                    assert(out@ =~= set_elements(n.elements@.take(i as int)));
                }
                assert(n.elements@.take(n.elements@.len() as int) =~= n.elements@);
                out
            },
            CrdtNode::Arr(n) => {
                let mut out: Vec<Ts> = Vec::new();
                let count = n.rga.chunk_count();
                let mut i: usize = 0;
                while i < count
                    invariant
                        i <= count,
                        count == n.rga@.len(),
                        out@ == held_items(n.rga@.take(i as int)),
                    decreases count - i,
                {
                    let c = n.rga.slot(i);
                    proof {
                        assert(n.rga@.take(i + 1).drop_last() =~= n.rga@.take(i as int));
                    }
                    match &c.data {
                        Some(d) => {
                            let ghost before = out@;
                            let mut k: usize = 0;
                            while k < d.len()
                                invariant
                                    k <= d@.len(),
                                    out@ == before + d@.take(k as int),
                                decreases d@.len() - k,
                            {
                                out.push(d[k]);
                                k = k + 1;
                                assert(out@ =~= before + d@.take(k as int));
                            }
                            assert(d@.take(d@.len() as int) =~= d@);
                        },
                        None => {},
                    }
                    i = i + 1;
                    assert(out@ =~= held_items(n.rga@.take(i as int)));
                }
                assert(n.rga@.take(count as int) =~= n.rga@);
                out
            },
        }
    }

    pub fn name(&self) -> (r: &'static str)
        ensures
            r@ == self.spec_name(),
    {
        proof {
            reveal_strlit("con");
            reveal_strlit("val");
            reveal_strlit("obj");
            reveal_strlit("vec");
            reveal_strlit("str");
            reveal_strlit("bin");
            reveal_strlit("arr");
        }
        match self {
            CrdtNode::Con(_) => "con",
            CrdtNode::Val(_) => "val",
            CrdtNode::Obj(_) => "obj",
            CrdtNode::Vec(_) => "vec",
            CrdtNode::Str(_) => "str",
            CrdtNode::Bin(_) => "bin",
            CrdtNode::Arr(_) => "arr",
        }
    }
}

/// `BTreeMap::get_mut`: a mutable reference to the value at `k`, if any;
/// whatever is written through it is the map's new value at `k`.
#[verifier::external_body]
fn index_get_mut<'a>(m: &'a mut NodeIndex, k: (u64, u64)) -> (r: Option<&'a mut CrdtNode>)
    ensures
        match r {
            Some(v) => old(m)@.contains_key(k) && *v == old(m)@[k] && final(m)@ == old(m)@.insert(
                k,
                *final(v),
            ),
            None => !old(m)@.contains_key(k) && final(m)@ == old(m)@,
        },
{
    m.get_mut(&k)
}

/// Looking nodes up, and adding and removing them, by node id.
pub trait IndexExt {
    spec fn nodes(&self) -> Map<(u64, u64), CrdtNode>;

    fn get(&self, ts: &Ts) -> (r: Option<&CrdtNode>)
        ensures
            match r {
                Some(n) => self.nodes().contains_key(key_of(*ts)) && *n == self.nodes()[key_of(*ts)],
                None => !self.nodes().contains_key(key_of(*ts)),
            },
    ;

    fn get_mut_ts(&mut self, ts: &Ts) -> (r: Option<&mut CrdtNode>)
        ensures
            match r {
                Some(n) => old(self).nodes().contains_key(key_of(*ts)) && *n == old(self).nodes()[key_of(*ts)]
                    && final(self).nodes() == old(self).nodes().insert(key_of(*ts), *final(n)),
                None => !old(self).nodes().contains_key(key_of(*ts)) && final(self).nodes() == old(self).nodes(),
            },
    ;

    fn insert_node(&mut self, ts: Ts, node: CrdtNode)
        ensures
            final(self).nodes() == old(self).nodes().insert(key_of(ts), node),
    ;

    fn remove_node(&mut self, ts: &Ts) -> (r: Option<CrdtNode>)
        ensures
            final(self).nodes() == old(self).nodes().remove(key_of(*ts)),
            match r {
                Some(n) => old(self).nodes().contains_key(key_of(*ts)) && n == old(self).nodes()[key_of(*ts)],
                None => !old(self).nodes().contains_key(key_of(*ts)),
            },
    ;

    fn contains_ts(&self, ts: &Ts) -> (r: bool)
        ensures
            r == self.nodes().contains_key(key_of(*ts)),
    ;
}

impl IndexExt for NodeIndex {
    open spec fn nodes(&self) -> Map<(u64, u64), CrdtNode> {
        self@
    }

    fn get(&self, ts: &Ts) -> (r: Option<&CrdtNode>) {
        broadcast use vstd::std_specs::btree::group_btree_axioms;
        broadcast use vstd::laws_cmp::group_laws_cmp;

        self.get(&node_key(*ts))
    }

    fn get_mut_ts(&mut self, ts: &Ts) -> (r: Option<&mut CrdtNode>) {
        index_get_mut(self, node_key(*ts))
    }

    fn insert_node(&mut self, ts: Ts, node: CrdtNode) {
        broadcast use vstd::std_specs::btree::group_btree_axioms;
        broadcast use vstd::laws_cmp::group_laws_cmp;

        self.insert(node_key(ts), node);
    }

    fn remove_node(&mut self, ts: &Ts) -> (r: Option<CrdtNode>) {
        broadcast use vstd::std_specs::btree::group_btree_axioms;
        broadcast use vstd::laws_cmp::group_laws_cmp;

        self.remove(&node_key(*ts))
    }

    fn contains_ts(&self, ts: &Ts) -> (r: bool) {
        broadcast use vstd::std_specs::btree::group_btree_axioms;
        broadcast use vstd::laws_cmp::group_laws_cmp;

        self.contains_key(&node_key(*ts))
    }
}

} // verus!
