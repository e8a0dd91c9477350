//! Left-leaning red-black tree over an arena of nodes.
//!
//! Nodes live in an arena and refer to each other by index; an index, once
//! handed out, keeps naming the same entry.  The tree's contents are its
//! entries in key order.
use vstd::prelude::*;
use crate::sorted_map::{SortedKey, Natural, sorted, set_view, erase_view, lookup, has_key, lower_pos, is_lower_pos};
use crate::sorted_map::{lemma_lower_pos_unique, lemma_lookup_at, lemma_lookup_absent};
use crate::tree::{Node, Shape, in_tree, node_ok, tree_ok, first_in, last_in, next_in};

verus! {

/// A tree node.
#[derive(Clone, Debug)]
pub struct LlrbNode<K, V> {
    pub p: Option<u32>,
    pub l: Option<u32>,
    pub r: Option<u32>,
    pub k: K,
    pub v: V,
    /// `false` = red, `true` = black.
    pub b: bool,
}

impl<K, V> LlrbNode<K, V> {
    fn new(k: K, v: V, b: bool) -> (r: Self)
        ensures
            r.p is None && r.l is None && r.r is None,
            r.k == k && r.v == v && r.b == b,
    {
        Self { p: None, l: None, r: None, k, v, b }
    }
}

impl<K, V> Node for LlrbNode<K, V> {
    open spec fn parent(&self) -> Option<u32> {
        self.p
    }

    open spec fn left(&self) -> Option<u32> {
        self.l
    }

    open spec fn right(&self) -> Option<u32> {
        self.r
    }

    fn p(&self) -> (r: Option<u32>) {
        self.p
    }

    fn l(&self) -> (r: Option<u32>) {
        self.l
    }

    fn r(&self) -> (r: Option<u32>) {
        self.r
    }

    fn set_p(&mut self, v: Option<u32>) {
        self.p = v;
    }

    fn set_l(&mut self, v: Option<u32>) {
        self.l = v;
    }

    fn set_r(&mut self, v: Option<u32>) {
        self.r = v;
    }
}

/// The entries of the tree's nodes, in order.
pub open spec fn entries_of<K, V>(a: Seq<LlrbNode<K, V>>, s: Shape) -> Seq<(K, V)> {
    s.order.map_values(|x: u32| (a[x as int].k, a[x as int].v))
}

/// Keys strictly increase along the in-order sequence.
pub open spec fn keys_sorted<K: SortedKey<C>, V, C>(a: Seq<LlrbNode<K, V>>, s: Shape) -> bool {
    sorted::<_, _, C>(entries_of(a, s))
}

/// Red node `x` (unless it is `e`) is the left child of a black node.
pub open spec fn red_node_ok<K, V>(a: Seq<LlrbNode<K, V>>, e: Option<u32>, x: u32) -> bool {
    !a[x as int].b && e != Some(x) ==> match a[x as int].p {
        Some(q) => a[q as int].l == Some(x) && a[q as int].b,
        None => false,
    }
}

/// Every red node except possibly `e` leans left under a black parent (so
/// the root, having no parent, is black unless it is `e`).
pub open spec fn red_ok<K, V>(a: Seq<LlrbNode<K, V>>, s: Shape, e: Option<u32>) -> bool {
    forall|x: u32| in_tree(s, x) ==> #[trigger] red_node_ok(a, e, x)
}

/// The black height that `h` gives the (possibly empty) subtree at `c`.
pub open spec fn child_bh(h: Map<u32, nat>, c: Option<u32>) -> nat {
    match c {
        Some(x) => h[x],
        None => 0,
    }
}

/// Both subtrees of node `x` have the black height `h` gives them, and `x`
/// has theirs, plus one when it is black.
pub open spec fn bh_node_ok<K, V>(a: Seq<LlrbNode<K, V>>, h: Map<u32, nat>, x: u32) -> bool {
    &&& child_bh(h, a[x as int].l) == child_bh(h, a[x as int].r)
    &&& h[x] == child_bh(h, a[x as int].l) + if a[x as int].b { 1nat } else { 0nat }
}

/// Every path down from a node meets the same number of black nodes: `h`
/// gives each node of the tree its black height.
pub open spec fn balanced<K, V>(a: Seq<LlrbNode<K, V>>, s: Shape, h: Map<u32, nat>) -> bool {
    forall|x: u32| in_tree(s, x) ==> #[trigger] bh_node_ok(a, h, x)
}

/// Well-formedness of a tree given by its parts.
pub open spec fn wf_parts<K: SortedKey<C>, V, C>(
    a: Seq<LlrbNode<K, V>>,
    root: Option<u32>,
    s: Shape,
    size: usize,
    min: Option<u32>,
    max: Option<u32>,
) -> bool {
    &&& tree_ok(a, root, s)
    &&& keys_sorted::<_, _, C>(a, s)
    &&& red_ok(a, s, None)
    &&& a.len() <= u32::MAX
    &&& root is Some ==> {
        &&& size == s.order.len()
        &&& size <= a.len()
        &&& min == Some(s.order[0])
        &&& max == Some(s.order.last())
    }
}

/// Node `n` holding value `v`.
pub open spec fn with_value<K, V>(n: LlrbNode<K, V>, v: V) -> LlrbNode<K, V> {
    LlrbNode { v: v, ..n }
}

/// Values play no part in well-formedness.
proof fn lemma_value_irrelevant<K: SortedKey<C>, V, C>(
    a: Seq<LlrbNode<K, V>>,
    root: Option<u32>,
    s: Shape,
    size: usize,
    min: Option<u32>,
    max: Option<u32>,
    idx: int,
)
    requires
        wf_parts::<_, _, C>(a, root, s, size, min, max),
        0 <= idx < a.len(),
    ensures
        forall|v: V| wf_parts::<_, _, C>(a.update(idx, #[trigger] with_value(a[idx], v)), root, s, size, min, max),
{
    assert forall|v: V| wf_parts::<_, _, C>(a.update(idx, #[trigger] with_value(a[idx], v)), root, s, size, min, max) by {
        let b = a.update(idx, with_value(a[idx], v));
        lemma_same_links(a, b, root, s);
        assert forall|x: u32| in_tree(s, x) implies #[trigger] red_node_ok(b, None, x) by {
            assert(red_node_ok(a, None, x));
            assert(node_ok(a, root, s, x));
            if let Some(q) = a[x as int].p {
                assert(node_ok(a, root, s, q));
            }
        }
        lemma_order_in_arena(a, root, s);
        let ea = entries_of(a, s);
        let eb = entries_of(b, s);
        assert forall|i: int, j: int| 0 <= i < j < eb.len() implies (#[trigger] eb[i]).0.key_lt((#[trigger] eb[j]).0) by {
            assert(ea[i].0.key_lt(ea[j].0));
        }
    }
}

/// Balance depends only on the links and colours of the tree's nodes.
proof fn lemma_balance_kept<K, V>(a: Seq<LlrbNode<K, V>>, b: Seq<LlrbNode<K, V>>, root: Option<u32>, s: Shape, h: Map<u32, nat>)
    requires
        tree_ok(a, root, s),
        balanced(a, s, h),
        a.len() <= b.len(),
        forall|i: int| 0 <= i < a.len() ==> (#[trigger] b[i]).l == a[i].l && b[i].r == a[i].r && b[i].b == a[i].b,
    ensures
        balanced(b, s, h),
{
    assert forall|x: u32| in_tree(s, x) implies #[trigger] bh_node_ok(b, h, x) by {
        assert(node_ok(a, root, s, x));
        assert(bh_node_ok(a, h, x));
        assert(b[x as int].l == a[x as int].l && b[x as int].r == a[x as int].r && b[x as int].b == a[x as int].b);
    }
}

/// The left-leaning red-black tree, its keys ordered by the comparator `C`.
pub struct LlrbTree<K, V, C = Natural> {
    pub min: Option<u32>,
    pub root: Option<u32>,
    pub max: Option<u32>,
    _size: usize,
    pub comparator: C,
    arena: Vec<LlrbNode<K, V>>,
    shape: Ghost<Shape>,
    heights: Ghost<Map<u32, nat>>,
}

impl<K: SortedKey<C>, V, C> View for LlrbTree<K, V, C> {
    type V = Seq<(K, V)>;

    closed spec fn view(&self) -> Seq<(K, V)> {
        entries_of(self.arena@, self.shape@)
    }
}

impl<K: SortedKey<C>, V, C> LlrbTree<K, V, C> {
    /// The tree's nodes, in key order.
    pub closed spec fn order(&self) -> Seq<u32> {
        self.shape@.order
    }

    /// The in-order position of node `x`.
    pub closed spec fn position(&self, x: u32) -> int {
        self.shape@.pos[x]
    }

    /// The arena's nodes.
    pub closed spec fn nodes(&self) -> Seq<LlrbNode<K, V>> {
        self.arena@
    }

    /// The root node.
    pub closed spec fn root_node(&self) -> Option<u32> {
        self.root
    }

    /// The recorded first node.
    pub closed spec fn min_node(&self) -> Option<u32> {
        self.min
    }

    /// The recorded last node.
    pub closed spec fn max_node(&self) -> Option<u32> {
        self.max
    }

    /// The size the tree records.
    pub closed spec fn stored_size(&self) -> nat {
        self._size as nat
    }

    /// Well-formedness: the arena holds a binary search tree over the
    /// in-order nodes, red nodes lean left under black parents, every path
    /// down from a node meets the same number of black nodes, and when the
    /// tree is not empty its size and its first and last nodes are
    /// recorded.
    pub closed spec fn wf(&self) -> bool {
        &&& wf_parts::<_, _, C>(self.arena@, self.root, self.shape@, self._size, self.min, self.max)
        &&& balanced(self.arena@, self.shape@, self.heights@)
    }


    proof fn lemma_view(&self)
        ensures
            self@.len() == self.shape@.order.len(),
            forall|i: int|
                0 <= i < self@.len() ==> #[trigger] self@[i] == (
                    self.arena@[self.shape@.order[i] as int].k,
                    self.arena@[self.shape@.order[i] as int].v,
                ),
    {
    }

    /// An empty tree whose keys `comparator` orders.
    pub fn with_comparator(comparator: C) -> (r: Self)
        ensures
            r.wf(),
            r@ == Seq::<(K, V)>::empty(),
            r.root_node() is None,
            r.stored_size() == 0,
            r.nodes().len() == 0,
    {
        let r = Self {
            min: None,
            root: None,
            max: None,
            _size: 0,
            comparator,
            arena: Vec::new(),
            shape: Ghost(Shape { order: Seq::empty(), pos: Map::empty(), lo: Map::empty(), hi: Map::empty() }),
            heights: Ghost(Map::empty()),
        };
        assert(r@ =~= Seq::<(K, V)>::empty());
        r
    }

    /// The node holding `key`.
    pub fn find(&self, key: &K) -> (r: Option<u32>)
        requires
            self.wf(),
        ensures
            match r {
                Some(i) => (i as int) < self.nodes().len() && self.order().contains(i) && lookup::<_, _, C>(self@, *key) == Some(
                    self.nodes()[i as int].v,
                ) && self.nodes()[i as int].k == *key,
                None => lookup::<_, _, C>(self@, *key) is None,
            },
    {
        let ghost s = self.shape@;
        let ghost e = self@;
        proof {
            self.lemma_view();
        }
        let mut curr = self.root;
        while curr.is_some()
            invariant
                self.wf(),
                s == self.shape@,
                e == self@,
                e.len() == s.order.len(),
                curr matches Some(c) ==> in_tree(s, c),
                forall|j: int| 0 <= j < e.len() && (#[trigger] e[j]).0 == *key ==> match curr {
                    Some(c) => s.lo[c] <= j < s.hi[c],
                    None => false,
                },
            decreases (match curr {
                Some(c) => s.hi[c] - s.lo[c],
                None => 0,
            }),
        {
            let i = curr.unwrap();
            assert(node_ok(self.arena@, self.root, s, i));
            let sign = key.compare_key(&self.arena[i as usize].k);
            let ghost pi = s.pos[i];
            assert(e[pi] == (self.arena@[i as int].k, self.arena@[i as int].v));
            if sign == 0 {
                proof {
                    lemma_lookup_at::<_, _, C>(e, pi);
                    assert(s.order[pi] == i);
                }
                return Some(i);
            }
            let nxt = if sign < 0 {
                self.arena[i as usize].l
            } else {
                self.arena[i as usize].r
            };
            proof {
                if let Some(c) = nxt {
                    assert(node_ok(self.arena@, self.root, s, c));
                }
                assert forall|j: int| 0 <= j < e.len() && (#[trigger] e[j]).0 == *key implies match nxt {
                    Some(c) => s.lo[c] <= j < s.hi[c],
                    None => false,
                } by {
                    K::lemma_key_order(*key, *key, *key);
                    if j < pi {
                        assert(e[j].0.key_lt(e[pi].0));
                    } else if j > pi {
                        assert(e[pi].0.key_lt(e[j].0));
                    }
                }
            }
            curr = nxt;
        }
        proof {
            lemma_lookup_absent::<_, _, C>(e, *key);
        }
        None
    }
}

/// The fix-up state at red node `n`: a tree whose red nodes other than `n`
/// lean left under black parents, with `n` red and its children black.
pub open spec fn fix_ok<K, V>(a: Seq<LlrbNode<K, V>>, root: Option<u32>, s: Shape, n: u32) -> bool {
    &&& tree_ok(a, root, s)
    &&& red_ok(a, s, Some(n))
    &&& in_tree(s, n)
    &&& !a[n as int].b
    &&& (a[n as int].l matches Some(c) ==> a[c as int].b)
    &&& (a[n as int].r matches Some(c) ==> a[c as int].b)
}

/// Two arenas hold the same keys and values everywhere.
pub open spec fn same_entries<K, V>(a: Seq<LlrbNode<K, V>>, b: Seq<LlrbNode<K, V>>) -> bool {
    &&& a.len() == b.len()
    &&& forall|i: int| 0 <= i < a.len() ==> (#[trigger] a[i]).k == b[i].k && a[i].v == b[i].v
}

/// The number of positions the subtree at `x` covers.
pub open spec fn subtree_size(s: Shape, x: u32) -> int {
    s.hi[x] - s.lo[x]
}

impl<K: SortedKey<C>, V, C> LlrbTree<K, V, C> {
    fn put_p(&mut self, x: u32, v: Option<u32>)
        requires
            (x as int) < old(self).arena@.len(),
        ensures
            final(self).arena@ == old(self).arena@.update(x as int, LlrbNode { p: v, ..old(self).arena@[x as int] }),
            final(self).root == old(self).root,
            final(self).min == old(self).min,
            final(self).max == old(self).max,
            final(self)._size == old(self)._size,
            final(self).shape == old(self).shape,
            final(self).heights == old(self).heights,
    {
        self.arena[x as usize].p = v;
    }

    fn put_l(&mut self, x: u32, v: Option<u32>)
        requires
            (x as int) < old(self).arena@.len(),
        ensures
            final(self).arena@ == old(self).arena@.update(x as int, LlrbNode { l: v, ..old(self).arena@[x as int] }),
            final(self).root == old(self).root,
            final(self).min == old(self).min,
            final(self).max == old(self).max,
            final(self)._size == old(self)._size,
            final(self).shape == old(self).shape,
            final(self).heights == old(self).heights,
    {
        self.arena[x as usize].l = v;
    }

    fn put_r(&mut self, x: u32, v: Option<u32>)
        requires
            (x as int) < old(self).arena@.len(),
        ensures
            final(self).arena@ == old(self).arena@.update(x as int, LlrbNode { r: v, ..old(self).arena@[x as int] }),
            final(self).root == old(self).root,
            final(self).min == old(self).min,
            final(self).max == old(self).max,
            final(self)._size == old(self)._size,
            final(self).shape == old(self).shape,
            final(self).heights == old(self).heights,
    {
        self.arena[x as usize].r = v;
    }

    fn put_b(&mut self, x: u32, v: bool)
        requires
            (x as int) < old(self).arena@.len(),
        ensures
            same_links(old(self).arena@, final(self).arena@),
            final(self).arena@ == old(self).arena@.update(x as int, LlrbNode { b: v, ..old(self).arena@[x as int] }),
            final(self).root == old(self).root,
            final(self).min == old(self).min,
            final(self).max == old(self).max,
            final(self)._size == old(self)._size,
            final(self).shape == old(self).shape,
            final(self).heights == old(self).heights,
    {
        self.arena[x as usize].b = v;
    }

    /// Links the detached node `node` as the left (or right) child of
    /// `parent`, whose child on that side is empty: the node takes the
    /// in-order position just before (or after) `parent`.
    fn attach(&mut self, parent: u32, node: u32, left: bool)
        requires
            tree_ok(old(self).arena@, old(self).root, old(self).shape@),
            in_tree(old(self).shape@, parent),
            !in_tree(old(self).shape@, node),
            (node as int) < old(self).arena@.len(),
            old(self).arena@[node as int].p is None,
            old(self).arena@[node as int].l is None,
            old(self).arena@[node as int].r is None,
            left ==> old(self).arena@[parent as int].l is None,
            !left ==> old(self).arena@[parent as int].r is None,
            !old(self).arena@[node as int].b,
            balanced(old(self).arena@, old(self).shape@, old(self).heights@),
        ensures
            tree_ok(final(self).arena@, final(self).root, final(self).shape@),
            final(self).shape@.order == old(self).shape@.order.insert(
                if left { old(self).shape@.pos[parent] } else { old(self).shape@.pos[parent] + 1 },
                node,
            ),
            final(self).arena@.len() == old(self).arena@.len(),
            forall|m: u32| #[trigger] in_tree(final(self).shape@, m) <==> (in_tree(old(self).shape@, m) || m == node),
            forall|i: int| 0 <= i < final(self).arena@.len() && i != node && i != parent ==> #[trigger] final(self).arena@[i] == old(self).arena@[i],
            final(self).arena@[node as int] == (LlrbNode { p: Some(parent), ..old(self).arena@[node as int] }),
            final(self).arena@[parent as int] == (if left {
                LlrbNode { l: Some(node), ..old(self).arena@[parent as int] }
            } else {
                LlrbNode { r: Some(node), ..old(self).arena@[parent as int] }
            }),
            final(self).root == old(self).root,
            final(self).min == old(self).min,
            final(self).max == old(self).max,
            final(self)._size == old(self)._size,
            final(self).heights@ == old(self).heights@.insert(node, 0),
            balanced(final(self).arena@, final(self).shape@, final(self).heights@),
    {
        let ghost s = self.shape@;
        let ghost a = self.arena@;
        let ghost root = self.root;
        let ghost h = self.heights@;
        proof {
            assert(node_ok(a, root, s, parent));
        }
        let ghost t: int = if left { s.pos[parent] } else { s.pos[parent] + 1 };
        let ghost dom = s.pos.dom().insert(node);
        let ghost s2 = Shape {
            order: s.order.insert(t, node),
            pos: Map::new(
                |m: u32| dom.contains(m),
                |m: u32| if m == node { t } else if s.pos[m] >= t { s.pos[m] + 1 } else { s.pos[m] },
            ),
            lo: Map::new(
                |m: u32| dom.contains(m),
                |m: u32| if m == node { t } else if (if left { s.lo[m] > t } else { s.lo[m] >= t }) { s.lo[m] + 1 } else { s.lo[m] },
            ),
            hi: Map::new(
                |m: u32| dom.contains(m),
                |m: u32| if m == node { t + 1 } else if (if left { s.hi[m] > t } else { s.hi[m] >= t }) { s.hi[m] + 1 } else { s.hi[m] },
            ),
        };
        if left {
            self.put_l(parent, Some(node));
        } else {
            self.put_r(parent, Some(node));
        }
        self.put_p(node, Some(parent));
        self.shape = Ghost(s2);
        self.heights = Ghost(h.insert(node, 0));
        proof {
            let a2 = self.arena@;
            assert(s2.pos.dom() =~= dom);
            assert forall|i: int| 0 <= i < s2.order.len() implies in_tree(s2, #[trigger] s2.order[i]) && s2.pos[s2.order[i]] == i by {
                if i < t {
                    assert(s2.order[i] == s.order[i]);
                } else if i > t {
                    assert(s2.order[i] == s.order[i - 1]);
                }
            }
            assert forall|m: u32| in_tree(s2, m) implies #[trigger] node_ok(a2, root, s2, m) by {
                if m != node {
                    assert(node_ok(a, root, s, m));
                    if s.pos[m] >= t {
                        assert(s2.order[s.pos[m] + 1] == s.order[s.pos[m]]);
                    } else {
                        assert(s2.order[s.pos[m]] == s.order[s.pos[m]]);
                    }
                    match a[m as int].l {
                        Some(c) => { assert(node_ok(a, root, s, c)); },
                        None => {},
                    }
                    match a[m as int].r {
                        Some(c) => { assert(node_ok(a, root, s, c)); },
                        None => {},
                    }
                    match a[m as int].p {
                        Some(q) => { assert(node_ok(a, root, s, q)); },
                        None => {},
                    }
                }
            }
            match root {
                Some(r) => { assert(node_ok(a, root, s, r)); },
                None => {},
            }
            let h2 = self.heights@;
            assert forall|m: u32| in_tree(s2, m) implies #[trigger] bh_node_ok(a2, h2, m) by {
                if m != node {
                    assert(bh_node_ok(a, h, m));
                    assert(node_ok(a, root, s, m));
                    if let Some(c) = a[m as int].l {
                        assert(node_ok(a, root, s, c));
                    }
                    if let Some(c) = a[m as int].r {
                        assert(node_ok(a, root, s, c));
                    }
                }
            }
        }
    }
}

/// The arenas agree on keys, values and colours everywhere.
pub open spec fn same_payload<K, V>(a: Seq<LlrbNode<K, V>>, b: Seq<LlrbNode<K, V>>) -> bool {
    &&& a.len() == b.len()
    &&& forall|i: int| 0 <= i < a.len() ==> (#[trigger] a[i]).k == b[i].k && a[i].v == b[i].v && a[i].b == b[i].b
}

impl<K: SortedKey<C>, V, C> LlrbTree<K, V, C> {
    /// Replaces `old` by `new` as the child of `gp` (or as the root when
    /// `gp` is none).
    fn replace_child(&mut self, gp: Option<u32>, was: u32, new: u32)
        requires
            gp matches Some(q) ==> (q as int) < old(self).arena@.len(),
        ensures
            match gp {
                Some(q) => {
                    &&& final(self).root == old(self).root
                    &&& final(self).arena@ == old(self).arena@.update(
                        q as int,
                        if old(self).arena@[q as int].l == Some(was) {
                            LlrbNode { l: Some(new), ..old(self).arena@[q as int] }
                        } else {
                            LlrbNode { r: Some(new), ..old(self).arena@[q as int] }
                        },
                    )
                },
                None => final(self).root == Some(new) && final(self).arena@ == old(self).arena@,
            },
            final(self).min == old(self).min,
            final(self).max == old(self).max,
            final(self)._size == old(self)._size,
            final(self).shape == old(self).shape,
            final(self).heights == old(self).heights,
    {
        match gp {
            Some(q) => {
                if self.arena[q as usize].l == Some(was) {
                    self.put_l(q, Some(new));
                } else {
                    self.put_r(q, Some(new));
                }
            },
            None => {
                self.root = Some(new);
            },
        }
    }

    /// Rotates right at `g`: its left child `p` takes its place and `g`
    /// becomes `p`'s right child, taking over `p`'s former right subtree.
    #[verifier::rlimit(50)]
    fn rotate_right(&mut self, g: u32) -> (p: u32)
        requires
            tree_ok(old(self).arena@, old(self).root, old(self).shape@),
            in_tree(old(self).shape@, g),
            old(self).arena@[g as int].l is Some,
        ensures
            p == old(self).arena@[g as int].l->0,
            tree_ok(final(self).arena@, final(self).root, final(self).shape@),
            final(self).shape@.order == old(self).shape@.order,
            final(self).shape@.pos == old(self).shape@.pos,
            final(self).shape@.lo[p] == old(self).shape@.lo[g],
            final(self).shape@.hi[p] == old(self).shape@.hi[g],
            same_payload(final(self).arena@, old(self).arena@),
            ({
                let a = old(self).arena@;
                let b = final(self).arena@;
                let s = a[p as int].r;
                let gp = a[g as int].p;
                &&& b[p as int].p == gp
                &&& b[p as int].l == a[p as int].l
                &&& b[p as int].r == Some(g)
                &&& b[g as int].p == Some(p)
                &&& b[g as int].l == s
                &&& b[g as int].r == a[g as int].r
                &&& (s matches Some(c) ==> b[c as int] == (LlrbNode { p: Some(g), ..a[c as int] }))
                &&& (gp matches Some(q) ==> b[q as int] == (if a[q as int].l == Some(g) {
                    LlrbNode { l: Some(p), ..a[q as int] }
                } else {
                    LlrbNode { r: Some(p), ..a[q as int] }
                }))
                &&& forall|i: int| 0 <= i < a.len() && i != p && i != g && Some(i as u32) != s && Some(i as u32) != gp
                    ==> #[trigger] b[i] == a[i]
            }),
            final(self).root == if old(self).root == Some(g) { Some(p) } else { old(self).root },
            final(self).heights == old(self).heights,
            final(self).min == old(self).min,
            final(self).max == old(self).max,
            final(self)._size == old(self)._size,
    {
        let ghost s0 = self.shape@;
        let ghost a = self.arena@;
        let ghost root = self.root;
        proof {
            assert(node_ok(a, root, s0, g));
        }
        let p = self.arena[g as usize].l.unwrap();
        proof {
            assert(node_ok(a, root, s0, p));
        }
        let sub = self.arena[p as usize].r;
        let gp = self.arena[g as usize].p;
        proof {
            if let Some(c) = sub {
                assert(node_ok(a, root, s0, c));
            }
            if let Some(q) = gp {
                assert(node_ok(a, root, s0, q));
            }
        }
        self.put_p(p, gp);
        self.put_r(p, Some(g));
        self.put_p(g, Some(p));
        self.put_l(g, sub);
        if let Some(c) = sub {
            self.put_p(c, Some(g));
        }
        self.replace_child(gp, g, p);
        let ghost s2 = Shape {
            order: s0.order,
            pos: s0.pos,
            lo: s0.lo.insert(p, s0.lo[g]).insert(g, s0.pos[p] + 1),
            hi: s0.hi.insert(p, s0.hi[g]).insert(g, s0.hi[g]),
        };
        self.shape = Ghost(s2);
        proof {
            let b = self.arena@;
            assert forall|m: u32| in_tree(s2, m) implies #[trigger] node_ok(b, self.root, s2, m) by {
                assert(node_ok(a, root, s0, m));
                match a[m as int].l {
                    Some(c) => { assert(node_ok(a, root, s0, c)); },
                    None => {},
                }
                match a[m as int].r {
                    Some(c) => { assert(node_ok(a, root, s0, c)); },
                    None => {},
                }
                match a[m as int].p {
                    Some(q) => { assert(node_ok(a, root, s0, q)); },
                    None => {},
                }
            }
            match root {
                Some(r) => { assert(node_ok(a, root, s0, r)); },
                None => {},
            }
        }
        p
    }

    /// Rotates left at `p`: its right child `n` takes its place and `p`
    /// becomes `n`'s left child, taking over `n`'s former left subtree.
    #[verifier::rlimit(50)]
    fn rotate_left(&mut self, p: u32) -> (n: u32)
        requires
            tree_ok(old(self).arena@, old(self).root, old(self).shape@),
            in_tree(old(self).shape@, p),
            old(self).arena@[p as int].r is Some,
        ensures
            n == old(self).arena@[p as int].r->0,
            tree_ok(final(self).arena@, final(self).root, final(self).shape@),
            final(self).shape@.order == old(self).shape@.order,
            final(self).shape@.pos == old(self).shape@.pos,
            final(self).shape@.lo[n] == old(self).shape@.lo[p],
            final(self).shape@.hi[n] == old(self).shape@.hi[p],
            same_payload(final(self).arena@, old(self).arena@),
            ({
                let a = old(self).arena@;
                let b = final(self).arena@;
                let nl = a[n as int].l;
                let gp = a[p as int].p;
                &&& b[n as int].p == gp
                &&& b[n as int].r == a[n as int].r
                &&& b[n as int].l == Some(p)
                &&& b[p as int].p == Some(n)
                &&& b[p as int].r == nl
                &&& b[p as int].l == a[p as int].l
                &&& (nl matches Some(c) ==> b[c as int] == (LlrbNode { p: Some(p), ..a[c as int] }))
                &&& (gp matches Some(q) ==> b[q as int] == (if a[q as int].l == Some(p) {
                    LlrbNode { l: Some(n), ..a[q as int] }
                } else {
                    LlrbNode { r: Some(n), ..a[q as int] }
                }))
                &&& forall|i: int| 0 <= i < a.len() && i != p && i != n && Some(i as u32) != nl && Some(i as u32) != gp
                    ==> #[trigger] b[i] == a[i]
            }),
            final(self).root == if old(self).root == Some(p) { Some(n) } else { old(self).root },
            final(self).heights == old(self).heights,
            final(self).min == old(self).min,
            final(self).max == old(self).max,
            final(self)._size == old(self)._size,
    {
        let ghost s0 = self.shape@;
        let ghost a = self.arena@;
        let ghost root = self.root;
        proof {
            assert(node_ok(a, root, s0, p));
        }
        let n = self.arena[p as usize].r.unwrap();
        proof {
            assert(node_ok(a, root, s0, n));
        }
        let nl = self.arena[n as usize].l;
        let gp = self.arena[p as usize].p;
        proof {
            if let Some(c) = nl {
                assert(node_ok(a, root, s0, c));
            }
            if let Some(q) = gp {
                assert(node_ok(a, root, s0, q));
            }
        }
        self.put_p(n, gp);
        self.put_l(n, Some(p));
        self.put_p(p, Some(n));
        self.put_r(p, nl);
        if let Some(c) = nl {
            self.put_p(c, Some(p));
        }
        self.replace_child(gp, p, n);
        let ghost s2 = Shape {
            order: s0.order,
            pos: s0.pos,
            lo: s0.lo.insert(n, s0.lo[p]).insert(p, s0.lo[p]),
            hi: s0.hi.insert(n, s0.hi[p]).insert(p, s0.pos[n]),
        };
        self.shape = Ghost(s2);
        proof {
            let b = self.arena@;
            assert forall|m: u32| in_tree(s2, m) implies #[trigger] node_ok(b, self.root, s2, m) by {
                assert(node_ok(a, root, s0, m));
                match a[m as int].l {
                    Some(c) => { assert(node_ok(a, root, s0, c)); },
                    None => {},
                }
                match a[m as int].r {
                    Some(c) => { assert(node_ok(a, root, s0, c)); },
                    None => {},
                }
                match a[m as int].p {
                    Some(q) => { assert(node_ok(a, root, s0, q)); },
                    None => {},
                }
            }
            match root {
                Some(r) => { assert(node_ok(a, root, s0, r)); },
                None => {},
            }
        }
        n
    }
}

/// Two arenas with the same links everywhere.
pub open spec fn same_links<K, V>(a: Seq<LlrbNode<K, V>>, b: Seq<LlrbNode<K, V>>) -> bool {
    &&& a.len() == b.len()
    &&& links_kept(a, b)
}

/// `b` keeps the links of every node of `a` (it may have more nodes).
pub open spec fn links_kept<K, V>(a: Seq<LlrbNode<K, V>>, b: Seq<LlrbNode<K, V>>) -> bool {
    &&& a.len() <= b.len()
    &&& forall|i: int| 0 <= i < a.len() ==> (#[trigger] a[i]).p == b[i].p && a[i].l == b[i].l && a[i].r == b[i].r
}

/// The tree's nodes are arena nodes.
proof fn lemma_order_in_arena<K, V>(a: Seq<LlrbNode<K, V>>, root: Option<u32>, s: Shape)
    requires
        tree_ok(a, root, s),
    ensures
        forall|i: int| 0 <= i < s.order.len() ==> (#[trigger] s.order[i] as int) < a.len(),
        forall|x: u32| in_tree(s, x) ==> (x as int) < a.len(),
{
    assert forall|i: int| 0 <= i < s.order.len() implies (#[trigger] s.order[i] as int) < a.len() by {
        assert(in_tree(s, s.order[i]));
        assert(node_ok(a, root, s, s.order[i]));
    }
    assert forall|x: u32| in_tree(s, x) implies (x as int) < a.len() by {
        assert(node_ok(a, root, s, x));
    }
}

/// Changing a node outside the tree keeps the tree and its colour rules.
proof fn lemma_outside_change<K, V>(a: Seq<LlrbNode<K, V>>, b: Seq<LlrbNode<K, V>>, root: Option<u32>, s: Shape, x: u32)
    requires
        tree_ok(a, root, s),
        !in_tree(s, x),
        (x as int) < a.len(),
        b.len() == a.len(),
        forall|i: int| 0 <= i < a.len() && i != x ==> #[trigger] b[i] == a[i],
    ensures
        tree_ok(b, root, s),
        red_ok(a, s, None) ==> red_ok(b, s, None),
        forall|h: Map<u32, nat>| balanced(a, s, h) ==> #[trigger] balanced(b, s, h),
{
    assert forall|h: Map<u32, nat>| balanced(a, s, h) implies #[trigger] balanced(b, s, h) by {
        assert forall|m: u32| in_tree(s, m) implies #[trigger] bh_node_ok(b, h, m) by {
            assert(node_ok(a, root, s, m));
            assert(bh_node_ok(a, h, m));
        }
    }
    assert forall|m: u32| in_tree(s, m) implies #[trigger] node_ok(b, root, s, m) by {
        assert(node_ok(a, root, s, m));
        if let Some(c) = a[m as int].l {
            assert(node_ok(a, root, s, c));
        }
        if let Some(c) = a[m as int].r {
            assert(node_ok(a, root, s, c));
        }
        if let Some(q) = a[m as int].p {
            assert(node_ok(a, root, s, q));
        }
    }
    if let Some(r) = root {
        assert(node_ok(a, root, s, r));
    }
    if red_ok(a, s, None) {
        assert forall|m: u32| in_tree(s, m) implies #[trigger] red_node_ok(b, None, m) by {
            assert(red_node_ok(a, None, m));
            assert(node_ok(a, root, s, m));
            if let Some(q) = a[m as int].p {
                assert(node_ok(a, root, s, q));
            }
        }
    }
}

/// Colours, keys and values do not matter to the tree's shape.
proof fn lemma_same_links<K, V>(a: Seq<LlrbNode<K, V>>, b: Seq<LlrbNode<K, V>>, root: Option<u32>, s: Shape)
    requires
        tree_ok(a, root, s),
        links_kept(a, b),
    ensures
        tree_ok(b, root, s),
{
    assert forall|m: u32| in_tree(s, m) implies #[trigger] node_ok(b, root, s, m) by {
        assert(node_ok(a, root, s, m));
        assert(a[m as int].p == b[m as int].p && a[m as int].l == b[m as int].l && a[m as int].r == b[m as int].r);
        if let Some(c) = a[m as int].l {
            assert(node_ok(a, root, s, c));
            assert(a[c as int].p == b[c as int].p);
        }
        if let Some(c) = a[m as int].r {
            assert(node_ok(a, root, s, c));
            assert(a[c as int].p == b[c as int].p);
        }
        if let Some(q) = a[m as int].p {
            assert(node_ok(a, root, s, q));
            assert(a[q as int].l == b[q as int].l && a[q as int].r == b[q as int].r);
        }
    }
    if let Some(r) = root {
        assert(node_ok(a, root, s, r));
    }
}

impl<K: SortedKey<C>, V, C> LlrbTree<K, V, C> {
    /// `after` is `before` with its colours fixed: the same entries in the
    /// same order, a valid tree whose red nodes all lean left under black
    /// parents.
    closed spec fn fixed(before: Self, after: Self) -> bool {
        &&& tree_ok(after.arena@, after.root, after.shape@)
        &&& red_ok(after.arena@, after.shape@, None)
        &&& balanced(after.arena@, after.shape@, after.heights@)
        &&& after.shape@.order == before.shape@.order
        &&& same_entries(after.arena@, before.arena@)
        &&& after.min == before.min
        &&& after.max == before.max
        &&& after._size == before._size
    }

    proof fn lemma_child_smaller(&self, x: u32, c: u32)
        requires
            tree_ok(self.arena@, self.root, self.shape@),
            in_tree(self.shape@, x),
            self.arena@[x as int].l == Some(c) || self.arena@[x as int].r == Some(c),
        ensures
            in_tree(self.shape@, c),
            subtree_size(self.shape@, c) < subtree_size(self.shape@, x),
            subtree_size(self.shape@, x) <= self.shape@.order.len(),
    {
        assert(node_ok(self.arena@, self.root, self.shape@, x));
        assert(node_ok(self.arena@, self.root, self.shape@, c));
    }

    /// Red `n` is the left child of red `p`: rotate right at `p`'s parent,
    /// blacken `n`, and go on fixing at `p`.
    fn _fix_rrb(&mut self, n: u32, p: u32)
        requires
            fix_ok(old(self).arena@, old(self).root, old(self).shape@, n),
            balanced(old(self).arena@, old(self).shape@, old(self).heights@),
            in_tree(old(self).shape@, p),
            old(self).arena@[p as int].l == Some(n),
            !old(self).arena@[p as int].b,
        ensures
            Self::fixed(*old(self), *final(self)),
        decreases old(self).shape@.order.len() - subtree_size(old(self).shape@, p), 0nat,
    {
        let ghost a = self.arena@;
        let ghost s0 = self.shape@;
        proof {
            assert(red_node_ok(a, Some(n), p));
            assert(node_ok(a, self.root, s0, p));
            assert(node_ok(a, self.root, s0, n));
        }
        let g = self.arena[p as usize].p.unwrap();
        proof {
            assert(node_ok(a, self.root, s0, g));
            self.lemma_child_smaller(g, p);
            if let Some(c) = a[p as int].r {
                assert(red_node_ok(a, Some(n), c));
            }
            if let Some(c) = a[g as int].r {
                assert(red_node_ok(a, Some(n), c));
                assert(node_ok(a, self.root, s0, c));
            }
        }
        let _ = self.rotate_right(g);
        let ghost a1 = self.arena@;
        self.put_b(n, true);
        proof {
            let b = self.arena@;
            let s1 = self.shape@;
            lemma_same_links(a1, b, self.root, s1);
            assert forall|x: u32| in_tree(s1, x) implies #[trigger] red_node_ok(b, Some(p), x) by {
                assert(red_node_ok(a, Some(n), x));
                assert(node_ok(a, old(self).root, s0, x));
                if let Some(q) = a[x as int].p {
                    assert(node_ok(a, old(self).root, s0, q));
                }
            }
            assert(node_ok(b, self.root, s1, p));
        }
        let ghost h = self.heights@;
        self.heights = Ghost(h.insert(n, h[n] + 1).insert(p, h[g]));
        proof {
            let b = self.arena@;
            let s1 = self.shape@;
            let h2 = self.heights@;
            assert(bh_node_ok(a, h, n));
            assert(bh_node_ok(a, h, p));
            assert(bh_node_ok(a, h, g));
            assert forall|x: u32| in_tree(s1, x) implies #[trigger] bh_node_ok(b, h2, x) by {
                assert(bh_node_ok(a, h, x));
                assert(node_ok(a, old(self).root, s0, x));
                if let Some(c) = a[x as int].l {
                    assert(node_ok(a, old(self).root, s0, c));
                }
                if let Some(c) = a[x as int].r {
                    assert(node_ok(a, old(self).root, s0, c));
                }
            }
        }
        self._fix(p);
    }

    /// Red `n` is the right child of black `p` whose left child is black:
    /// rotate left at `p` and swap their colours.
    fn _fix_bbr(&mut self, n: u32, p: u32)
        requires
            fix_ok(old(self).arena@, old(self).root, old(self).shape@, n),
            balanced(old(self).arena@, old(self).shape@, old(self).heights@),
            in_tree(old(self).shape@, p),
            old(self).arena@[p as int].r == Some(n),
            old(self).arena@[p as int].b,
            old(self).arena@[p as int].l matches Some(c) ==> old(self).arena@[c as int].b,
        ensures
            Self::fixed(*old(self), *final(self)),
    {
        let ghost a = self.arena@;
        let ghost s0 = self.shape@;
        proof {
            assert(node_ok(a, self.root, s0, p));
            assert(node_ok(a, self.root, s0, n));
        }
        let _ = self.rotate_left(p);
        let ghost a1 = self.arena@;
        self.put_b(p, false);
        let ghost a2 = self.arena@;
        self.put_b(n, true);
        let ghost h = self.heights@;
        self.heights = Ghost(h.insert(p, h[n]).insert(n, h[p]));
        proof {
            let b = self.arena@;
            let s1 = self.shape@;
            let h2 = self.heights@;
            assert(bh_node_ok(a, h, n));
            assert(bh_node_ok(a, h, p));
            if let Some(c) = a[p as int].l {
                assert(node_ok(a, old(self).root, s0, c));
                assert(bh_node_ok(a, h, c));
            }
            assert forall|x: u32| in_tree(s1, x) implies #[trigger] bh_node_ok(b, h2, x) by {
                assert(bh_node_ok(a, h, x));
                assert(node_ok(a, old(self).root, s0, x));
                if let Some(c) = a[x as int].l {
                    assert(node_ok(a, old(self).root, s0, c));
                }
                if let Some(c) = a[x as int].r {
                    assert(node_ok(a, old(self).root, s0, c));
                }
            }
        }
        proof {
            let b = self.arena@;
            let s1 = self.shape@;
            lemma_same_links(a1, a2, self.root, s1);
            lemma_same_links(a2, b, self.root, s1);
            assert forall|x: u32| in_tree(s1, x) implies #[trigger] red_node_ok(b, None, x) by {
                assert(red_node_ok(a, Some(n), x));
                assert(node_ok(a, old(self).root, s0, x));
                if let Some(q) = a[x as int].p {
                    assert(node_ok(a, old(self).root, s0, q));
                }
            }
        }
    }

    /// Red `n` is the right child of red `p` whose left child is black:
    /// rotate left at `p` and fix the resulting red pair.
    fn _fix_brr(&mut self, n: u32, p: u32)
        requires
            fix_ok(old(self).arena@, old(self).root, old(self).shape@, n),
            balanced(old(self).arena@, old(self).shape@, old(self).heights@),
            in_tree(old(self).shape@, p),
            old(self).arena@[p as int].r == Some(n),
            !old(self).arena@[p as int].b,
            old(self).arena@[p as int].l matches Some(c) ==> old(self).arena@[c as int].b,
        ensures
            Self::fixed(*old(self), *final(self)),
        decreases old(self).shape@.order.len() - subtree_size(old(self).shape@, p), 1nat,
    {
        let ghost a = self.arena@;
        let ghost s0 = self.shape@;
        proof {
            assert(red_node_ok(a, Some(n), p));
            assert(node_ok(a, self.root, s0, p));
            assert(node_ok(a, self.root, s0, n));
            let g = a[p as int].p->0;
            assert(node_ok(a, self.root, s0, g));
        }
        let _ = self.rotate_left(p);
        proof {
            let b = self.arena@;
            let s1 = self.shape@;
            assert forall|x: u32| in_tree(s1, x) implies #[trigger] red_node_ok(b, Some(p), x) by {
                assert(red_node_ok(a, Some(n), x));
                assert(node_ok(a, old(self).root, s0, x));
                if let Some(q) = a[x as int].p {
                    assert(node_ok(a, old(self).root, s0, q));
                }
            }
            assert(node_ok(b, self.root, s1, n));
            assert(node_ok(b, self.root, s1, p));
            if let Some(c) = b[p as int].l {
                assert(node_ok(b, self.root, s1, c));
                assert(b[c as int].b == a[c as int].b);
            }
            if let Some(c) = b[p as int].r {
                assert(node_ok(b, self.root, s1, c));
                assert(b[c as int].b == a[c as int].b);
            }
            assert(!b[p as int].b);
            assert(fix_ok(b, self.root, s1, p));
            let h = self.heights@;
            assert(bh_node_ok(a, h, n));
            assert(bh_node_ok(a, h, p));
            assert forall|x: u32| in_tree(s1, x) implies #[trigger] bh_node_ok(b, h, x) by {
                assert(bh_node_ok(a, h, x));
                assert(node_ok(a, old(self).root, s0, x));
                if let Some(c) = a[x as int].l {
                    assert(node_ok(a, old(self).root, s0, c));
                }
                if let Some(c) = a[x as int].r {
                    assert(node_ok(a, old(self).root, s0, c));
                }
            }
        }
        self._fix_rrb(p, n);
    }

    /// Restores the colour rules around red node `n`.
    fn _fix(&mut self, n: u32)
        requires
            fix_ok(old(self).arena@, old(self).root, old(self).shape@, n),
            balanced(old(self).arena@, old(self).shape@, old(self).heights@),
        ensures
            Self::fixed(*old(self), *final(self)),
        decreases old(self).shape@.order.len() - subtree_size(old(self).shape@, n), 2nat,
    {
        let ghost a = self.arena@;
        let ghost s0 = self.shape@;
        proof {
            assert(node_ok(a, self.root, s0, n));
        }
        let parent = self.arena[n as usize].p;
        match parent {
            None => {
                self.put_b(n, true);
                let ghost h = self.heights@;
                self.heights = Ghost(h.insert(n, h[n] + 1));
                proof {
                    let b = self.arena@;
                    let h2 = self.heights@;
                    assert(bh_node_ok(a, h, n));
                    assert forall|x: u32| in_tree(s0, x) implies #[trigger] bh_node_ok(b, h2, x) by {
                        assert(bh_node_ok(a, h, x));
                        assert(node_ok(a, old(self).root, s0, x));
                        if let Some(c) = a[x as int].l {
                            assert(node_ok(a, old(self).root, s0, c));
                        }
                        if let Some(c) = a[x as int].r {
                            assert(node_ok(a, old(self).root, s0, c));
                        }
                    }
                }
                proof {
                    let b = self.arena@;
                    lemma_same_links(a, b, self.root, s0);
                    assert forall|x: u32| in_tree(s0, x) implies #[trigger] red_node_ok(b, None, x) by {
                        assert(red_node_ok(a, Some(n), x));
                        assert(node_ok(a, old(self).root, s0, x));
                        if let Some(q) = a[x as int].p {
                            assert(node_ok(a, old(self).root, s0, q));
                        }
                    }
                }
            },
            Some(p) => {
                proof {
                    assert(node_ok(a, self.root, s0, p));
                    self.lemma_child_smaller(p, n);
                }
                if self.arena[p as usize].l == Some(n) {
                    if self.arena[p as usize].b {
                        proof {
                            assert forall|x: u32| in_tree(s0, x) implies #[trigger] red_node_ok(a, None, x) by {
                                assert(red_node_ok(a, Some(n), x));
                            }
                        }
                        return;
                    }
                    self._fix_rrb(n, p);
                    return;
                }
                let sib = self.arena[p as usize].l;
                proof {
                    if let Some(c) = sib {
                        assert(node_ok(a, self.root, s0, c));
                    }
                }
                let sibling_is_black = match sib {
                    Some(i) => self.arena[i as usize].b,
                    None => true,
                };
                if sibling_is_black {
                    if self.arena[p as usize].b {
                        self._fix_bbr(n, p);
                    } else {
                        self._fix_brr(n, p);
                    }
                } else {
                    let si = sib.unwrap();
                    proof {
                        assert(red_node_ok(a, Some(n), si));
                        assert(node_ok(a, self.root, s0, si));
                    }
                    self.put_b(p, false);
                    let ghost a2 = self.arena@;
                    self.put_b(si, true);
                    let ghost a3 = self.arena@;
                    self.put_b(n, true);
                    let ghost h = self.heights@;
                    self.heights = Ghost(h.insert(si, h[si] + 1).insert(n, h[n] + 1));
                    proof {
                        let b = self.arena@;
                        let h2 = self.heights@;
                        assert(bh_node_ok(a, h, n));
                        assert(bh_node_ok(a, h, p));
                        assert(bh_node_ok(a, h, si));
                        assert forall|x: u32| in_tree(s0, x) implies #[trigger] bh_node_ok(b, h2, x) by {
                            assert(bh_node_ok(a, h, x));
                            assert(node_ok(a, old(self).root, s0, x));
                            if let Some(c) = a[x as int].l {
                                assert(node_ok(a, old(self).root, s0, c));
                            }
                            if let Some(c) = a[x as int].r {
                                assert(node_ok(a, old(self).root, s0, c));
                            }
                        }
                    }
                    proof {
                        let b = self.arena@;
                        lemma_same_links(a, a2, self.root, s0);
                        lemma_same_links(a2, a3, self.root, s0);
                        lemma_same_links(a3, b, self.root, s0);
                        assert forall|x: u32| in_tree(s0, x) implies #[trigger] red_node_ok(b, Some(p), x) by {
                            assert(red_node_ok(a, Some(n), x));
                            assert(node_ok(a, old(self).root, s0, x));
                            if let Some(q) = a[x as int].p {
                                assert(node_ok(a, old(self).root, s0, q));
                            }
                        }
                        assert(node_ok(b, self.root, s0, p));
                    }
                    self._fix(p);
                }
            },
        }
    }
}

impl<K: SortedKey<C>, V, C> LlrbTree<K, V, C> {
    fn push_node(&mut self, key: K, value: V, black: bool) -> (r: u32)
        requires
            old(self).arena@.len() < u32::MAX,
        ensures
            r == old(self).arena@.len(),
            final(self).arena@ == old(self).arena@.push(LlrbNode { p: None, l: None, r: None, k: key, v: value, b: black }),
            final(self).root == old(self).root,
            final(self).min == old(self).min,
            final(self).max == old(self).max,
            final(self)._size == old(self)._size,
            final(self).shape == old(self).shape,
            final(self).heights == old(self).heights,
    {
        self.arena.push(LlrbNode::new(key, value, black));
        (self.arena.len() - 1) as u32
    }

    fn put_v(&mut self, x: u32, v: V)
        requires
            (x as int) < old(self).arena@.len(),
        ensures
            final(self).arena@ == old(self).arena@.update(x as int, LlrbNode { v: v, ..old(self).arena@[x as int] }),
            same_links(old(self).arena@, final(self).arena@),
            final(self).root == old(self).root,
            final(self).min == old(self).min,
            final(self).max == old(self).max,
            final(self)._size == old(self)._size,
            final(self).shape == old(self).shape,
            final(self).heights == old(self).heights,
    {
        self.arena[x as usize].v = v;
    }

    /// After a new node holding `(key, value)` was attached at in-order
    /// position `t`, the entries are the old ones with the new entry at `t`.
    proof fn lemma_attached_entries(
        a: Seq<LlrbNode<K, V>>,
        b: Seq<LlrbNode<K, V>>,
        s: Shape,
        s2: Shape,
        t: int,
        node: u32,
    )
        requires
            0 <= t <= s.order.len(),
            s2.order == s.order.insert(t, node),
            (node as int) < b.len(),
            forall|i: int| 0 <= i < s.order.len() ==> (s.order[i] as int) < a.len() && s.order[i] != node,
            a.len() <= b.len(),
            forall|i: int| 0 <= i < a.len() ==> (#[trigger] b[i]).k == a[i].k && b[i].v == a[i].v,
        ensures
            entries_of(b, s2) == entries_of(a, s).insert(t, (b[node as int].k, b[node as int].v)),
    {
        assert(entries_of(b, s2) =~= entries_of(a, s).insert(t, (b[node as int].k, b[node as int].v)));
    }

    /// Maps `key` to `value`; returns the node holding `key`.
    pub fn set(&mut self, key: K, value: V) -> (r: u32)
        requires
            old(self).wf(),
            old(self).nodes().len() < u32::MAX,
        ensures
            final(self).wf(),
            final(self)@ == set_view::<_, _, C>(old(self)@, key, value),
            final(self).order().contains(r),
            final(self).nodes()[r as int].k == key,
            final(self).nodes()[r as int].v == value,
            final(self).root_node() is Some,
            (r as int) < final(self).nodes().len(),
            final(self).nodes().len() <= old(self).nodes().len() + 1,
            final(self).nodes().len() == old(self).nodes().len() + (final(self)@.len() - old(self)@.len()),
            final(self).stored_size() == final(self)@.len(),
    {
        let ghost e0 = self@;
        let ghost s0 = self.shape@;
        proof {
            self.lemma_view();
            crate::sorted_map::lemma_set_sorted::<_, _, C>(e0, key, value);
        }
        if self.root.is_none() {
            let node = self.push_node(key, value, true);
            self.min = Some(node);
            self.max = Some(node);
            self.root = Some(node);
            self._size = 1;
            let ghost s2 = Shape {
                order: seq![node],
                pos: map![node => 0int],
                lo: map![node => 0int],
                hi: map![node => 1int],
            };
            self.shape = Ghost(s2);
            self.heights = Ghost(Map::<u32, nat>::empty().insert(node, 1nat));
            proof {
                let a2 = self.arena@;
                assert(node_ok(a2, self.root, s2, node));
                assert forall|m: u32| in_tree(s2, m) implies #[trigger] bh_node_ok(a2, self.heights@, m) by {
                    assert(m == node);
                }
                assert forall|m: u32| in_tree(s2, m) implies #[trigger] node_ok(a2, self.root, s2, m) by {
                    assert(m == node);
                }
                assert forall|m: u32| in_tree(s2, m) implies #[trigger] red_node_ok(a2, None, m) by {
                    assert(m == node);
                }
                assert(e0 =~= Seq::<(K, V)>::empty());
                lemma_lower_pos_unique::<_, _, C>(e0, key, 0);
                assert(self@ =~= set_view::<_, _, C>(e0, key, value));
                assert(self.shape@.order[0] == node);
            }
            return node;
        }
        let root = self.root.unwrap();
        let min = self.min.unwrap();
        let max = self.max.unwrap();
        proof {
            assert(node_ok(self.arena@, self.root, s0, root));
            assert(s0.order.len() > 0);
            assert(s0.order[0] == min);
            assert(in_tree(s0, s0.order[0]));
            assert(s0.order[s0.order.len() - 1] == max);
            assert(in_tree(s0, s0.order[s0.order.len() - 1]));
            assert(node_ok(self.arena@, self.root, s0, min));
            assert(node_ok(self.arena@, self.root, s0, max));
        }
        let to_min = key.compare_key(&self.arena[min as usize].k);
        if to_min < 0 {
            let node = self.push_node(key, value, false);
            let ghost a1 = self.arena@;
            proof {
                lemma_same_links(old(self).arena@, a1, self.root, s0);
                lemma_balance_kept(old(self).arena@, a1, self.root, s0, self.heights@);
                assert(e0[0] == (a1[min as int].k, a1[min as int].v));
                assert(key.key_lt(e0[0].0));
                assert forall|i: int| 0 <= i < e0.len() implies !(#[trigger] e0[i]).0.key_lt(key) by {
                    K::lemma_key_order(key, e0[0].0, key);
                    if i > 0 {
                        assert(e0[0].0.key_lt(e0[i].0));
                        K::lemma_key_order(e0[0].0, e0[i].0, key);
                    }
                }
                lemma_lower_pos_unique::<_, _, C>(e0, key, 0);
                lemma_order_in_arena(old(self).arena@, self.root, s0);
                if let Some(c) = a1[min as int].l {
                    assert(node_ok(a1, self.root, s0, c));
                }
            }
            self.attach(min, node, true);
            self.min = Some(node);
            self._size = self._size + 1;
            proof {
                let a2 = self.arena@;
                let s2 = self.shape@;
                Self::lemma_attached_entries(old(self).arena@, a2, s0, s2, 0, node);
                K::lemma_key_order(key, key, key);
                assert(set_view::<_, _, C>(e0, key, value) == e0.insert(0, (key, value)));
                assert forall|m: u32| in_tree(s2, m) implies #[trigger] red_node_ok(a2, Some(node), m) by {
                    if m != node {
                        assert(red_node_ok(old(self).arena@, None, m));
                        assert(node_ok(a2, self.root, s2, m));
                        if let Some(q) = a2[m as int].p {
                            assert(node_ok(a2, self.root, s2, q));
                        }
                    }
                }
                assert(s2.order[0] == node);
            }
            if !self.arena[min as usize].b {
                self._fix_rrb(node, min);
            } else {
                proof {
                    let a2 = self.arena@;
                    let s2 = self.shape@;
                    assert forall|m: u32| in_tree(s2, m) implies #[trigger] red_node_ok(a2, None, m) by {
                        assert(red_node_ok(a2, Some(node), m));
                    }
                }
            }
            proof {
                assert(self.shape@.order[0] == node);
                assert(self@ =~= set_view::<_, _, C>(e0, key, value));
            }
            return node;
        }
        let to_max = key.compare_key(&self.arena[max as usize].k);
        if to_max > 0 {
            let node = self.push_node(key, value, false);
            let ghost a1 = self.arena@;
            let ghost len = e0.len() as int;
            proof {
                lemma_same_links(old(self).arena@, a1, self.root, s0);
                lemma_balance_kept(old(self).arena@, a1, self.root, s0, self.heights@);
                assert(e0[len - 1] == (a1[max as int].k, a1[max as int].v));
                assert(e0[len - 1].0.key_lt(key));
                assert forall|i: int| 0 <= i < e0.len() implies (#[trigger] e0[i]).0.key_lt(key) by {
                    if i < len - 1 {
                        assert(e0[i].0.key_lt(e0[len - 1].0));
                        K::lemma_key_order(e0[i].0, e0[len - 1].0, key);
                    }
                }
                lemma_lower_pos_unique::<_, _, C>(e0, key, len);
                lemma_order_in_arena(old(self).arena@, self.root, s0);
                if let Some(c) = a1[max as int].r {
                    assert(node_ok(a1, self.root, s0, c));
                }
            }
            self.attach(max, node, false);
            self.max = Some(node);
            self._size = self._size + 1;
            proof {
                let a2 = self.arena@;
                let s2 = self.shape@;
                Self::lemma_attached_entries(old(self).arena@, a2, s0, s2, len, node);
                assert(set_view::<_, _, C>(e0, key, value) == e0.insert(len, (key, value)));
                assert forall|m: u32| in_tree(s2, m) implies #[trigger] red_node_ok(a2, Some(node), m) by {
                    if m != node {
                        assert(red_node_ok(old(self).arena@, None, m));
                        assert(node_ok(a2, self.root, s2, m));
                        if let Some(q) = a2[m as int].p {
                            assert(node_ok(a2, self.root, s2, q));
                        }
                    }
                }
                assert(s2.order[len] == node);
                assert(s2.order[0] == s0.order[0]);
            }
            self._fix(node);
            proof {
                assert(self@ =~= set_view::<_, _, C>(e0, key, value));
            }
            return node;
        }
        let mut p = root;
        let ghost a0 = self.arena@;
        loop
            invariant
                old(self).wf(),
                *self == *old(self),
                a0 == self.arena@,
                s0 == self.shape@,
                e0 == self@,
                e0.len() == s0.order.len(),
                old(self).nodes().len() < u32::MAX,
                sorted::<_, _, C>(set_view::<_, _, C>(e0, key, value)),
                self.max == Some(max),
                self.min == Some(min),
                !key.key_lt(a0[min as int].k),
                !a0[max as int].k.key_lt(key),
                in_tree(s0, p),
                forall|i: int| 0 <= i < s0.lo[p] ==> (#[trigger] e0[i]).0.key_lt(key),
                forall|i: int| s0.hi[p] <= i < e0.len() ==> key.key_lt((#[trigger] e0[i]).0),
            decreases s0.hi[p] - s0.lo[p],
        {
            proof {
                assert(node_ok(a0, self.root, s0, p));
                assert(e0[s0.pos[p]] == (a0[p as int].k, a0[p as int].v));
            }
            let ghost t = s0.pos[p];
            let sign = key.compare_key(&self.arena[p as usize].k);
            if sign == 0 {
                self.put_v(p, value);
                proof {
                    lemma_same_links(a0, self.arena@, self.root, s0);
                    lemma_balance_kept(a0, self.arena@, self.root, s0, self.heights@);
                    lemma_lookup_at::<_, _, C>(e0, t);
                    assert(e0[t].0 == key);
                    self.lemma_view();
                    lemma_order_in_arena(a0, self.root, s0);
                    assert(set_view::<_, _, C>(e0, key, value) == e0.update(t, (key, value)));
                    assert forall|i: int| 0 <= i < e0.len() implies #[trigger] self@[i] == set_view::<_, _, C>(e0, key, value)[i] by {
                        assert(s0.pos[s0.order[i]] == i);
                        assert(in_tree(s0, s0.order[i]));
                        if i != t {
                            assert(s0.order[i] != p);
                            assert(self.arena@[s0.order[i] as int] == a0[s0.order[i] as int]);
                        }
                    }
                    assert(self@ =~= set_view::<_, _, C>(e0, key, value));
                    assert forall|m: u32| in_tree(s0, m) implies #[trigger] red_node_ok(self.arena@, None, m) by {
                        assert(red_node_ok(a0, None, m));
                        assert(node_ok(a0, self.root, s0, m));
                        if let Some(q) = a0[m as int].p {
                            assert(node_ok(a0, self.root, s0, q));
                        }
                    }
                    assert(s0.order[t] == p);
                }
                return p;
            }
            if sign < 0 {
                match self.arena[p as usize].l {
                    Some(l) => {
                        proof {
                            assert(node_ok(a0, self.root, s0, l));
                            assert forall|i: int| s0.hi[l] <= i < e0.len() implies key.key_lt((#[trigger] e0[i]).0) by {
                                if i > t && i < s0.hi[p] {
                                    assert(e0[t].0.key_lt(e0[i].0));
                                    K::lemma_key_order(key, e0[t].0, e0[i].0);
                                }
                            }
                        }
                        p = l;
                    },
                    None => {
                        let node = self.push_node(key, value, false);
                        let ghost a1 = self.arena@;
                        proof {
                            lemma_same_links(a0, a1, self.root, s0);
                            lemma_balance_kept(a0, a1, self.root, s0, self.heights@);
                            assert forall|i: int| t <= i < e0.len() implies !(#[trigger] e0[i]).0.key_lt(key) by {
                                K::lemma_key_order(key, e0[t].0, key);
                                K::lemma_key_order(key, e0[i].0, key);
                                if i > t && i < s0.hi[p] {
                                    assert(e0[t].0.key_lt(e0[i].0));
                                    K::lemma_key_order(key, e0[t].0, e0[i].0);
                                }
                            }
                            lemma_lower_pos_unique::<_, _, C>(e0, key, t);
                            K::lemma_key_order(key, key, key);
                            lemma_order_in_arena(a0, self.root, s0);
                        }
                        self.attach(p, node, true);
                        self._size = self._size + 1;
                        proof {
                            let a2 = self.arena@;
                            let s2 = self.shape@;
                            Self::lemma_attached_entries(a0, a2, s0, s2, t, node);
                            assert(set_view::<_, _, C>(e0, key, value) == e0.insert(t, (key, value)));
                            assert forall|m: u32| in_tree(s2, m) implies #[trigger] red_node_ok(a2, Some(node), m) by {
                                if m != node {
                                    assert(red_node_ok(a0, None, m));
                                    assert(node_ok(a2, self.root, s2, m));
                                    if let Some(q) = a2[m as int].p {
                                        assert(node_ok(a2, self.root, s2, q));
                                    }
                                }
                            }
                            assert(s2.order[t] == node);
                            assert(t > 0) by {
                                K::lemma_key_order(key, e0[0].0, key);
                                if t == 0 {
                                    assert(s0.order[0] == min);
                                }
                            }
                            assert(s2.order[0] == s0.order[0]);
                            assert(s2.order[s2.order.len() - 1] == s0.order[s0.order.len() - 1]) by {
                                K::lemma_key_order(key, e0[e0.len() - 1].0, key);
                            }
                        }
                        if !self.arena[p as usize].b {
                            self._fix_rrb(node, p);
                        } else {
                            proof {
                                let a2 = self.arena@;
                                let s2 = self.shape@;
                                assert forall|m: u32| in_tree(s2, m) implies #[trigger] red_node_ok(a2, None, m) by {
                                    assert(red_node_ok(a2, Some(node), m));
                                }
                            }
                        }
                        proof {
                            assert(self@ =~= set_view::<_, _, C>(e0, key, value));
                        }
                        return node;
                    },
                }
            } else {
                match self.arena[p as usize].r {
                    Some(r) => {
                        proof {
                            assert(node_ok(a0, self.root, s0, r));
                            assert forall|i: int| 0 <= i < s0.lo[r] implies (#[trigger] e0[i]).0.key_lt(key) by {
                                if i < t && i >= s0.lo[p] {
                                    assert(e0[i].0.key_lt(e0[t].0));
                                    K::lemma_key_order(e0[i].0, e0[t].0, key);
                                }
                            }
                        }
                        p = r;
                    },
                    None => {
                        let node = self.push_node(key, value, false);
                        let ghost a1 = self.arena@;
                        let ghost t1 = t + 1;
                        proof {
                            lemma_same_links(a0, a1, self.root, s0);
                            lemma_balance_kept(a0, a1, self.root, s0, self.heights@);
                            assert forall|i: int| 0 <= i < t1 implies (#[trigger] e0[i]).0.key_lt(key) by {
                                if i < t && i >= s0.lo[p] {
                                    assert(e0[i].0.key_lt(e0[t].0));
                                    K::lemma_key_order(e0[i].0, e0[t].0, key);
                                }
                            }
                            assert forall|i: int| t1 <= i < e0.len() implies !(#[trigger] e0[i]).0.key_lt(key) by {
                                K::lemma_key_order(key, e0[i].0, key);
                            }
                            lemma_lower_pos_unique::<_, _, C>(e0, key, t1);
                            K::lemma_key_order(key, key, key);
                            lemma_order_in_arena(a0, self.root, s0);
                        }
                        self.attach(p, node, false);
                        self._size = self._size + 1;
                        proof {
                            let a2 = self.arena@;
                            let s2 = self.shape@;
                            Self::lemma_attached_entries(a0, a2, s0, s2, t1, node);
                            assert(set_view::<_, _, C>(e0, key, value) == e0.insert(t1, (key, value)));
                            assert forall|m: u32| in_tree(s2, m) implies #[trigger] red_node_ok(a2, Some(node), m) by {
                                if m != node {
                                    assert(red_node_ok(a0, None, m));
                                    assert(node_ok(a2, self.root, s2, m));
                                    if let Some(q) = a2[m as int].p {
                                        assert(node_ok(a2, self.root, s2, q));
                                    }
                                }
                            }
                            assert(s2.order[t1] == node);
                            assert(s2.order[0] == s0.order[0]);
                            assert(t1 < e0.len()) by {
                                let last = e0.len() - 1;
                                assert(s0.order[last] == max);
                                K::lemma_key_order(e0[last].0, key, e0[last].0);
                            }
                            assert(s2.order[s2.order.len() - 1] == s0.order[s0.order.len() - 1]);
                        }
                        self._fix(node);
                        proof {
                            assert(self@ =~= set_view::<_, _, C>(e0, key, value));
                        }
                        return node;
                    },
                }
            }
        }
    }
}

impl<K: SortedKey<C>, V, C> LlrbTree<K, V, C> {
    /// The tree's nodes in key order.
    fn in_order(&self) -> (r: Vec<u32>)
        requires
            tree_ok(self.arena@, self.root, self.shape@),
        ensures
            r@ == self.shape@.order,
    {
        let ghost s = self.shape@;
        let n = self.shape_len();
        let mut out: Vec<u32> = Vec::new();
        let mut cur = first_in(self.arena.as_slice(), self.root, Ghost(self.root), Ghost(s));
        proof {
            if let Some(r) = self.root {
                assert(node_ok(self.arena@, self.root, s, r));
            }
        }
        while cur.is_some()
            invariant
                tree_ok(self.arena@, self.root, s),
                s == self.shape@,
                out@.len() <= s.order.len(),
                out@ == s.order.take(out@.len() as int),
                cur == if out@.len() < s.order.len() { Some(s.order[out@.len() as int]) } else { None::<u32> },
            decreases s.order.len() - out@.len(),
        {
            let c = cur.unwrap();
            proof {
                assert(in_tree(s, s.order[out@.len() as int]));
                assert(s.pos[c] == out@.len());
            }
            out.push(c);
            cur = next_in(self.arena.as_slice(), c, Ghost(self.root), Ghost(s));
            proof {
                assert(out@ =~= s.order.take(out@.len() as int));
            }
        }
        proof {
            assert(out@ =~= s.order);
        }
        out
    }

    /// The number of nodes in the tree, counted along the tree.
    fn shape_len(&self) -> (r: Ghost<nat>)
        ensures
            r@ == self.shape@.order.len(),
    {
        Ghost(self.shape@.order.len())
    }

    /// Appends the node `x`, whose key sorts after every key of the tree,
    /// as the tree's last node: detached, then linked like a new node.
    fn append_node(&mut self, x: u32)
        requires
            tree_ok(old(self).arena@, old(self).root, old(self).shape@),
            red_ok(old(self).arena@, old(self).shape@, None),
            !in_tree(old(self).shape@, x),
            (x as int) < old(self).arena@.len(),
            forall|i: int| 0 <= i < old(self).shape@.order.len() ==> (#[trigger] old(self).arena@[old(self).shape@.order[i] as int]).k.key_lt(old(self).arena@[x as int].k),
            balanced(old(self).arena@, old(self).shape@, old(self).heights@),
        ensures
            tree_ok(final(self).arena@, final(self).root, final(self).shape@),
            red_ok(final(self).arena@, final(self).shape@, None),
            balanced(final(self).arena@, final(self).shape@, final(self).heights@),
            final(self).shape@.order == old(self).shape@.order.push(x),
            same_entries(final(self).arena@, old(self).arena@),
            final(self).min == old(self).min,
            final(self).max == old(self).max,
            final(self)._size == old(self)._size,
    {
        let ghost a0 = self.arena@;
        let ghost s0 = self.shape@;
        self.put_p(x, None);
        self.put_l(x, None);
        self.put_r(x, None);
        proof {
            lemma_outside_change(a0, self.arena@, self.root, s0, x);
            assert(balanced(a0, s0, self.heights@));
            assert(balanced(self.arena@, s0, self.heights@));
        }
        match self.root {
            None => {
                self.put_b(x, true);
                self.root = Some(x);
                let ghost s2 = Shape {
                    order: seq![x],
                    pos: map![x => 0int],
                    lo: map![x => 0int],
                    hi: map![x => 1int],
                };
                self.shape = Ghost(s2);
                self.heights = Ghost(Map::<u32, nat>::empty().insert(x, 1nat));
                proof {
                    assert forall|m: u32| in_tree(s2, m) implies #[trigger] bh_node_ok(self.arena@, self.heights@, m) by {
                        assert(m == x);
                    }
                    let a2 = self.arena@;
                    assert(node_ok(a2, self.root, s2, x));
                    assert forall|m: u32| in_tree(s2, m) implies #[trigger] node_ok(a2, self.root, s2, m) by {
                        assert(m == x);
                    }
                    assert forall|m: u32| in_tree(s2, m) implies #[trigger] red_node_ok(a2, None, m) by {
                        assert(m == x);
                    }
                    assert(s2.order =~= s0.order.push(x));
                }
            },
            Some(rt) => {
                let ghost a1 = self.arena@;
                proof {
                    assert(node_ok(a1, self.root, s0, rt));
                }
                let lastn = last_in(self.arena.as_slice(), Some(rt), Ghost(self.root), Ghost(s0)).unwrap();
                let ghost a2pre = self.arena@;
                self.put_b(x, false);
                proof {
                    lemma_outside_change(a1, self.arena@, self.root, s0, x);
                    assert(balanced(a1, s0, self.heights@));
                    assert(balanced(self.arena@, s0, self.heights@));
                    let a2 = self.arena@;
                    assert(node_ok(a2, self.root, s0, lastn));
                    if let Some(c) = a2[lastn as int].r {
                        assert(node_ok(a2, self.root, s0, c));
                    }
                }
                let ghost a2 = self.arena@;
                self.attach(lastn, x, false);
                proof {
                    let a3 = self.arena@;
                    let s3 = self.shape@;
                    assert(s3.order =~= s0.order.push(x));
                    assert forall|m: u32| in_tree(s3, m) implies #[trigger] red_node_ok(a3, Some(x), m) by {
                        if m != x {
                            assert(red_node_ok(a2, None, m));
                            assert(node_ok(a3, self.root, s3, m));
                            if let Some(q) = a3[m as int].p {
                                assert(node_ok(a3, self.root, s3, q));
                            }
                        }
                    }
                }
                self._fix(x);
            },
        }
    }

    /// Removes `key`; returns whether it was there.  The remaining nodes
    /// keep their indices; the tree is relinked over them in key order.
    pub fn del(&mut self, key: &K) -> (r: bool)
        requires
            old(self).wf(),
        ensures
            final(self).wf(),
            final(self)@ == erase_view::<_, _, C>(old(self)@, *key),
            r == has_key::<_, _, C>(old(self)@, *key),
            final(self).nodes().len() == old(self).nodes().len(),
            r ==> final(self).stored_size() + 1 == old(self).stored_size() && final(self).stored_size()
                == final(self)@.len(),
            !r ==> final(self).stored_size() == old(self).stored_size(),
            r && final(self).root_node() is None ==> final(self).min_node() is None
                && final(self).max_node() is None,
    {
        let ghost e0 = self@;
        let ghost s0 = self.shape@;
        let ghost a0 = self.arena@;
        proof {
            self.lemma_view();
        }
        let found = self.find(key);
        if found.is_none() {
            proof {
                if has_key::<_, _, C>(e0, *key) {
                    assert(lookup::<_, _, C>(e0, *key) is Some);
                }
            }
            return false;
        }
        let target = found.unwrap();
        let ghost tpos = s0.pos[target];
        proof {
            assert(s0.order.contains(target));
            let i = choose|i: int| 0 <= i < s0.order.len() && s0.order[i] == target;
            assert(in_tree(s0, s0.order[i]));
            lemma_lookup_at::<_, _, C>(e0, tpos);
            assert(e0[tpos].0 == *key);
        }
        let nodes = self.in_order();
        proof {
            lemma_order_in_arena(a0, self.root, s0);
            assert(node_ok(a0, self.root, s0, target));
            assert forall|k: int| 0 <= k < s0.order.len() implies (#[trigger] s0.order[k] == target <==> k == tpos) by {
                assert(in_tree(s0, s0.order[k]));
            }
            assert(self.root is Some);
        }
        let mut rest: Vec<u32> = Vec::new();
        let mut i: usize = 0;
        while i < nodes.len()
            invariant
                nodes@ == s0.order,
                i <= nodes@.len(),
                0 <= tpos < s0.order.len(),
                s0.order[tpos] == target,
                forall|k: int| 0 <= k < s0.order.len() ==> (#[trigger] s0.order[k] == target <==> k == tpos),
                rest@ == (if i <= tpos { s0.order.take(i as int) } else { s0.order.take(i as int).remove(tpos) }),
            decreases nodes@.len() - i,
        {
            let ghost before = rest@;
            if nodes[i] != target {
                rest.push(nodes[i]);
            }
            proof {
                if i < tpos {
                    assert(rest@ =~= s0.order.take(i + 1));
                } else if i == tpos {
                    assert(s0.order.take(i + 1).remove(tpos) =~= s0.order.take(i as int));
                } else {
                    assert(rest@ =~= s0.order.take(i + 1).remove(tpos));
                }
            }
            i = i + 1;
        }
        let ghost er = e0.remove(tpos);
        proof {
            assert(s0.order.take(s0.order.len() as int) =~= s0.order);
            assert(rest@ == s0.order.remove(tpos));
            crate::sorted_map::lemma_erase_sorted::<_, _, C>(e0, *key);
            assert(erase_view::<_, _, C>(e0, *key) == er);
            assert forall|x: int, y: int| 0 <= x < y < rest@.len() implies rest@[x] != rest@[y] && a0[rest@[x] as int].k.key_lt(a0[rest@[y] as int].k) by {
                let xi = if x < tpos { x } else { x + 1 };
                let yi = if y < tpos { y } else { y + 1 };
                assert(rest@[x] == s0.order[xi] && rest@[y] == s0.order[yi]);
                assert(in_tree(s0, s0.order[xi]));
                assert(e0[xi].0.key_lt(e0[yi].0));
            }
            assert forall|x: int| 0 <= x < rest@.len() implies #[trigger] er[x] == (a0[rest@[x] as int].k, a0[rest@[x] as int].v) by {
                let xi = if x < tpos { x } else { x + 1 };
                assert(rest@[x] == s0.order[xi]);
            }
        }
        self.root = None;
        self.shape = Ghost(Shape { order: Seq::empty(), pos: Map::empty(), lo: Map::empty(), hi: Map::empty() });
        let mut j: usize = 0;
        while j < rest.len()
            invariant
                0 <= j <= rest@.len(),
                tree_ok(self.arena@, self.root, self.shape@),
                red_ok(self.arena@, self.shape@, None),
                balanced(self.arena@, self.shape@, self.heights@),
                self.shape@.order == rest@.take(j as int),
                same_entries(self.arena@, a0),
                forall|x: int| 0 <= x < rest@.len() ==> (rest@[x] as int) < a0.len(),
                forall|x: int, y: int| 0 <= x < y < rest@.len() ==> rest@[x] != rest@[y] && a0[rest@[x] as int].k.key_lt(a0[rest@[y] as int].k),
                self._size == old(self)._size,
                old(self)._size == s0.order.len(),
                s0.order.len() >= 1,
                self.arena@.len() <= u32::MAX,
            decreases rest@.len() - j,
        {
            let x = rest[j];
            proof {
                if in_tree(self.shape@, x) {
                    assert(node_ok(self.arena@, self.root, self.shape@, x));
                    let k = self.shape@.pos[x];
                    assert(rest@[k] == x);
                }
                assert forall|i: int| 0 <= i < self.shape@.order.len() implies (#[trigger] self.arena@[self.shape@.order[i] as int]).k.key_lt(self.arena@[x as int].k) by {
                    assert(self.shape@.order[i] == rest@[i]);
                }
            }
            self.append_node(x);
            j = j + 1;
            proof {
                assert(self.shape@.order =~= rest@.take(j as int));
            }
        }
        proof {
            assert(rest@.take(rest@.len() as int) =~= rest@);
            self.lemma_view();
            assert(self@ =~= er);
        }
        self._size = self._size - 1;
        self.update_min_max();
        true
    }

    /// Records the first and last nodes of the tree.
    fn update_min_max(&mut self)
        requires
            tree_ok(old(self).arena@, old(self).root, old(self).shape@),
        ensures
            final(self).arena@ == old(self).arena@,
            final(self).root == old(self).root,
            final(self).shape == old(self).shape,
            final(self).heights == old(self).heights,
            final(self)._size == old(self)._size,
            match final(self).root {
                None => final(self).min is None && final(self).max is None,
                Some(_) => final(self).min == Some(final(self).shape@.order[0]) && final(self).max == Some(final(self).shape@.order.last()),
            },
    {
        proof {
            if let Some(r) = self.root {
                assert(node_ok(self.arena@, self.root, self.shape@, r));
            }
        }
        self.min = first_in(self.arena.as_slice(), self.root, Ghost(self.root), Ghost(self.shape@));
        self.max = last_in(self.arena.as_slice(), self.root, Ghost(self.root), Ghost(self.shape@));
    }
}

/// Black height of the subtree at `x`, when both sides of every node below
/// agree on it; `fuel` bounds the depth looked at.
pub open spec fn black_height<K, V>(a: Seq<LlrbNode<K, V>>, x: Option<u32>, fuel: nat) -> Option<nat>
    decreases fuel,
{
    match x {
        None => Some(0),
        Some(i) => if fuel == 0 {
            None
        } else {
            match (black_height(a, a[i as int].l, (fuel - 1) as nat), black_height(a, a[i as int].r, (fuel - 1) as nat)) {
                (Some(l), Some(r)) => if l == r {
                    Some(l + if a[i as int].b { 1nat } else { 0nat })
                } else {
                    None
                },
                _ => None,
            }
        },
    }
}

/// The heights that `h` records are the black heights of the subtrees.
proof fn lemma_black_height_at<K, V>(a: Seq<LlrbNode<K, V>>, root: Option<u32>, s: Shape, h: Map<u32, nat>, x: u32, fuel: nat)
    requires
        tree_ok(a, root, s),
        balanced(a, s, h),
        in_tree(s, x),
        fuel >= subtree_size(s, x),
    ensures
        black_height(a, Some(x), fuel) == Some(h[x]),
    decreases fuel,
{
    assert(node_ok(a, root, s, x));
    assert(bh_node_ok(a, h, x));
    if let Some(c) = a[x as int].l {
        assert(node_ok(a, root, s, c));
        lemma_black_height_at(a, root, s, h, c, (fuel - 1) as nat);
    }
    if let Some(c) = a[x as int].r {
        assert(node_ok(a, root, s, c));
        lemma_black_height_at(a, root, s, h, c, (fuel - 1) as nat);
    }
    assert(fuel > 0);
    let f = (fuel - 1) as nat;
    assert(black_height(a, a[x as int].l, f) == Some(child_bh(h, a[x as int].l)));
    assert(black_height(a, a[x as int].r, f) == Some(child_bh(h, a[x as int].r)));
    reveal_with_fuel(black_height, 2);
}

/// An iterator over the tree's entries.
pub struct LlrbEntries<'a, K, V, C = Natural> {
    _tree: &'a LlrbTree<K, V, C>,
    exhausted: bool,
}

impl<'a, K, V, C> LlrbEntries<'a, K, V, C> {
    /// Whether the iterator has run out.
    pub closed spec fn is_exhausted(&self) -> bool {
        self.exhausted
    }
}

impl<K: SortedKey, V> LlrbTree<K, V, Natural> {
    /// An empty tree whose keys are in their natural order.
    pub fn new() -> (r: Self)
        ensures
            r.wf(),
            r@ == Seq::<(K, V)>::empty(),
            r.root_node() is None,
            r.stored_size() == 0,
            r.nodes().len() == 0,
    {
        Self::with_comparator(Natural)
    }
}

impl<K: SortedKey, V> Default for LlrbTree<K, V, Natural> {
    fn default() -> (r: Self)
        ensures
            r.wf(),
            r@ == Seq::<(K, V)>::empty(),
            r.nodes().len() == 0,
    {
        Self::new()
    }
}

impl<K: SortedKey<C>, V, C> LlrbTree<K, V, C> {
    /// The tree's contents are its nodes' entries in order.
    pub proof fn lemma_view_is_entries(&self)
        ensures
            self@.len() == self.order().len(),
            forall|i: int| 0 <= i < self@.len() ==> #[trigger] self@[i] == (
                self.nodes()[self.order()[i] as int].k,
                self.nodes()[self.order()[i] as int].v,
            ),
    {
    }

    /// The value stored under `key`.
    pub fn get(&self, key: &K) -> (r: Option<&V>)
        requires
            self.wf(),
        ensures
            match r {
                Some(v) => lookup::<_, _, C>(self@, *key) == Some(*v),
                None => lookup::<_, _, C>(self@, *key) is None,
            },
    {
        match self.find(key) {
            Some(i) => Some(&self.arena[i as usize].v),
            None => None,
        }
    }

    /// Whether `key` is stored.
    pub fn has(&self, key: &K) -> (r: bool)
        requires
            self.wf(),
        ensures
            r == lookup::<_, _, C>(self@, *key) is Some,
    {
        self.find(key).is_some()
    }

    /// Forgets the tree: the root is dropped, while the recorded size and
    /// first and last nodes are left as they were.
    pub fn clear(&mut self)
        requires
            old(self).wf(),
        ensures
            final(self).wf(),
            final(self)@ == Seq::<(K, V)>::empty(),
            final(self).root_node() is None,
            final(self).stored_size() == old(self).stored_size(),
            final(self).min_node() == old(self).min_node(),
            final(self).max_node() == old(self).max_node(),
            final(self).nodes() == old(self).nodes(),
    {
        self.root = None;
        self.shape = Ghost(Shape { order: Seq::empty(), pos: Map::empty(), lo: Map::empty(), hi: Map::empty() });
        proof {
            assert(self@ =~= Seq::<(K, V)>::empty());
        }
    }

    /// The recorded size.
    pub fn size(&self) -> (r: usize)
        ensures
            r == self.stored_size(),
            self.wf() && self.root_node() is Some ==> r == self@.len(),
    {
        self._size
    }

    /// Whether the tree has no root.
    pub fn is_empty(&self) -> (r: bool)
        ensures
            r == self.root_node() is None,
            self.wf() ==> (r <==> self@.len() == 0),
    {
        proof {
            if self.wf() {
                if let Some(x) = self.root {
                    assert(node_ok(self.arena@, self.root, self.shape@, x));
                }
            }
        }
        self.root.is_none()
    }

    /// The node with the smallest key.
    pub fn first(&self) -> (r: Option<u32>)
        requires
            self.wf(),
        ensures
            r == if self@.len() > 0 { Some(self.order()[0]) } else { None },
    {
        proof {
            if let Some(x) = self.root {
                assert(node_ok(self.arena@, self.root, self.shape@, x));
            }
        }
        first_in(self.arena.as_slice(), self.root, Ghost(self.root), Ghost(self.shape@))
    }

    /// The node with the largest key.
    pub fn last(&self) -> (r: Option<u32>)
        requires
            self.wf(),
        ensures
            r == if self@.len() > 0 { Some(self.order().last()) } else { None },
    {
        proof {
            if let Some(x) = self.root {
                assert(node_ok(self.arena@, self.root, self.shape@, x));
            }
        }
        last_in(self.arena.as_slice(), self.root, Ghost(self.root), Ghost(self.shape@))
    }

    /// The node after `curr` in key order.
    pub fn next(&self, curr: u32) -> (r: Option<u32>)
        requires
            self.wf(),
            self.order().contains(curr),
        ensures
            0 <= self.position(curr) < self.order().len(),
            self.order()[self.position(curr)] == curr,
            r == if self.position(curr) + 1 < self.order().len() {
                Some(self.order()[self.position(curr) + 1])
            } else {
                None
            },
    {
        let ghost s = self.shape@;
        proof {
            let i = choose|i: int| 0 <= i < s.order.len() && s.order[i] == curr;
            assert(in_tree(s, s.order[i]));
            assert(s.pos[curr] == i);
        }
        next_in(self.arena.as_slice(), curr, Ghost(self.root), Ghost(s))
    }

    pub fn root_index(&self) -> (r: Option<u32>)
        ensures
            r == self.root_node(),
    {
        self.root
    }

    pub fn min_index(&self) -> (r: Option<u32>)
        ensures
            r == self.min_node(),
            self.wf() && self.root_node() is Some ==> r == Some(self.order()[0]),
    {
        self.min
    }

    pub fn max_index(&self) -> (r: Option<u32>)
        ensures
            r == self.max_node(),
            self.wf() && self.root_node() is Some ==> r == Some(self.order().last()),
    {
        self.max
    }

    /// The key of node `idx`.
    pub fn key(&self, idx: u32) -> (r: &K)
        requires
            (idx as int) < self.nodes().len(),
        ensures
            *r == self.nodes()[idx as int].k,
    {
        &self.arena[idx as usize].k
    }

    /// The value of node `idx`.
    pub fn value(&self, idx: u32) -> (r: &V)
        requires
            (idx as int) < self.nodes().len(),
        ensures
            *r == self.nodes()[idx as int].v,
    {
        &self.arena[idx as usize].v
    }

    /// Mutable access to the value of node `idx`.
    pub fn value_mut_by_index(&mut self, idx: u32) -> (r: &mut V)
        requires
            (idx as int) < old(self).nodes().len(),
        ensures
            *r == old(self).nodes()[idx as int].v,
            final(self).nodes() == old(self).nodes().update(
                idx as int,
                with_value(old(self).nodes()[idx as int], *final(r)),
            ),
            final(self).order() == old(self).order(),
            final(self).root_node() == old(self).root_node(),
            old(self).wf() ==> final(self).wf(),
    {
        proof {
            if old(self).wf() {
                lemma_value_irrelevant::<_, _, C>(self.arena@, self.root, self.shape@, self._size, self.min, self.max, idx as int);
                let a = self.arena@;
                assert forall|v: V| balanced(#[trigger] a.update(idx as int, with_value(a[idx as int], v)), self.shape@, self.heights@) by {
                    lemma_balance_kept(a, a.update(idx as int, with_value(a[idx as int], v)), self.root, self.shape@, self.heights@);
                }
            }
        }
        &mut self.arena[idx as usize].v
    }

    /// The arena of nodes.
    pub fn arena(&self) -> (r: &[LlrbNode<K, V>])
        ensures
            r@ == self.nodes(),
    {
        self.arena.as_slice()
    }

    /// An iterator over the entries.
    pub fn entries(&self) -> (r: LlrbEntries<'_, K, V, C>)
        ensures
            !r.is_exhausted(),
    {
        LlrbEntries { _tree: self, exhausted: false }
    }

    fn black_height_of(&self, x: Option<u32>, fuel: usize) -> (r: Option<usize>)
        requires
            tree_ok(self.arena@, self.root, self.shape@),
            x matches Some(i) ==> in_tree(self.shape@, i),
        ensures
            match r {
                Some(h) => black_height(self.arena@, x, fuel as nat) == Some(h as nat) && h <= fuel,
                None => black_height(self.arena@, x, fuel as nat) is None,
            },
        decreases fuel,
    {
        match x {
            None => Some(0),
            Some(i) => {
                if fuel == 0 {
                    return None;
                }
                proof {
                    assert(node_ok(self.arena@, self.root, self.shape@, i));
                }
                let l = self.black_height_of(self.arena[i as usize].l, fuel - 1);
                let r = self.black_height_of(self.arena[i as usize].r, fuel - 1);
                match (l, r) {
                    (Some(lh), Some(rh)) => {
                        if lh == rh {
                            Some(lh + if self.arena[i as usize].b { 1 } else { 0 })
                        } else {
                            None
                        }
                    },
                    _ => None,
                }
            },
        }
    }

    /// The entries of a well-formed tree are in strictly increasing key order.
    pub proof fn lemma_sorted(&self)
        requires
            self.wf(),
        ensures
            sorted::<_, _, C>(self@),
    {
    }

    /// A well-formed tree is balanced: every path from the root down meets
    /// the same number of black nodes.
    pub proof fn lemma_balanced(&self)
        requires
            self.wf(),
        ensures
            black_height(self.nodes(), self.root_node(), self@.len()) is Some,
    {
        self.lemma_view();
        if let Some(x) = self.root {
            assert(node_ok(self.arena@, self.root, self.shape@, x));
            lemma_black_height_at(self.arena@, self.root, self.shape@, self.heights@, x, self@.len());
        }
    }

    /// Checks the tree's balance: every path from the root down has the
    /// same number of black nodes.
    pub fn assert_valid(&self) -> (r: Result<(), String>)
        requires
            self.wf(),
        ensures
            r is Ok <==> black_height(self.nodes(), self.root_node(), self@.len()) is Some,
            r is Ok,
    {
        proof {
            self.lemma_balanced();
            self.lemma_view();
            if let Some(x) = self.root {
                assert(node_ok(self.arena@, self.root, self.shape@, x));
            }
        }
        let n = if self.root.is_some() { self._size } else { 0 };
        match self.black_height_of(self.root, n) {
            Some(_) => Ok(()),
            None => Err(String::from_str("black height differs between paths")),
        }
    }
}

} // verus!
