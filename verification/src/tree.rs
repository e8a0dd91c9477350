//! Arena-backed binary trees: nodes linked by arena index, and the
//! traversals over them.
//!
//! A tree is described by a ghost `Shape`: the in-order sequence of its nodes
//! and, for each node, the range of in-order positions its subtree covers.
//! `tree_ok` ties the links of the arena to that shape.
use vstd::prelude::*;
use crate::text::{concat_str, decimal, push_decimal};

verus! {

/// A node with parent, left and right links (arena indices).
pub trait Node: Sized {
    spec fn parent(&self) -> Option<u32>;

    spec fn left(&self) -> Option<u32>;

    spec fn right(&self) -> Option<u32>;

    fn p(&self) -> (r: Option<u32>)
        ensures
            r == self.parent(),
    ;

    fn l(&self) -> (r: Option<u32>)
        ensures
            r == self.left(),
    ;

    fn r(&self) -> (r: Option<u32>)
        ensures
            r == self.right(),
    ;

    fn set_p(&mut self, v: Option<u32>)
        ensures
            final(self).parent() == v,
            final(self).left() == old(self).left(),
            final(self).right() == old(self).right(),
    ;

    fn set_l(&mut self, v: Option<u32>)
        ensures
            final(self).left() == v,
            final(self).parent() == old(self).parent(),
            final(self).right() == old(self).right(),
    ;

    fn set_r(&mut self, v: Option<u32>)
        ensures
            final(self).right() == v,
            final(self).parent() == old(self).parent(),
            final(self).left() == old(self).left(),
    ;
}

/// The shape of a tree: its nodes in order, each node's in-order position,
/// and the position range `lo .. hi` its subtree covers.
pub ghost struct Shape {
    pub order: Seq<u32>,
    pub pos: Map<u32, int>,
    pub lo: Map<u32, int>,
    pub hi: Map<u32, int>,
}

/// Whether `x` is a node of the tree.
pub open spec fn in_tree(s: Shape, x: u32) -> bool {
    s.pos.contains_key(x)
}

/// The links of node `x` agree with the shape.
pub open spec fn node_ok<N: Node>(a: Seq<N>, root: Option<u32>, s: Shape, x: u32) -> bool {
    let i = s.pos[x];
    &&& 0 <= i < s.order.len()
    &&& s.order[i] == x
    &&& (x as int) < a.len()
    &&& s.lo.contains_key(x)
    &&& s.hi.contains_key(x)
    &&& 0 <= s.lo[x] <= i < s.hi[x] <= s.order.len()
    &&& match a[x as int].left() {
        None => s.lo[x] == i,
        Some(c) => in_tree(s, c) && s.lo[c] == s.lo[x] && s.hi[c] == i && a[c as int].parent()
            == Some(x),
    }
    &&& match a[x as int].right() {
        None => s.hi[x] == i + 1,
        Some(c) => in_tree(s, c) && s.lo[c] == i + 1 && s.hi[c] == s.hi[x] && a[c as int].parent()
            == Some(x),
    }
    &&& match a[x as int].parent() {
        None => root == Some(x),
        Some(q) => in_tree(s, q) && (a[q as int].left() == Some(x) || a[q as int].right() == Some(x)),
    }
}

/// The arena holds a binary tree rooted at `root` with shape `s`.
pub open spec fn tree_ok<N: Node>(a: Seq<N>, root: Option<u32>, s: Shape) -> bool {
    &&& forall|i: int|
        0 <= i < s.order.len() ==> in_tree(s, #[trigger] s.order[i]) && s.pos[s.order[i]] == i
    &&& forall|x: u32| in_tree(s, x) ==> #[trigger] node_ok(a, root, s, x)
    &&& match root {
        None => s.order.len() == 0,
        Some(r) => in_tree(s, r) && s.lo[r] == 0 && s.hi[r] == s.order.len() && a[r as int].parent()
            is None,
    }
}

/// The leftmost node of the subtree at `root`.
pub(crate) fn first_in<N: Node>(arena: &[N], root: Option<u32>, Ghost(top): Ghost<Option<u32>>, Ghost(s): Ghost<Shape>) -> (r: Option<u32>)
    requires
        tree_ok(arena@, top, s),
        root matches Some(x) ==> in_tree(s, x),
    ensures
        match root {
            None => r is None,
            Some(x) => r == Some(s.order[s.lo[x]]) && in_tree(s, r->0),
        },
{
    let mut curr = root;
    match root {
        None => None,
        Some(x0) => {
            let mut idx = x0;
            loop
                invariant
                    tree_ok(arena@, top, s),
                    root == Some(x0),
                    in_tree(s, x0),
                    in_tree(s, idx),
                    s.lo[idx] == s.lo[x0],
                decreases s.pos[idx] - s.lo[idx],
            {
                assert(node_ok(arena@, top, s, idx));
                match arena[idx as usize].l() {
                    Some(l) => {
                        assert(node_ok(arena@, top, s, l));
                        idx = l;
                    },
                    None => {
                        return Some(idx);
                    },
                }
            }
        },
    }
}

/// The rightmost node of the subtree at `root`.
pub(crate) fn last_in<N: Node>(arena: &[N], root: Option<u32>, Ghost(top): Ghost<Option<u32>>, Ghost(s): Ghost<Shape>) -> (r: Option<u32>)
    requires
        tree_ok(arena@, top, s),
        root matches Some(x) ==> in_tree(s, x),
    ensures
        match root {
            None => r is None,
            Some(x) => r == Some(s.order[s.hi[x] - 1]) && in_tree(s, r->0),
        },
{
    match root {
        None => None,
        Some(x0) => {
            let mut idx = x0;
            loop
                invariant
                    tree_ok(arena@, top, s),
                    root == Some(x0),
                    in_tree(s, x0),
                    in_tree(s, idx),
                    s.hi[idx] == s.hi[x0],
                decreases s.hi[idx] - s.pos[idx],
            {
                assert(node_ok(arena@, top, s, idx));
                match arena[idx as usize].r() {
                    Some(r) => {
                        assert(node_ok(arena@, top, s, r));
                        idx = r;
                    },
                    None => {
                        return Some(idx);
                    },
                }
            }
        },
    }
}

/// The in-order successor of node `curr`.
pub(crate) fn next_in<N: Node>(arena: &[N], curr: u32, Ghost(root): Ghost<Option<u32>>, Ghost(s): Ghost<Shape>) -> (r: Option<u32>)
    requires
        tree_ok(arena@, root, s),
        in_tree(s, curr),
    ensures
        if s.pos[curr] + 1 < s.order.len() {
            r == Some(s.order[s.pos[curr] + 1])
        } else {
            r is None
        },
{
    assert(node_ok(arena@, root, s, curr));
    if let Some(r) = arena[curr as usize].r() {
        assert(node_ok(arena@, root, s, r));
        return first_in(arena, Some(r), Ghost(root), Ghost(s));
    }
    let mut cur = curr;
    let mut p = arena[curr as usize].p();
    loop
        invariant
            tree_ok(arena@, root, s),
            in_tree(s, cur),
            s.hi[cur] == s.pos[curr] + 1,
            p == arena@[cur as int].parent(),
        decreases s.order.len() - (s.hi[cur] - s.lo[cur]),
    {
        assert(node_ok(arena@, root, s, cur));
        match p {
            None => {
                return None;
            },
            Some(pi) => {
                assert(node_ok(arena@, root, s, pi));
                if arena[pi as usize].r() == Some(cur) {
                    cur = pi;
                    p = arena[pi as usize].p();
                } else {
                    return Some(pi);
                }
            },
        }
    }
}

/// The arena holds a tree rooted at `top` with shape `s`, and `x`, if
/// any, is one of its nodes.
pub open spec fn fits_shape<N: Node>(a: Seq<N>, top: Option<u32>, s: Shape, x: Option<u32>) -> bool {
    &&& tree_ok(a, top, s)
    &&& (x matches Some(n) ==> in_tree(s, n))
}

/// `x`, if any, is a node of some tree that the arena holds.
pub open spec fn in_some_tree<N: Node>(a: Seq<N>, x: Option<u32>) -> bool {
    exists|top: Option<u32>, s: Shape| fits_shape(a, top, s, x)
}

/// `r` is the leftmost node of the subtree at `x` in shape `s`.
pub open spec fn leftmost_is(s: Shape, x: Option<u32>, r: Option<u32>) -> bool {
    match x {
        None => r is None,
        Some(n) => r == Some(s.order[s.lo[n]]),
    }
}

/// `r` is the rightmost node of the subtree at `x` in shape `s`.
pub open spec fn rightmost_is(s: Shape, x: Option<u32>, r: Option<u32>) -> bool {
    match x {
        None => r is None,
        Some(n) => r == Some(s.order[s.hi[n] - 1]),
    }
}

/// `r` is the node after `curr` in the in-order sequence of shape `s`, if
/// there is one.
pub open spec fn successor_is(s: Shape, curr: u32, r: Option<u32>) -> bool {
    if s.pos[curr] + 1 < s.order.len() {
        r == Some(s.order[s.pos[curr] + 1])
    } else {
        r is None
    }
}

/// The leftmost node of the subtree at `root`.
pub fn first<N: Node>(arena: &[N], root: Option<u32>) -> (r: Option<u32>)
    requires
        in_some_tree(arena@, root),
    ensures
        forall|top: Option<u32>, s: Shape| #[trigger] fits_shape(arena@, top, s, root) ==> leftmost_is(s, root, r),
{
    let ghost (top0, s0) = choose|top: Option<u32>, s: Shape| fits_shape(arena@, top, s, root);
    match root {
        None => None,
        Some(x0) => {
            let mut idx = x0;
            loop
                invariant
                    root == Some(x0),
                    fits_shape(arena@, top0, s0, root),
                    forall|top: Option<u32>, s: Shape|
                        #[trigger] fits_shape(arena@, top, s, root) ==> in_tree(s, idx) && s.lo[idx]
                            == s.lo[x0],
                decreases s0.pos[idx] - s0.lo[idx],
            {
                assert(fits_shape(arena@, top0, s0, root));
                assert(node_ok(arena@, top0, s0, idx));
                match arena[idx as usize].l() {
                    Some(l) => {
                        assert(node_ok(arena@, top0, s0, l));
                        assert forall|top: Option<u32>, s: Shape|
                            #[trigger] fits_shape(arena@, top, s, root) implies in_tree(s, l) && s.lo[l]
                                == s.lo[x0] by {
                            assert(node_ok(arena@, top, s, idx));
                        }
                        idx = l;
                    },
                    None => {
                        assert forall|top: Option<u32>, s: Shape|
                            #[trigger] fits_shape(arena@, top, s, root) implies leftmost_is(
                            s,
                            root,
                            Some(idx),
                        ) by {
                            assert(node_ok(arena@, top, s, idx));
                        }
                        return Some(idx);
                    },
                }
            }
        },
    }
}

/// The rightmost node of the subtree at `root`.
pub fn last<N: Node>(arena: &[N], root: Option<u32>) -> (r: Option<u32>)
    requires
        in_some_tree(arena@, root),
    ensures
        forall|top: Option<u32>, s: Shape| #[trigger] fits_shape(arena@, top, s, root) ==> rightmost_is(s, root, r),
{
    let ghost (top0, s0) = choose|top: Option<u32>, s: Shape| fits_shape(arena@, top, s, root);
    match root {
        None => None,
        Some(x0) => {
            let mut idx = x0;
            loop
                invariant
                    root == Some(x0),
                    fits_shape(arena@, top0, s0, root),
                    forall|top: Option<u32>, s: Shape|
                        #[trigger] fits_shape(arena@, top, s, root) ==> in_tree(s, idx) && s.hi[idx]
                            == s.hi[x0],
                decreases s0.hi[idx] - s0.pos[idx],
            {
                assert(fits_shape(arena@, top0, s0, root));
                assert(node_ok(arena@, top0, s0, idx));
                match arena[idx as usize].r() {
                    Some(c) => {
                        assert(node_ok(arena@, top0, s0, c));
                        assert forall|top: Option<u32>, s: Shape|
                            #[trigger] fits_shape(arena@, top, s, root) implies in_tree(s, c) && s.hi[c]
                                == s.hi[x0] by {
                            assert(node_ok(arena@, top, s, idx));
                        }
                        idx = c;
                    },
                    None => {
                        assert forall|top: Option<u32>, s: Shape|
                            #[trigger] fits_shape(arena@, top, s, root) implies rightmost_is(
                            s,
                            root,
                            Some(idx),
                        ) by {
                            assert(node_ok(arena@, top, s, idx));
                        }
                        return Some(idx);
                    },
                }
            }
        },
    }
}

/// The in-order successor of node `curr`.
pub fn next<N: Node>(arena: &[N], curr: u32) -> (r: Option<u32>)
    requires
        in_some_tree(arena@, Some(curr)),
    ensures
        forall|top: Option<u32>, s: Shape| #[trigger] fits_shape(arena@, top, s, Some(curr)) ==> successor_is(s, curr, r),
{
    let ghost (top0, s0) = choose|top: Option<u32>, s: Shape| fits_shape(arena@, top, s, Some(curr));
    assert(fits_shape(arena@, top0, s0, Some(curr)));
    assert(node_ok(arena@, top0, s0, curr));
    if let Some(rc) = arena[curr as usize].r() {
        assert(fits_shape(arena@, top0, s0, Some(rc)));
        let r = first(arena, Some(rc));
        assert forall|top: Option<u32>, s: Shape|
            #[trigger] fits_shape(arena@, top, s, Some(curr)) implies successor_is(s, curr, r) by {
            assert(node_ok(arena@, top, s, curr));
            assert(fits_shape(arena@, top, s, Some(rc)));
            assert(node_ok(arena@, top, s, rc));
        }
        return r;
    }
    assert forall|top: Option<u32>, s: Shape|
        #[trigger] fits_shape(arena@, top, s, Some(curr)) implies in_tree(s, curr) && s.hi[curr]
            == s.pos[curr] + 1 by {
        assert(node_ok(arena@, top, s, curr));
    }
    let mut cur = curr;
    let mut p = arena[curr as usize].p();
    loop
        invariant
            fits_shape(arena@, top0, s0, Some(curr)),
            in_tree(s0, cur),
            p == arena@[cur as int].parent(),
            forall|top: Option<u32>, s: Shape|
                #[trigger] fits_shape(arena@, top, s, Some(curr)) ==> in_tree(s, cur) && s.hi[cur]
                    == s.pos[curr] + 1,
        decreases s0.order.len() - (s0.hi[cur] - s0.lo[cur]),
    {
        assert(fits_shape(arena@, top0, s0, Some(curr)));
        assert(node_ok(arena@, top0, s0, cur));
        match p {
            None => {
                assert forall|top: Option<u32>, s: Shape|
                    #[trigger] fits_shape(arena@, top, s, Some(curr)) implies successor_is(s, curr, None) by {
                    assert(node_ok(arena@, top, s, cur));
                }
                return None;
            },
            Some(pi) => {
                assert(node_ok(arena@, top0, s0, pi));
                if arena[pi as usize].r() == Some(cur) {
                    assert forall|top: Option<u32>, s: Shape|
                        #[trigger] fits_shape(arena@, top, s, Some(curr)) implies in_tree(s, pi)
                            && s.hi[pi] == s.pos[curr] + 1 by {
                        assert(node_ok(arena@, top, s, cur));
                        assert(node_ok(arena@, top, s, pi));
                    }
                    cur = pi;
                    p = arena[pi as usize].p();
                } else {
                    assert forall|top: Option<u32>, s: Shape|
                        #[trigger] fits_shape(arena@, top, s, Some(curr)) implies successor_is(
                        s,
                        curr,
                        Some(pi),
                    ) by {
                        assert(node_ok(arena@, top, s, cur));
                        assert(node_ok(arena@, top, s, pi));
                    }
                    return Some(pi);
                }
            },
        }
    }
}

/// The dump of the subtree at `node`, its lines indented by `tab`, unfolded
/// `fuel` levels deep: `∅` for no node, else `Node(i)` and the dumps of the
/// left and right subtrees on lines `L=` and `R=`, indented two more spaces.
pub open spec fn dump<N: Node>(a: Seq<N>, node: Option<u32>, tab: Seq<char>, fuel: nat) -> Seq<char>
    decreases fuel,
{
    match node {
        None => seq!['∅'],
        Some(i) => if fuel == 0 {
            Seq::empty()
        } else {
            let inner = tab + seq![' ', ' '];
            seq!['N', 'o', 'd', 'e', '('] + decimal(i as nat) + seq![')', '\n'] + tab + seq!['L', '=']
                + dump(a, a[i as int].left(), inner, (fuel - 1) as nat) + seq!['\n'] + tab + seq![
                'R',
                '=',
            ] + dump(a, a[i as int].right(), inner, (fuel - 1) as nat)
        },
    }
}

/// Every unfolding at least `b` levels deep gives `out`.
pub open spec fn dump_settles<N: Node>(a: Seq<N>, node: Option<u32>, tab: Seq<char>, b: nat, out: Seq<
    char,
>) -> bool {
    forall|f: nat| f >= b ==> #[trigger] dump(a, node, tab, f) == out
}

/// Number of nodes of the subtree at `node`.
pub open spec fn subtree_size(s: Shape, node: Option<u32>) -> int {
    match node {
        Some(x) => s.hi[x] - s.lo[x],
        None => 0,
    }
}

fn dump_subtree<N: Node>(
    arena: &[N],
    node: Option<u32>,
    tab: &str,
    Ghost(top): Ghost<Option<u32>>,
    Ghost(s): Ghost<Shape>,
) -> (r: String)
    requires
        tree_ok(arena@, top, s),
        node matches Some(x) ==> in_tree(s, x),
    ensures
        forall|f: nat| f >= subtree_size(s, node) ==> #[trigger] dump(arena@, node, tab@, f) == r@,
    decreases subtree_size(s, node),
{
    proof {
        reveal_strlit("∅");
        reveal_strlit("Node(");
        reveal_strlit(")\n");
        reveal_strlit("L=");
        reveal_strlit("R=");
        reveal_strlit("\n");
        reveal_strlit("  ");
    }
    match node {
        None => {
            let mut out = String::new();
            out.append("∅");
            assert(out@ =~= seq!['∅']);
            out
        },
        Some(i) => {
            proof {
                assert(node_ok(arena@, top, s, i));
            }
            let l = arena[i as usize].l();
            let r = arena[i as usize].r();
            let inner = concat_str(tab, "  ");
            let left = dump_subtree(arena, l, inner.as_str(), Ghost(top), Ghost(s));
            let right = dump_subtree(arena, r, inner.as_str(), Ghost(top), Ghost(s));
            let mut out = String::new();
            out.append("Node(");
            push_decimal(&mut out, i as usize);
            out.append(")\n");
            out.append(tab);
            out.append("L=");
            out.append(left.as_str());
            out.append("\n");
            out.append(tab);
            out.append("R=");
            out.append(right.as_str());
            proof {
                assert("Node("@ =~= seq!['N', 'o', 'd', 'e', '(']);
                assert(")\n"@ =~= seq![')', '\n']);
                assert("L="@ =~= seq!['L', '=']);
                assert("R="@ =~= seq!['R', '=']);
                assert("\n"@ =~= seq!['\n']);
                assert("  "@ =~= seq![' ', ' ']);
                assert forall|f: nat| f >= subtree_size(s, node) implies #[trigger] dump(
                    arena@,
                    node,
                    tab@,
                    f,
                ) == out@ by {
                    let g = (f - 1) as nat;
                    assert(dump(arena@, l, inner@, g) == left@);
                    assert(dump(arena@, r, inner@, g) == right@);
                    assert(dump(arena@, node, tab@, f) =~= out@);
                }
            }
            out
        },
    }
}

/// A dump of the subtree at `node` showing arena indices: `∅` for no node,
/// else `Node(i)` followed by lines `L=` and `R=` with the dumps of the
/// left and right subtrees, indented two more spaces.  The result is the
/// dump unfolded as deep as needed: all fuel from some bound on gives it.
pub fn print<N: Node>(arena: &[N], node: Option<u32>, tab: &str) -> (r: String)
    requires
        exists|top: Option<u32>, s: Shape|
            tree_ok(arena@, top, s) && (node matches Some(x) ==> in_tree(s, x)),
    ensures
        exists|b: nat| #[trigger] dump_settles(arena@, node, tab@, b, r@),
{
    let ghost (top, s) = choose|top: Option<u32>, s: Shape|
        tree_ok(arena@, top, s) && (node matches Some(x) ==> in_tree(s, x));
    let r = dump_subtree(arena, node, tab, Ghost(top), Ghost(s));
    assert(dump_settles(arena@, node, tab@, subtree_size(s, node) as nat, r@));
    r
}

} // verus!
