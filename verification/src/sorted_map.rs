//! An ordered map with positional iterators.
//!
//! Entries are kept in a vector sorted by key; a position is an entry's rank
//! in key order, so iterators are plain positions.
use vstd::prelude::*;
use crate::text::{decimal, push_decimal};

verus! {

/// The comparator that orders keys in their natural order.
#[derive(Clone, Copy, Debug)]
pub struct Natural;

/// The comparator that orders keys in the reverse of their natural order.
#[derive(Clone, Copy, Debug)]
pub struct Reverse;

/// Keys with a strict total order and a three-way comparison that follows
/// it, under the comparator `C`.  A comparator of one's own is a type `C`
/// with `SortedKey<C>` implemented for the key type.
pub trait SortedKey<C = Natural>: Sized {
    /// `self` sorts strictly before `other`.
    spec fn key_lt(self, other: Self) -> bool;

    /// `key_lt` is irreflexive, transitive and total.
    proof fn lemma_key_order(a: Self, b: Self, c: Self)
        ensures
            !a.key_lt(a),
            a.key_lt(b) && b.key_lt(c) ==> a.key_lt(c),
            a.key_lt(b) || a == b || b.key_lt(a),
    ;

    /// Negative, zero or positive as `self` sorts before, equal to or after
    /// `other`.
    fn compare_key(&self, other: &Self) -> (r: i32)
        ensures
            r < 0 <==> self.key_lt(*other),
            r == 0 <==> *self == *other,
            r > 0 <==> other.key_lt(*self),
    ;
}

impl SortedKey for i8 {
    open spec fn key_lt(self, other: Self) -> bool {
        self < other
    }

    proof fn lemma_key_order(a: Self, b: Self, c: Self) {
    }

    fn compare_key(&self, other: &Self) -> (r: i32) {
        if *self == *other {
            0
        } else if *self < *other {
            -1
        } else {
            1
        }
    }
}

impl SortedKey for i16 {
    open spec fn key_lt(self, other: Self) -> bool {
        self < other
    }

    proof fn lemma_key_order(a: Self, b: Self, c: Self) {
    }

    fn compare_key(&self, other: &Self) -> (r: i32) {
        if *self == *other {
            0
        } else if *self < *other {
            -1
        } else {
            1
        }
    }
}

impl SortedKey for u8 {
    open spec fn key_lt(self, other: Self) -> bool {
        self < other
    }

    proof fn lemma_key_order(a: Self, b: Self, c: Self) {
    }

    fn compare_key(&self, other: &Self) -> (r: i32) {
        if *self == *other {
            0
        } else if *self < *other {
            -1
        } else {
            1
        }
    }
}

impl SortedKey for u16 {
    open spec fn key_lt(self, other: Self) -> bool {
        self < other
    }

    proof fn lemma_key_order(a: Self, b: Self, c: Self) {
    }

    fn compare_key(&self, other: &Self) -> (r: i32) {
        if *self == *other {
            0
        } else if *self < *other {
            -1
        } else {
            1
        }
    }
}

impl SortedKey for u128 {
    open spec fn key_lt(self, other: Self) -> bool {
        self < other
    }

    proof fn lemma_key_order(a: Self, b: Self, c: Self) {
    }

    fn compare_key(&self, other: &Self) -> (r: i32) {
        if *self == *other {
            0
        } else if *self < *other {
            -1
        } else {
            1
        }
    }
}

impl SortedKey for i128 {
    open spec fn key_lt(self, other: Self) -> bool {
        self < other
    }

    proof fn lemma_key_order(a: Self, b: Self, c: Self) {
    }

    fn compare_key(&self, other: &Self) -> (r: i32) {
        if *self == *other {
            0
        } else if *self < *other {
            -1
        } else {
            1
        }
    }
}

/// Pairs in lexicographic order: by the first component, then the second.
impl<A: SortedKey<Natural>, B: SortedKey<Natural>> SortedKey<Natural> for (A, B) {
    open spec fn key_lt(self, other: Self) -> bool {
        self.0.key_lt(other.0) || (self.0 == other.0 && self.1.key_lt(other.1))
    }

    proof fn lemma_key_order(a: Self, b: Self, c: Self) {
        A::lemma_key_order(a.0, b.0, c.0);
        B::lemma_key_order(a.1, b.1, c.1);
    }

    fn compare_key(&self, other: &Self) -> (r: i32) {
        let f = self.0.compare_key(&other.0);
        if f != 0 {
            proof {
                A::lemma_key_order(self.0, other.0, self.0);
            }
            f
        } else {
            let g = self.1.compare_key(&other.1);
            proof {
                A::lemma_key_order(self.0, other.0, self.0);
                B::lemma_key_order(self.1, other.1, self.1);
            }
            g
        }
    }
}

impl SortedKey for i32 {
    open spec fn key_lt(self, other: Self) -> bool {
        self < other
    }

    proof fn lemma_key_order(a: Self, b: Self, c: Self) {
    }

    fn compare_key(&self, other: &Self) -> (r: i32) {
        if *self == *other {
            0
        } else if *self < *other {
            -1
        } else {
            1
        }
    }
}

impl SortedKey for i64 {
    open spec fn key_lt(self, other: Self) -> bool {
        self < other
    }

    proof fn lemma_key_order(a: Self, b: Self, c: Self) {
    }

    fn compare_key(&self, other: &Self) -> (r: i32) {
        if *self == *other {
            0
        } else if *self < *other {
            -1
        } else {
            1
        }
    }
}

impl SortedKey for u32 {
    open spec fn key_lt(self, other: Self) -> bool {
        self < other
    }

    proof fn lemma_key_order(a: Self, b: Self, c: Self) {
    }

    fn compare_key(&self, other: &Self) -> (r: i32) {
        if *self == *other {
            0
        } else if *self < *other {
            -1
        } else {
            1
        }
    }
}

impl SortedKey for u64 {
    open spec fn key_lt(self, other: Self) -> bool {
        self < other
    }

    proof fn lemma_key_order(a: Self, b: Self, c: Self) {
    }

    fn compare_key(&self, other: &Self) -> (r: i32) {
        if *self == *other {
            0
        } else if *self < *other {
            -1
        } else {
            1
        }
    }
}

impl SortedKey for usize {
    open spec fn key_lt(self, other: Self) -> bool {
        self < other
    }

    proof fn lemma_key_order(a: Self, b: Self, c: Self) {
    }

    fn compare_key(&self, other: &Self) -> (r: i32) {
        if *self == *other {
            0
        } else if *self < *other {
            -1
        } else {
            1
        }
    }
}

/// Direction of an iterator.
#[derive(Clone, Copy, Debug, Eq, PartialEq, Structural)]
pub enum IteratorType {
    Normal,
    Reverse,
}

impl IteratorType {
    pub const NORMAL: Self = Self::Normal;

    pub const REVERSE: Self = Self::Reverse;
}

/// An iterator as a value: a position within a length, a direction, and the
/// cached entry it points at.
pub ghost struct IterView {
    pub pos: nat,
    pub len: nat,
    pub iterator_type: IteratorType,
    pub node: Option<u32>,
}

/// Position-based iterator over a sorted map: `pos == len` is the end.
#[derive(Clone, Debug)]
pub struct OrderedMapIterator {
    pos: usize,
    len: usize,
    pub iterator_type: IteratorType,
    /// The entry the iterator points at, cached by the bound searches.
    pub node: Option<u32>,
}

impl View for OrderedMapIterator {
    type V = IterView;

    closed spec fn view(&self) -> IterView {
        IterView {
            pos: self.pos as nat,
            len: self.len as nat,
            iterator_type: self.iterator_type,
            node: self.node,
        }
    }
}

impl OrderedMapIterator {
    /// An iterator's position and length are machine words.
    pub proof fn lemma_bounds(&self)
        ensures
            self@.pos <= usize::MAX,
            self@.len <= usize::MAX,
    {
    }

    pub fn new(pos: usize, len: usize, iterator_type: IteratorType) -> (r: Self)
        ensures
            r@ == (IterView { pos: pos as nat, len: len as nat, iterator_type, node: None }),
    {
        Self { pos, len, iterator_type, node: None }
    }

    pub fn with_node(pos: usize, len: usize, iterator_type: IteratorType, node: Option<u32>) -> (r:
        Self)
        ensures
            r@ == (IterView { pos: pos as nat, len: len as nat, iterator_type, node }),
    {
        Self { pos, len, iterator_type, node }
    }

    /// Steps back: towards the start for a normal iterator, towards the end
    /// (wrapping from the end to the first entry) for a reverse one.
    pub fn pre(&mut self) -> (r: &mut Self)
        requires
            old(self)@.iterator_type == IteratorType::Normal ==> old(self)@.len != 0 && old(
                self,
            )@.pos != 0,
            old(self)@.iterator_type == IteratorType::Reverse ==> old(self)@.len != 0 && old(
                self,
            )@.pos != old(self)@.len - 1 && old(self)@.pos < usize::MAX,
        ensures
            r@ == (IterView {
                pos: if old(self)@.iterator_type == IteratorType::Normal {
                    (old(self)@.pos - 1) as nat
                } else if old(self)@.pos == old(self)@.len {
                    0
                } else {
                    old(self)@.pos + 1
                },
                node: None,
                ..old(self)@
            }),
            *final(self) == *final(r),
    {
        match self.iterator_type {
            IteratorType::Normal => {
                self.pos = self.pos - 1;
            },
            IteratorType::Reverse => {
                if self.pos == self.len {
                    self.pos = 0;
                } else {
                    self.pos = self.pos + 1;
                }
            },
        }
        self.node = None;
        self
    }

    /// Steps forward: towards the end for a normal iterator, towards the
    /// start (wrapping from the first entry to the end) for a reverse one.
    pub fn next(&mut self) -> (r: &mut Self)
        requires
            old(self)@.pos != old(self)@.len,
            old(self)@.iterator_type == IteratorType::Normal ==> old(self)@.pos < usize::MAX,
        ensures
            r@ == (IterView {
                pos: if old(self)@.iterator_type == IteratorType::Normal {
                    old(self)@.pos + 1
                } else if old(self)@.pos == 0 {
                    old(self)@.len
                } else {
                    (old(self)@.pos - 1) as nat
                },
                node: None,
                ..old(self)@
            }),
            *final(self) == *final(r),
    {
        match self.iterator_type {
            IteratorType::Normal => {
                self.pos = self.pos + 1;
            },
            IteratorType::Reverse => {
                if self.pos == 0 {
                    self.pos = self.len;
                } else {
                    self.pos = self.pos - 1;
                }
            },
        }
        self.node = None;
        self
    }

    /// The position, or the last position when at the end.
    pub fn index(&self) -> (r: usize)
        ensures
            r == if self@.pos == self@.len {
                if self@.len == 0 {
                    0
                } else {
                    (self@.len - 1) as nat
                }
            } else {
                self@.pos
            },
    {
        if self.pos == self.len {
            self.len.saturating_sub(1)
        } else {
            self.pos
        }
    }

    /// Whether the iterator points at an entry (is not at the end).
    pub fn is_accessible(&self) -> (r: bool)
        ensures
            r == (self@.pos != self@.len),
    {
        self.pos != self.len
    }

    pub fn copy(&self) -> (r: Self)
        ensures
            r@ == self@,
    {
        Self { pos: self.pos, len: self.len, iterator_type: self.iterator_type, node: self.node }
    }

    /// Same position and direction.
    pub fn equals(&self, other: &Self) -> (r: bool)
        ensures
            r == (self@.pos == other@.pos && self@.iterator_type == other@.iterator_type),
    {
        self.pos == other.pos && self.iterator_type == other.iterator_type
    }

    /// The position, when the iterator points at an entry.
    pub fn position(&self) -> (r: Option<usize>)
        ensures
            r == if self@.pos != self@.len {
                Some(self@.pos as usize)
            } else {
                None
            },
    {
        if self.is_accessible() {
            Some(self.pos)
        } else {
            None
        }
    }

    /// Sets the length, pulling the position back to the end if it was past it.
    pub fn sync_len(&mut self, len: usize)
        ensures
            final(self)@ == (IterView {
                pos: if old(self)@.pos > len { len as nat } else { old(self)@.pos },
                len: len as nat,
                ..old(self)@
            }),
    {
        self.len = len;
        if self.pos > len {
            self.pos = len;
        }
    }

    pub fn set_position(&mut self, pos: usize)
        ensures
            final(self)@ == (IterView { pos: pos as nat, ..old(self)@ }),
    {
        self.pos = pos;
    }
}

/// A tree node of the map's node layout.
#[derive(Clone, Debug)]
pub struct SortedMapNode<K, V> {
    pub l: Option<usize>,
    pub r: Option<usize>,
    pub p: Option<usize>,
    pub k: K,
    pub v: V,
    pub b: bool,
}

impl<K, V> SortedMapNode<K, V> {
    pub fn new(k: K, v: V, b: bool) -> (r: Self)
        ensures
            r.l is None && r.r is None && r.p is None,
            r.k == k && r.v == v && r.b == b,
    {
        Self { l: None, r: None, p: None, k, v, b }
    }
}

/// A tree node that also records the size of its subtree.
#[derive(Clone, Debug)]
pub struct SortedMapNodeEnableIndex<K, V> {
    pub base: SortedMapNode<K, V>,
    pub _size: usize,
}

impl<K, V> SortedMapNodeEnableIndex<K, V> {
    pub fn new(k: K, v: V, b: bool) -> (r: Self)
        ensures
            r.base.l is None && r.base.r is None && r.base.p is None,
            r.base.k == k && r.base.v == v && r.base.b == b,
            r._size == 1,
    {
        Self { base: SortedMapNode::new(k, v, b), _size: 1 }
    }
}

/// Keys strictly increase along `s`.
pub open spec fn sorted<K: SortedKey<C>, V, C>(s: Seq<(K, V)>) -> bool {
    forall|i: int, j: int| 0 <= i < j < s.len() ==> (#[trigger] s[i]).0.key_lt((#[trigger] s[j]).0)
}

/// `p` is where key `k` stands or would stand in `s`: every key before `p`
/// sorts before `k`, no key from `p` on does.
pub open spec fn is_lower_pos<K: SortedKey<C>, V, C>(s: Seq<(K, V)>, k: K, p: int) -> bool {
    &&& 0 <= p <= s.len()
    &&& forall|i: int| 0 <= i < p ==> (#[trigger] s[i]).0.key_lt(k)
    &&& forall|i: int| p <= i < s.len() ==> !(#[trigger] s[i]).0.key_lt(k)
}

/// `q` is the position just past every key that does not sort after `k`.
pub open spec fn is_upper_pos<K: SortedKey<C>, V, C>(s: Seq<(K, V)>, k: K, q: int) -> bool {
    &&& 0 <= q <= s.len()
    &&& forall|i: int| 0 <= i < q ==> !k.key_lt((#[trigger] s[i]).0)
    &&& forall|i: int| q <= i < s.len() ==> k.key_lt((#[trigger] s[i]).0)
}

/// The position key `k` has or would take in `s`.
pub open spec fn lower_pos<K: SortedKey<C>, V, C>(s: Seq<(K, V)>, k: K) -> int {
    choose|p: int| is_lower_pos::<_, _, C>(s, k, p)
}

/// The position just past the keys that do not sort after `k`.
pub open spec fn upper_pos<K: SortedKey<C>, V, C>(s: Seq<(K, V)>, k: K) -> int {
    choose|q: int| is_upper_pos::<_, _, C>(s, k, q)
}

/// Whether `k` is a key of `s`.
pub open spec fn has_key<K: SortedKey<C>, V, C>(s: Seq<(K, V)>, k: K) -> bool {
    0 <= lower_pos::<_, _, C>(s, k) < s.len() && s[lower_pos::<_, _, C>(s, k)].0 == k
}

/// The value stored under `k`.
pub open spec fn lookup<K: SortedKey<C>, V, C>(s: Seq<(K, V)>, k: K) -> Option<V> {
    if has_key::<_, _, C>(s, k) {
        Some(s[lower_pos::<_, _, C>(s, k)].1)
    } else {
        None
    }
}

/// `s` with `k` mapped to `v`: the value replaced in place, or a new entry
/// at the key's position.
pub open spec fn set_view<K: SortedKey<C>, V, C>(s: Seq<(K, V)>, k: K, v: V) -> Seq<(K, V)> {
    if has_key::<_, _, C>(s, k) {
        s.update(lower_pos::<_, _, C>(s, k), (k, v))
    } else {
        s.insert(lower_pos::<_, _, C>(s, k), (k, v))
    }
}

/// `s` without key `k`.
pub open spec fn erase_view<K: SortedKey<C>, V, C>(s: Seq<(K, V)>, k: K) -> Seq<(K, V)> {
    if has_key::<_, _, C>(s, k) {
        s.remove(lower_pos::<_, _, C>(s, k))
    } else {
        s
    }
}

/// In a sorted sequence the position of a key is the one named.
pub proof fn lemma_lower_pos_unique<K: SortedKey<C>, V, C>(s: Seq<(K, V)>, k: K, p: int)
    requires
        is_lower_pos::<_, _, C>(s, k, p),
    ensures
        lower_pos::<_, _, C>(s, k) == p,
{
    let q = lower_pos::<_, _, C>(s, k);
    assert(is_lower_pos::<_, _, C>(s, k, q));
    if q < p {
        assert(s[q].0.key_lt(k));
    } else if q > p {
        assert(s[p].0.key_lt(k));
    }
}

/// In a sorted sequence the upper position of a key is the one named.
pub proof fn lemma_upper_pos_unique<K: SortedKey<C>, V, C>(s: Seq<(K, V)>, k: K, q: int)
    requires
        is_upper_pos::<_, _, C>(s, k, q),
    ensures
        upper_pos::<_, _, C>(s, k) == q,
{
    let r = upper_pos::<_, _, C>(s, k);
    assert(is_upper_pos::<_, _, C>(s, k, r));
    if r < q {
        assert(k.key_lt(s[r].0));
    } else if r > q {
        assert(k.key_lt(s[q].0));
    }
}

/// Every sorted sequence has a position for every key.
pub proof fn lemma_lower_pos_exists<K: SortedKey<C>, V, C>(s: Seq<(K, V)>, k: K)
    requires
        sorted::<_, _, C>(s),
    ensures
        is_lower_pos::<_, _, C>(s, k, lower_pos::<_, _, C>(s, k)),
    decreases s.len(),
{
    if s.len() == 0 {
        assert(is_lower_pos::<_, _, C>(s, k, 0));
    } else {
        let t = s.drop_last();
        assert(sorted::<_, _, C>(t)) by {
            assert forall|i: int, j: int| 0 <= i < j < t.len() implies (#[trigger] t[i]).0.key_lt(
                (#[trigger] t[j]).0,
            ) by {
                assert(t[i] == s[i] && t[j] == s[j]);
            }
        }
        lemma_lower_pos_exists::<_, _, C>(t, k);
        let p = lower_pos::<_, _, C>(t, k);
        if p == t.len() && s.last().0.key_lt(k) {
            assert forall|i: int| 0 <= i < s.len() implies (#[trigger] s[i]).0.key_lt(k) by {
                if i < t.len() {
                    assert(s[i] == t[i]);
                }
            }
            assert(is_lower_pos::<_, _, C>(s, k, s.len() as int));
        } else {
            assert forall|i: int| p <= i < s.len() implies !(#[trigger] s[i]).0.key_lt(k) by {
                if i < t.len() {
                    assert(s[i] == t[i]);
                } else if p < t.len() {
                    K::lemma_key_order(s[p].0, s[i].0, k);
                    K::lemma_key_order(k, s[p].0, s[i].0);
                    assert(s[p] == t[p]);
                    K::lemma_key_order(s[i].0, k, s[i].0);
                    if s[i].0.key_lt(k) {
                        K::lemma_key_order(s[p].0, s[i].0, k);
                    }
                }
            }
            assert forall|i: int| 0 <= i < p implies (#[trigger] s[i]).0.key_lt(k) by {
                assert(s[i] == t[i]);
            }
            assert(is_lower_pos::<_, _, C>(s, k, p));
        }
    }
}

/// Every sorted sequence has an upper position for every key.
pub proof fn lemma_upper_pos_exists<K: SortedKey<C>, V, C>(s: Seq<(K, V)>, k: K)
    requires
        sorted::<_, _, C>(s),
    ensures
        is_upper_pos::<_, _, C>(s, k, upper_pos::<_, _, C>(s, k)),
    decreases s.len(),
{
    if s.len() == 0 {
        assert(is_upper_pos::<_, _, C>(s, k, 0));
    } else {
        let t = s.drop_last();
        assert(sorted::<_, _, C>(t)) by {
            assert forall|i: int, j: int| 0 <= i < j < t.len() implies (#[trigger] t[i]).0.key_lt(
                (#[trigger] t[j]).0,
            ) by {
                assert(t[i] == s[i] && t[j] == s[j]);
            }
        }
        lemma_upper_pos_exists::<_, _, C>(t, k);
        let q = upper_pos::<_, _, C>(t, k);
        if q == t.len() && !k.key_lt(s.last().0) {
            assert forall|i: int| 0 <= i < s.len() implies !k.key_lt((#[trigger] s[i]).0) by {
                if i < t.len() {
                    assert(s[i] == t[i]);
                }
            }
            assert(is_upper_pos::<_, _, C>(s, k, s.len() as int));
        } else {
            assert forall|i: int| q <= i < s.len() implies k.key_lt((#[trigger] s[i]).0) by {
                if i < t.len() {
                    assert(s[i] == t[i]);
                } else if q < t.len() {
                    assert(s[q] == t[q]);
                    K::lemma_key_order(k, s[q].0, s[i].0);
                }
            }
            assert forall|i: int| 0 <= i < q implies !k.key_lt((#[trigger] s[i]).0) by {
                assert(s[i] == t[i]);
            }
            assert(is_upper_pos::<_, _, C>(s, k, q));
        }
    }
}

/// Setting a key keeps the entries sorted.
pub proof fn lemma_set_sorted<K: SortedKey<C>, V, C>(s: Seq<(K, V)>, k: K, v: V)
    requires
        sorted::<_, _, C>(s),
    ensures
        sorted::<_, _, C>(set_view::<_, _, C>(s, k, v)),
        set_view::<_, _, C>(s, k, v).len() == if has_key::<_, _, C>(s, k) { s.len() } else { s.len() + 1 },
{
    lemma_lower_pos_exists::<_, _, C>(s, k);
    let p = lower_pos::<_, _, C>(s, k);
    let w = set_view::<_, _, C>(s, k, v);
    if has_key::<_, _, C>(s, k) {
        assert forall|i: int, j: int| 0 <= i < j < w.len() implies (#[trigger] w[i]).0.key_lt(
            (#[trigger] w[j]).0,
        ) by {
            assert(s[i].0.key_lt(s[j].0));
        }
    } else {
        assert forall|i: int| p <= i < s.len() implies k.key_lt((#[trigger] s[i]).0) by {
            K::lemma_key_order(k, s[p].0, s[i].0);
            K::lemma_key_order(s[p].0, k, s[i].0);
            if i > p {
                assert(s[p].0.key_lt(s[i].0));
            }
        }
        assert forall|i: int, j: int| 0 <= i < j < w.len() implies (#[trigger] w[i]).0.key_lt(
            (#[trigger] w[j]).0,
        ) by {
            if j < p {
                assert(w[i] == s[i] && w[j] == s[j]);
            } else if j == p {
                assert(w[i] == s[i]);
            } else if i < p {
                assert(w[i] == s[i] && w[j] == s[j - 1]);
                K::lemma_key_order(s[i].0, k, s[j - 1].0);
            } else if i == p {
                assert(w[j] == s[j - 1]);
            } else {
                assert(w[i] == s[i - 1] && w[j] == s[j - 1]);
            }
        }
    }
}

/// Erasing a key keeps the entries sorted.
pub proof fn lemma_erase_sorted<K: SortedKey<C>, V, C>(s: Seq<(K, V)>, k: K)
    requires
        sorted::<_, _, C>(s),
    ensures
        sorted::<_, _, C>(erase_view::<_, _, C>(s, k)),
        erase_view::<_, _, C>(s, k).len() == if has_key::<_, _, C>(s, k) { s.len() - 1 } else { s.len() as int },
{
    lemma_lower_pos_exists::<_, _, C>(s, k);
    let p = lower_pos::<_, _, C>(s, k);
    let w = erase_view::<_, _, C>(s, k);
    if has_key::<_, _, C>(s, k) {
        assert forall|i: int, j: int| 0 <= i < j < w.len() implies (#[trigger] w[i]).0.key_lt(
            (#[trigger] w[j]).0,
        ) by {
            let a = if i < p { i } else { i + 1 };
            let b = if j < p { j } else { j + 1 };
            assert(w[i] == s[a] && w[j] == s[b]);
        }
    }
}

/// In a sorted sequence an entry is found at its own position.
pub proof fn lemma_lookup_at<K: SortedKey<C>, V, C>(s: Seq<(K, V)>, i: int)
    requires
        sorted::<_, _, C>(s),
        0 <= i < s.len(),
    ensures
        lower_pos::<_, _, C>(s, s[i].0) == i,
        lookup::<_, _, C>(s, s[i].0) == Some(s[i].1),
{
    let k = s[i].0;
    assert forall|j: int| i <= j < s.len() implies !(#[trigger] s[j]).0.key_lt(k) by {
        K::lemma_key_order(k, k, k);
        if j > i {
            assert(s[i].0.key_lt(s[j].0));
            K::lemma_key_order(k, s[j].0, k);
        }
    }
    assert forall|j: int| 0 <= j < i implies (#[trigger] s[j]).0.key_lt(k) by {
        assert(s[j].0.key_lt(s[i].0));
    }
    lemma_lower_pos_unique::<_, _, C>(s, k, i);
}

/// A key held by no entry is not found.
pub proof fn lemma_lookup_absent<K: SortedKey<C>, V, C>(s: Seq<(K, V)>, k: K)
    requires
        forall|i: int| 0 <= i < s.len() ==> (#[trigger] s[i]).0 != k,
    ensures
        lookup::<_, _, C>(s, k) is None,
{
    let p = lower_pos::<_, _, C>(s, k);
    if 0 <= p < s.len() {
        assert(s[p].0 != k);
    }
}

/// A read gives back the last write: after `k` is set to `v`, looking up
/// `k` gives `v` and every other key gives what it gave before.
pub proof fn lemma_get_after_set<K: SortedKey<C>, V, C>(s: Seq<(K, V)>, k: K, v: V, k2: K)
    requires
        sorted::<_, _, C>(s),
    ensures
        lookup::<_, _, C>(set_view::<_, _, C>(s, k, v), k) == Some(v),
        k2 != k ==> lookup::<_, _, C>(set_view::<_, _, C>(s, k, v), k2) == lookup::<_, _, C>(s, k2),
{
    lemma_set_sorted::<_, _, C>(s, k, v);
    lemma_lower_pos_exists::<_, _, C>(s, k);
    let p = lower_pos::<_, _, C>(s, k);
    let w = set_view::<_, _, C>(s, k, v);
    assert(w[p] == (k, v));
    lemma_lookup_at::<_, _, C>(w, p);
    if k2 != k {
        if exists|i: int| 0 <= i < s.len() && (#[trigger] s[i]).0 == k2 {
            let i = choose|i: int| 0 <= i < s.len() && (#[trigger] s[i]).0 == k2;
            lemma_lookup_at::<_, _, C>(s, i);
            let j = if has_key::<_, _, C>(s, k) || i < p { i } else { i + 1 };
            if has_key::<_, _, C>(s, k) {
                assert(i != p);
            }
            assert(w[j] == s[i]);
            lemma_lookup_at::<_, _, C>(w, j);
        } else {
            assert forall|j: int| 0 <= j < w.len() implies (#[trigger] w[j]).0 != k2 by {
                if j != p {
                    let i = if has_key::<_, _, C>(s, k) || j < p { j } else { j - 1 };
                    assert(w[j] == s[i]);
                }
            }
            lemma_lookup_absent::<_, _, C>(w, k2);
            lemma_lookup_absent::<_, _, C>(s, k2);
        }
    }
}

/// After `k` is erased, looking it up gives nothing and every other key
/// gives what it gave before.
pub proof fn lemma_get_after_erase<K: SortedKey<C>, V, C>(s: Seq<(K, V)>, k: K, k2: K)
    requires
        sorted::<_, _, C>(s),
    ensures
        lookup::<_, _, C>(erase_view::<_, _, C>(s, k), k) is None,
        k2 != k ==> lookup::<_, _, C>(erase_view::<_, _, C>(s, k), k2) == lookup::<_, _, C>(s, k2),
{
    lemma_erase_sorted::<_, _, C>(s, k);
    lemma_lower_pos_exists::<_, _, C>(s, k);
    let p = lower_pos::<_, _, C>(s, k);
    let w = erase_view::<_, _, C>(s, k);
    assert forall|j: int| 0 <= j < w.len() implies (#[trigger] w[j]).0 != k by {
        if has_key::<_, _, C>(s, k) {
            let i = if j < p { j } else { j + 1 };
            assert(w[j] == s[i]);
            if s[i].0 == k {
                lemma_lookup_at::<_, _, C>(s, i);
            }
        } else {
            if s[j].0 == k {
                lemma_lookup_at::<_, _, C>(s, j);
            }
        }
    }
    lemma_lookup_absent::<_, _, C>(w, k);
    if k2 != k {
        if exists|i: int| 0 <= i < s.len() && (#[trigger] s[i]).0 == k2 {
            let i = choose|i: int| 0 <= i < s.len() && (#[trigger] s[i]).0 == k2;
            lemma_lookup_at::<_, _, C>(s, i);
            let j = if !has_key::<_, _, C>(s, k) || i < p { i } else { i - 1 };
            if has_key::<_, _, C>(s, k) {
                assert(i != p);
            }
            assert(w[j] == s[i]);
            lemma_lookup_at::<_, _, C>(w, j);
        } else {
            assert forall|j: int| 0 <= j < w.len() implies (#[trigger] w[j]).0 != k2 by {
                let i = if !has_key::<_, _, C>(s, k) || j < p { j } else { j + 1 };
                assert(w[j] == s[i]);
            }
            lemma_lookup_absent::<_, _, C>(w, k2);
            lemma_lookup_absent::<_, _, C>(s, k2);
        }
    }
}

/// Setting a key adds an entry exactly when the key was absent, and erasing
/// removes one exactly when it was present.
pub proof fn lemma_size_after_set_and_erase<K: SortedKey<C>, V, C>(s: Seq<(K, V)>, k: K, v: V)
    requires
        sorted::<_, _, C>(s),
    ensures
        set_view::<_, _, C>(s, k, v).len() == s.len() + if lookup::<_, _, C>(s, k) is Some { 0int } else { 1 },
        erase_view::<_, _, C>(s, k).len() == s.len() - if lookup::<_, _, C>(s, k) is Some { 1int } else { 0 },
{
    lemma_set_sorted::<_, _, C>(s, k, v);
    lemma_erase_sorted::<_, _, C>(s, k);
}

/// Height of a balanced binary search tree over `n` entries.
pub open spec fn balanced_height(n: nat) -> nat
    decreases n,
{
    if n == 0 {
        0
    } else {
        1 + balanced_height(n / 2)
    }
}

/// The sorted map.
pub struct SortedMap<K, V, C = Natural> {
    pub enable_index: bool,
    pub comparator: C,
    entries: Vec<(K, V)>,
}

impl<K: SortedKey<C>, V, C> View for SortedMap<K, V, C> {
    type V = Seq<(K, V)>;

    closed spec fn view(&self) -> Seq<(K, V)> {
        self.entries@
    }
}

impl<K: SortedKey<C>, V, C> SortedMap<K, V, C> {
    /// Well-formedness: the entries are sorted by key.
    pub open spec fn wf(&self) -> bool {
        sorted::<_, _, C>(self@)
    }

    /// Whether the map was asked to keep positional indexes.
    pub closed spec fn index_enabled(&self) -> bool {
        self.enable_index
    }

    /// An empty map whose keys `comparator` orders.
    pub fn with_comparator(comparator: C, enable_index: bool) -> (r: Self)
        ensures
            r@ == Seq::<(K, V)>::empty(),
            r.wf(),
            r.index_enabled() == enable_index,
    {
        Self { enable_index, comparator, entries: Vec::new() }
    }

    /// Binary search for the position of `key`.
    fn search(&self, key: &K) -> (p: usize)
        requires
            self.wf(),
        ensures
            is_lower_pos::<_, _, C>(self@, *key, p as int),
            p == lower_pos::<_, _, C>(self@, *key),
    {
        let mut lo: usize = 0;
        let mut hi: usize = self.entries.len();
        while lo < hi
            invariant
                lo <= hi <= self@.len(),
                self.wf(),
                forall|i: int| 0 <= i < lo ==> (#[trigger] self@[i]).0.key_lt(*key),
                forall|i: int| hi <= i < self@.len() ==> !(#[trigger] self@[i]).0.key_lt(*key),
            decreases hi - lo,
        {
            let mid = lo + (hi - lo) / 2;
            let c = self.entries[mid].0.compare_key(key);
            if c < 0 {
                proof {
                    assert forall|i: int| 0 <= i < mid + 1 implies (#[trigger] self@[i]).0.key_lt(
                        *key,
                    ) by {
                        if i < mid {
                            assert(self@[i].0.key_lt(self@[mid as int].0));
                            K::lemma_key_order(self@[i].0, self@[mid as int].0, *key);
                        }
                    }
                }
                lo = mid + 1;
            } else {
                proof {
                    assert forall|i: int| mid <= i < self@.len() implies !(
                    #[trigger] self@[i]).0.key_lt(*key) by {
                        if i > mid {
                            assert(self@[mid as int].0.key_lt(self@[i].0));
                            K::lemma_key_order(*key, self@[mid as int].0, self@[i].0);
                            K::lemma_key_order(self@[i].0, *key, self@[i].0);
                            K::lemma_key_order(self@[mid as int].0, self@[i].0, *key);
                            K::lemma_key_order(*key, *key, *key);
                        }
                    }
                }
                hi = mid;
            }
        }
        proof {
            lemma_lower_pos_unique::<_, _, C>(self@, *key, lo as int);
        }
        lo
    }

    /// Binary search for the position just past the keys not after `key`.
    fn search_upper(&self, key: &K) -> (q: usize)
        requires
            self.wf(),
        ensures
            is_upper_pos::<_, _, C>(self@, *key, q as int),
            q == upper_pos::<_, _, C>(self@, *key),
    {
        let mut lo: usize = 0;
        let mut hi: usize = self.entries.len();
        while lo < hi
            invariant
                lo <= hi <= self@.len(),
                self.wf(),
                forall|i: int| 0 <= i < lo ==> !key.key_lt((#[trigger] self@[i]).0),
                forall|i: int| hi <= i < self@.len() ==> key.key_lt((#[trigger] self@[i]).0),
            decreases hi - lo,
        {
            let mid = lo + (hi - lo) / 2;
            let c = self.entries[mid].0.compare_key(key);
            if c <= 0 {
                proof {
                    assert forall|i: int| 0 <= i < mid + 1 implies !key.key_lt(
                        (#[trigger] self@[i]).0,
                    ) by {
                        K::lemma_key_order(*key, *key, *key);
                        if i < mid {
                            assert(self@[i].0.key_lt(self@[mid as int].0));
                            K::lemma_key_order(*key, self@[i].0, self@[mid as int].0);
                            K::lemma_key_order(self@[mid as int].0, *key, self@[mid as int].0);
                        } else {
                            K::lemma_key_order(self@[mid as int].0, *key, self@[mid as int].0);
                        }
                    }
                }
                lo = mid + 1;
            } else {
                proof {
                    assert forall|i: int| mid <= i < self@.len() implies key.key_lt(
                        (#[trigger] self@[i]).0,
                    ) by {
                        if i > mid {
                            assert(self@[mid as int].0.key_lt(self@[i].0));
                            K::lemma_key_order(*key, self@[mid as int].0, self@[i].0);
                        }
                    }
                }
                hi = mid;
            }
        }
        proof {
            lemma_upper_pos_unique::<_, _, C>(self@, *key, lo as int);
        }
        lo
    }
}

impl<K: SortedKey, V> SortedMap<K, V, Natural> {
    /// An empty map whose keys are in their natural order.
    pub fn new() -> (r: Self)
        ensures
            r@ == Seq::<(K, V)>::empty(),
            r.wf(),
            !r.index_enabled(),
    {
        Self::with_comparator(Natural, false)
    }
}

impl<K: SortedKey, V> Default for SortedMap<K, V, Natural> {
    fn default() -> (r: Self)
        ensures
            r@ == Seq::<(K, V)>::empty(),
            r.wf(),
    {
        Self::new()
    }
}

impl<K: SortedKey<C>, V, C> SortedMap<K, V, C> {
    pub fn length(&self) -> (r: usize)
        ensures
            r == self@.len(),
    {
        self.entries.len()
    }

    pub fn size(&self) -> (r: usize)
        ensures
            r == self@.len(),
    {
        self.entries.len()
    }

    pub fn empty(&self) -> (r: bool)
        ensures
            r == (self@.len() == 0),
    {
        self.entries.len() == 0
    }

    pub fn is_empty(&self) -> (r: bool)
        ensures
            r == (self@.len() == 0),
    {
        self.entries.len() == 0
    }

    #[allow(non_snake_case)]
    pub fn isEmpty(&self) -> (r: bool)
        ensures
            r == (self@.len() == 0),
    {
        self.is_empty()
    }

    /// Maps `key` to `value`; returns the number of entries after.
    pub fn set_element(&mut self, key: K, value: V, _hint: Option<&OrderedMapIterator>) -> (r:
        usize)
        requires
            old(self).wf(),
        ensures
            final(self).wf(),
            final(self)@ == set_view::<_, _, C>(old(self)@, key, value),
            r == final(self)@.len(),
            final(self).index_enabled() == old(self).index_enabled(),
    {
        let p = self.search(&key);
        let ghost s = self@;
        proof {
            lemma_set_sorted::<_, _, C>(s, key, value);
        }
        if p < self.entries.len() && self.entries[p].0.compare_key(&key) == 0 {
            self.entries.set(p, (key, value));
        } else {
            self.entries.insert(p, (key, value));
        }
        self.entries.len()
    }

    #[allow(non_snake_case)]
    pub fn setElement(&mut self, key: K, value: V, hint: Option<&OrderedMapIterator>) -> (r: usize)
        requires
            old(self).wf(),
        ensures
            final(self).wf(),
            final(self)@ == set_view::<_, _, C>(old(self)@, key, value),
            r == final(self)@.len(),
            final(self).index_enabled() == old(self).index_enabled(),
    {
        self.set_element(key, value, hint)
    }

    /// Removes `key`; returns whether it was there.
    pub fn erase_element_by_key(&mut self, key: &K) -> (r: bool)
        requires
            old(self).wf(),
        ensures
            final(self).wf(),
            final(self)@ == erase_view::<_, _, C>(old(self)@, *key),
            r == has_key::<_, _, C>(old(self)@, *key),
            final(self).index_enabled() == old(self).index_enabled(),
    {
        let p = self.search(key);
        proof {
            lemma_erase_sorted::<_, _, C>(self@, *key);
        }
        if p < self.entries.len() && self.entries[p].0.compare_key(key) == 0 {
            self.entries.remove(p);
            true
        } else {
            false
        }
    }

    #[allow(non_snake_case)]
    pub fn eraseElementByKey(&mut self, key: &K) -> (r: bool)
        requires
            old(self).wf(),
        ensures
            final(self).wf(),
            final(self)@ == erase_view::<_, _, C>(old(self)@, *key),
            r == has_key::<_, _, C>(old(self)@, *key),
            final(self).index_enabled() == old(self).index_enabled(),
    {
        self.erase_element_by_key(key)
    }

    /// The value stored under `key`.
    pub fn get_element_by_key(&self, key: &K) -> (r: Option<&V>)
        requires
            self.wf(),
        ensures
            match r {
                Some(v) => lookup::<_, _, C>(self@, *key) == Some(*v),
                None => lookup::<_, _, C>(self@, *key) is None,
            },
    {
        let p = self.search(key);
        if p < self.entries.len() && self.entries[p].0.compare_key(key) == 0 {
            Some(&self.entries[p].1)
        } else {
            None
        }
    }

    #[allow(non_snake_case)]
    pub fn getElementByKey(&self, key: &K) -> (r: Option<&V>)
        requires
            self.wf(),
        ensures
            match r {
                Some(v) => lookup::<_, _, C>(self@, *key) == Some(*v),
                None => lookup::<_, _, C>(self@, *key) is None,
            },
    {
        self.get_element_by_key(key)
    }

    /// Gives the entry at the iterator's position the key `key`, when that
    /// keeps the keys strictly increasing around it; returns whether it did.
    pub fn update_key_by_iterator(&mut self, iter: &OrderedMapIterator, key: K) -> (r: bool)
        requires
            old(self).wf(),
            iter@.pos < old(self)@.len(),
            iter@.pos != iter@.len,
        ensures
            final(self).wf(),
            final(self).index_enabled() == old(self).index_enabled(),
            r == key_fits_at::<_, _, C>(old(self)@, iter@.pos as int, key),
            final(self)@ == if r {
                old(self)@.update(iter@.pos as int, (key, old(self)@[iter@.pos as int].1))
            } else {
                old(self)@
            },
    {
        let pos = iter.position().unwrap();
        let n = self.entries.len();
        let ok = if n == 1 {
            true
        } else if pos == 0 {
            self.entries[1].0.compare_key(&key) > 0
        } else if pos == n - 1 {
            self.entries[n - 2].0.compare_key(&key) < 0
        } else {
            let pre_ok = self.entries[pos - 1].0.compare_key(&key) < 0;
            let next_ok = self.entries[pos + 1].0.compare_key(&key) > 0;
            pre_ok && next_ok
        };
        if ok {
            let ghost s = self@;
            let (_, v) = self.entries.remove(pos);
            self.entries.insert(pos, (key, v));
            proof {
                assert(self@ =~= s.update(pos as int, (key, s[pos as int].1)));
                assert forall|i: int, j: int| 0 <= i < j < self@.len() implies (
                #[trigger] self@[i]).0.key_lt((#[trigger] self@[j]).0) by {
                    if i != pos && j != pos {
                        assert(s[i].0.key_lt(s[j].0));
                    } else if i == pos {
                        if j > pos + 1 {
                            assert(s[pos + 1].0.key_lt(s[j].0));
                            K::lemma_key_order(key, s[pos + 1].0, s[j].0);
                        }
                    } else {
                        if i < pos - 1 {
                            assert(s[i].0.key_lt(s[pos - 1].0));
                            K::lemma_key_order(s[i].0, s[pos - 1].0, key);
                        }
                    }
                }
            }
        }
        ok
    }

    #[allow(non_snake_case)]
    pub fn updateKeyByIterator(&mut self, iter: &OrderedMapIterator, key: K) -> (r: bool)
        requires
            old(self).wf(),
            iter@.pos < old(self)@.len(),
            iter@.pos != iter@.len,
        ensures
            final(self).wf(),
            final(self).index_enabled() == old(self).index_enabled(),
            r == key_fits_at::<_, _, C>(old(self)@, iter@.pos as int, key),
            final(self)@ == if r {
                old(self)@.update(iter@.pos as int, (key, old(self)@[iter@.pos as int].1))
            } else {
                old(self)@
            },
    {
        self.update_key_by_iterator(iter, key)
    }

    /// Removes the entry at the iterator's position; returns the iterator
    /// moved to where iteration continues.
    pub fn erase_element_by_iterator(&mut self, iter: OrderedMapIterator) -> (r: OrderedMapIterator)
        requires
            old(self).wf(),
            iter@.pos < old(self)@.len(),
            iter@.pos != iter@.len,
        ensures
            final(self).wf(),
            final(self).index_enabled() == old(self).index_enabled(),
            final(self)@ == old(self)@.remove(iter@.pos as int),
            r@ == erased_iter(iter@, old(self)@.len()),
    {
        let pos = iter.position().unwrap();
        let old_len = self.entries.len();
        let mut out = iter.copy();
        match out.iterator_type {
            IteratorType::Normal => {
                if pos + 1 >= old_len {
                    out.set_position(old_len);
                } else {
                    out.set_position(pos);
                }
            },
            IteratorType::Reverse => {
                if pos == 0 {
                    out.set_position(old_len);
                } else {
                    out.set_position(pos - 1);
                }
            },
        }
        let ghost s = self@;
        self.entries.remove(pos);
        proof {
            assert forall|i: int, j: int| 0 <= i < j < self@.len() implies (
            #[trigger] self@[i]).0.key_lt((#[trigger] self@[j]).0) by {
                let a = if i < pos { i } else { i + 1 };
                let b = if j < pos { j } else { j + 1 };
                assert(self@[i] == s[a] && self@[j] == s[b]);
            }
        }
        out.sync_len(self.entries.len());
        out
    }

    #[allow(non_snake_case)]
    pub fn eraseElementByIterator(&mut self, iter: OrderedMapIterator) -> (r: OrderedMapIterator)
        requires
            old(self).wf(),
            iter@.pos < old(self)@.len(),
            iter@.pos != iter@.len,
        ensures
            final(self).wf(),
            final(self).index_enabled() == old(self).index_enabled(),
            final(self)@ == old(self)@.remove(iter@.pos as int),
            r@ == erased_iter(iter@, old(self)@.len()),
    {
        self.erase_element_by_iterator(iter)
    }

    /// Height of the balanced search tree over the entries.
    pub fn get_height(&self) -> (r: usize)
        ensures
            r == balanced_height(self@.len()),
    {
        let n = self.entries.len();
        let mut h: usize = 0;
        let mut m: usize = n;
        while m > 0
            invariant
                n == self@.len(),
                m <= n,
                h + balanced_height(m as nat) == balanced_height(self@.len()),
                h <= n - m,
            decreases m,
        {
            h = h + 1;
            m = m / 2;
        }
        h
    }

    #[allow(non_snake_case)]
    pub fn getHeight(&self) -> (r: usize)
        ensures
            r == balanced_height(self@.len()),
    {
        self.get_height()
    }

    /// Iterator at the first entry (the end when empty).
    pub fn begin(&self) -> (r: OrderedMapIterator)
        ensures
            r@ == (IterView {
                pos: 0,
                len: self@.len(),
                iterator_type: IteratorType::Normal,
                node: None,
            }),
    {
        let n = self.entries.len();
        let pos = if n == 0 { n } else { 0 };
        OrderedMapIterator::new(pos, n, IteratorType::NORMAL)
    }

    /// Iterator at the end.
    pub fn end(&self) -> (r: OrderedMapIterator)
        ensures
            r@ == (IterView {
                pos: self@.len(),
                len: self@.len(),
                iterator_type: IteratorType::Normal,
                node: None,
            }),
    {
        let n = self.entries.len();
        OrderedMapIterator::new(n, n, IteratorType::NORMAL)
    }

    /// Reverse iterator at the last entry (the end when empty).
    pub fn r_begin(&self) -> (r: OrderedMapIterator)
        ensures
            r@ == (IterView {
                pos: if self@.len() == 0 { 0 } else { (self@.len() - 1) as nat },
                len: self@.len(),
                iterator_type: IteratorType::Reverse,
                node: None,
            }),
    {
        let n = self.entries.len();
        let pos = if n == 0 { n } else { n - 1 };
        OrderedMapIterator::new(pos, n, IteratorType::REVERSE)
    }

    #[allow(non_snake_case)]
    pub fn rBegin(&self) -> (r: OrderedMapIterator)
        ensures
            r@ == (IterView {
                pos: if self@.len() == 0 { 0 } else { (self@.len() - 1) as nat },
                len: self@.len(),
                iterator_type: IteratorType::Reverse,
                node: None,
            }),
    {
        self.r_begin()
    }

    /// Reverse iterator at the end.
    pub fn r_end(&self) -> (r: OrderedMapIterator)
        ensures
            r@ == (IterView {
                pos: self@.len(),
                len: self@.len(),
                iterator_type: IteratorType::Reverse,
                node: None,
            }),
    {
        let n = self.entries.len();
        OrderedMapIterator::new(n, n, IteratorType::REVERSE)
    }

    #[allow(non_snake_case)]
    pub fn rEnd(&self) -> (r: OrderedMapIterator)
        ensures
            r@ == (IterView {
                pos: self@.len(),
                len: self@.len(),
                iterator_type: IteratorType::Reverse,
                node: None,
            }),
    {
        self.r_end()
    }

    /// The entry with the smallest key.
    pub fn front(&self) -> (r: Option<(&K, &V)>)
        ensures
            match r {
                Some((k, v)) => self@.len() > 0 && self@[0] == (*k, *v),
                None => self@.len() == 0,
            },
    {
        if self.entries.len() == 0 {
            None
        } else {
            let e = &self.entries[0];
            Some((&e.0, &e.1))
        }
    }

    /// The entry with the largest key.
    pub fn back(&self) -> (r: Option<(&K, &V)>)
        ensures
            match r {
                Some((k, v)) => self@.len() > 0 && self@.last() == (*k, *v),
                None => self@.len() == 0,
            },
    {
        let n = self.entries.len();
        if n == 0 {
            None
        } else {
            let e = &self.entries[n - 1];
            Some((&e.0, &e.1))
        }
    }

    fn bound_iter(&self, pos: usize) -> (r: OrderedMapIterator)
        requires
            pos <= self@.len(),
        ensures
            r@ == (IterView {
                pos: pos as nat,
                len: self@.len(),
                iterator_type: IteratorType::Normal,
                node: node_of(pos as nat, self@.len()),
            }),
    {
        let n = self.entries.len();
        let node = if pos < n && pos <= 0xffff_ffff {
            Some(pos as u32)
        } else {
            None
        };
        OrderedMapIterator::with_node(pos, n, IteratorType::NORMAL, node)
    }

    /// Iterator at the first entry whose key does not sort before `key`.
    pub fn lower_bound(&mut self, key: &K) -> (r: OrderedMapIterator)
        requires
            old(self).wf(),
        ensures
            *final(self) == *old(self),
            r@ == (IterView {
                pos: lower_pos::<_, _, C>(old(self)@, *key) as nat,
                len: old(self)@.len(),
                iterator_type: IteratorType::Normal,
                node: node_of(lower_pos::<_, _, C>(old(self)@, *key) as nat, old(self)@.len()),
            }),
    {
        let p = self.search(key);
        self.bound_iter(p)
    }

    #[allow(non_snake_case)]
    pub fn lowerBound(&mut self, key: &K) -> (r: OrderedMapIterator)
        requires
            old(self).wf(),
        ensures
            *final(self) == *old(self),
            r@ == (IterView {
                pos: lower_pos::<_, _, C>(old(self)@, *key) as nat,
                len: old(self)@.len(),
                iterator_type: IteratorType::Normal,
                node: node_of(lower_pos::<_, _, C>(old(self)@, *key) as nat, old(self)@.len()),
            }),
    {
        self.lower_bound(key)
    }

    /// Iterator at the first entry whose key sorts after `key`.
    pub fn upper_bound(&mut self, key: &K) -> (r: OrderedMapIterator)
        requires
            old(self).wf(),
        ensures
            *final(self) == *old(self),
            r@ == (IterView {
                pos: upper_pos::<_, _, C>(old(self)@, *key) as nat,
                len: old(self)@.len(),
                iterator_type: IteratorType::Normal,
                node: node_of(upper_pos::<_, _, C>(old(self)@, *key) as nat, old(self)@.len()),
            }),
    {
        let q = self.search_upper(key);
        self.bound_iter(q)
    }

    #[allow(non_snake_case)]
    pub fn upperBound(&mut self, key: &K) -> (r: OrderedMapIterator)
        requires
            old(self).wf(),
        ensures
            *final(self) == *old(self),
            r@ == (IterView {
                pos: upper_pos::<_, _, C>(old(self)@, *key) as nat,
                len: old(self)@.len(),
                iterator_type: IteratorType::Normal,
                node: node_of(upper_pos::<_, _, C>(old(self)@, *key) as nat, old(self)@.len()),
            }),
    {
        self.upper_bound(key)
    }

    /// Iterator at the last entry whose key does not sort after `key`; the
    /// end when there is none.
    pub fn reverse_lower_bound(&mut self, key: &K) -> (r: OrderedMapIterator)
        requires
            old(self).wf(),
        ensures
            *final(self) == *old(self),
            r@ == (IterView {
                pos: before_pos(upper_pos::<_, _, C>(old(self)@, *key), old(self)@.len()),
                len: old(self)@.len(),
                iterator_type: IteratorType::Normal,
                node: node_of(before_pos(upper_pos::<_, _, C>(old(self)@, *key), old(self)@.len()), old(self)@.len()),
            }),
    {
        let q = self.search_upper(key);
        let pos = if q > 0 { q - 1 } else { self.entries.len() };
        self.bound_iter(pos)
    }

    #[allow(non_snake_case)]
    pub fn reverseLowerBound(&mut self, key: &K) -> (r: OrderedMapIterator)
        requires
            old(self).wf(),
        ensures
            *final(self) == *old(self),
            r@ == (IterView {
                pos: before_pos(upper_pos::<_, _, C>(old(self)@, *key), old(self)@.len()),
                len: old(self)@.len(),
                iterator_type: IteratorType::Normal,
                node: node_of(before_pos(upper_pos::<_, _, C>(old(self)@, *key), old(self)@.len()), old(self)@.len()),
            }),
    {
        self.reverse_lower_bound(key)
    }

    /// Iterator at the last entry whose key sorts before `key`; the end when
    /// there is none.
    pub fn reverse_upper_bound(&mut self, key: &K) -> (r: OrderedMapIterator)
        requires
            old(self).wf(),
        ensures
            *final(self) == *old(self),
            r@ == (IterView {
                pos: before_pos(lower_pos::<_, _, C>(old(self)@, *key), old(self)@.len()),
                len: old(self)@.len(),
                iterator_type: IteratorType::Normal,
                node: node_of(before_pos(lower_pos::<_, _, C>(old(self)@, *key), old(self)@.len()), old(self)@.len()),
            }),
    {
        let p = self.search(key);
        let pos = if p > 0 { p - 1 } else { self.entries.len() };
        self.bound_iter(pos)
    }

    #[allow(non_snake_case)]
    pub fn reverseUpperBound(&mut self, key: &K) -> (r: OrderedMapIterator)
        requires
            old(self).wf(),
        ensures
            *final(self) == *old(self),
            r@ == (IterView {
                pos: before_pos(lower_pos::<_, _, C>(old(self)@, *key), old(self)@.len()),
                len: old(self)@.len(),
                iterator_type: IteratorType::Normal,
                node: node_of(before_pos(lower_pos::<_, _, C>(old(self)@, *key), old(self)@.len()), old(self)@.len()),
            }),
    {
        self.reverse_upper_bound(key)
    }

    /// Removes every entry.
    pub fn clear(&mut self)
        ensures
            final(self)@ == Seq::<(K, V)>::empty(),
            final(self).wf(),
            final(self).index_enabled() == old(self).index_enabled(),
    {
        self.entries.clear();
    }

    /// A short description with the number of entries.
    pub fn to_string(&self, _tab: &str) -> (r: String)
        ensures
            r@ == "SortedMap(len="@ + decimal(self@.len()) + ")"@,
    {
        let mut out = String::from_str("SortedMap(len=");
        push_decimal(&mut out, self.entries.len());
        out.append(")");
        out
    }
}

/// Whether `key` can replace the key at `pos` with the keys still strictly
/// increasing around it.
pub open spec fn key_fits_at<K: SortedKey<C>, V, C>(s: Seq<(K, V)>, pos: int, key: K) -> bool {
    if s.len() == 1 {
        true
    } else if pos == 0 {
        key.key_lt(s[1].0)
    } else if pos == s.len() - 1 {
        s[s.len() - 2].0.key_lt(key)
    } else {
        s[pos - 1].0.key_lt(key) && key.key_lt(s[pos + 1].0)
    }
}

/// The iterator left after erasing its entry from a map of `n` entries.
pub open spec fn erased_iter(it: IterView, n: nat) -> IterView {
    let pos = if it.iterator_type == IteratorType::Normal {
        if it.pos + 1 >= n { n } else { it.pos }
    } else {
        if it.pos == 0 { n } else { (it.pos - 1) as nat }
    };
    let len = (n - 1) as nat;
    IterView {
        pos: if pos > len { len } else { pos },
        len,
        iterator_type: it.iterator_type,
        node: it.node,
    }
}

/// The position before `p`, or the end `n` when `p` is the first.
pub open spec fn before_pos(p: int, n: nat) -> nat {
    if p > 0 { (p - 1) as nat } else { n }
}

/// The entry cached by a bound search at `pos` of `n` entries.
pub open spec fn node_of(pos: nat, n: nat) -> Option<u32> {
    if pos < n && pos <= 0xffff_ffff { Some(pos as u32) } else { None }
}

/// The reverse order: `a` sorts before `b` when `b` sorts before `a` in
/// the natural order.
impl<K: SortedKey<Natural>> SortedKey<Reverse> for K {
    open spec fn key_lt(self, other: Self) -> bool {
        <K as SortedKey<Natural>>::key_lt(other, self)
    }

    proof fn lemma_key_order(a: Self, b: Self, c: Self) {
        <K as SortedKey<Natural>>::lemma_key_order(a, b, c);
        <K as SortedKey<Natural>>::lemma_key_order(c, b, a);
    }

    fn compare_key(&self, other: &Self) -> (r: i32) {
        let n = <K as SortedKey<Natural>>::compare_key(self, other);
        if n < 0 {
            1
        } else if n == 0 {
            0
        } else {
            -1
        }
    }
}

} // verus!
