//! JSON CRDT node types: last-write-wins registers and tuples, and the
//! RGA-backed string, binary and array nodes.
use vstd::prelude::*;
use crate::clock::{Ts, Tss, compare, spec_compare, spec_origin, spec_undefined};
use crate::rga::{ChunkView, Rga, starts_apart, chunk_exact, covers, delete_view, exact, insert_view, lookup_ok_in};
use crate::rga::{lemma_skip_newer_bounds, skip_newer, split_at_view, split_view};
use crate::rga::{lemma_delete_exact, lemma_insert_exact};
use crate::rga::IDX_THRESHOLD;

verus! {

/// Last-write-wins single-value register: holds the id of the node that
/// currently wins.
#[derive(Debug, Clone)]
pub struct ValNode {
    pub id: Ts,
    /// The id of the current value node; starts at the origin.
    pub val: Ts,
}

impl ValNode {
    pub fn new(id: Ts) -> (r: Self)
        ensures
            r.id == id,
            r.val == spec_origin(),
    {
        Self { id, val: Ts { sid: 0, time: 0 } }
    }

    /// Sets `new_val` if it is newer than the current value; returns the
    /// value it replaced.
    pub fn set(&mut self, new_val: Ts) -> (r: Option<Ts>)
        ensures
            final(self).id == old(self).id,
            spec_compare(new_val, old(self).val) > 0 ==> final(self).val == new_val && r == Some(
                old(self).val,
            ),
            spec_compare(new_val, old(self).val) <= 0 ==> final(self).val == old(self).val && r
                is None,
    {
        if compare(new_val, self.val) > 0 {
            let old = self.val;
            self.val = new_val;
            Some(old)
        } else {
            None
        }
    }
}

/// `s` extended with unset elements so that position `index` exists.
pub open spec fn padded(s: Seq<Option<Ts>>, index: nat) -> Seq<Option<Ts>> {
    if index < s.len() {
        s
    } else {
        s + Seq::new((index + 1 - s.len()) as nat, |i: int| None::<Ts>)
    }
}

/// An insertion-ordered hash map of `indexmap`.
#[verifier::external_type_specification]
#[verifier::external_body]
#[verifier::reject_recursive_types(K)]
#[verifier::reject_recursive_types(V)]
#[verifier::reject_recursive_types(S)]
pub struct ExIndexMap<K, V, S>(indexmap::IndexMap<K, V, S>);

/// The entries of a map from strings to ids, in the map's order, each key
/// by its characters.
pub uninterp spec fn obj_entries(m: indexmap::IndexMap<String, Ts>) -> Seq<(Seq<char>, Ts)>;

/// No key occurs twice.
pub open spec fn keys_distinct(e: Seq<(Seq<char>, Ts)>) -> bool {
    forall|i: int, j: int| 0 <= i < j < e.len() ==> #[trigger] e[i].0 != #[trigger] e[j].0
}

/// The index of the first entry with key `k`, or -1 if none has it.
pub open spec fn entry_index(e: Seq<(Seq<char>, Ts)>, k: Seq<char>) -> int
    decreases e.len(),
{
    if e.len() == 0 {
        -1
    } else {
        let r = entry_index(e.drop_last(), k);
        if r >= 0 {
            r
        } else if e.last().0 == k {
            e.len() - 1
        } else {
            -1
        }
    }
}

/// `entry_index` names an entry with the key, and is -1 exactly when no
/// entry has it.
pub proof fn lemma_entry_index(e: Seq<(Seq<char>, Ts)>, k: Seq<char>)
    ensures
        -1 <= entry_index(e, k) < e.len(),
        entry_index(e, k) >= 0 ==> e[entry_index(e, k)].0 == k,
        entry_index(e, k) == -1 <==> forall|j: int| 0 <= j < e.len() ==> e[j].0 != k,
    decreases e.len(),
{
    if e.len() > 0 {
        let d = e.drop_last();
        lemma_entry_index(d, k);
        assert forall|j: int| 0 <= j < d.len() implies d[j] == e[j] by {}
        if entry_index(e, k) == -1 {
            assert forall|j: int| 0 <= j < e.len() implies e[j].0 != k by {
                if j < d.len() {
                    assert(d[j] == e[j]);
                }
            }
        }
    }
}

/// `IndexMap::new`: an empty map.
#[verifier::external_body]
fn obj_map_new() -> (r: indexmap::IndexMap<String, Ts>)
    ensures
        obj_entries(r) == Seq::<(Seq<char>, Ts)>::empty(),
{
    indexmap::IndexMap::new()
}

/// `IndexMap::get`, copied out: the value stored for `key`, if present.
#[verifier::external_body]
pub(crate) fn obj_map_get(m: &indexmap::IndexMap<String, Ts>, key: &str) -> (r: Option<Ts>)
    ensures
        r == (if entry_index(obj_entries(*m), key@) >= 0 {
            Some(obj_entries(*m)[entry_index(obj_entries(*m), key@)].1)
        } else {
            None
        }),
{
    m.get(key).copied()
}

/// `IndexMap::len`: the number of entries.
#[verifier::external_body]
pub(crate) fn obj_map_len(m: &indexmap::IndexMap<String, Ts>) -> (r: usize)
    ensures
        r == obj_entries(*m).len(),
{
    m.len()
}

/// `IndexMap::get_index`, with the id copied out: the entry at position
/// `i`, if there is one.
#[verifier::external_body]
pub(crate) fn obj_map_entry<'a>(m: &'a indexmap::IndexMap<String, Ts>, i: usize) -> (r: Option<
    (&'a String, Ts),
>)
    ensures
        match r {
            Some(p) => i < obj_entries(*m).len() && p.0@ == obj_entries(*m)[i as int].0 && p.1
                == obj_entries(*m)[i as int].1,
            None => i >= obj_entries(*m).len(),
        },
{
    m.get_index(i).map(|(k, v)| (k, *v))
}

/// `IndexMap::insert`: with the key present, its value is replaced where
/// it stands and the old value returned; otherwise the pair goes last.
#[verifier::external_body]
fn obj_map_insert(m: &mut indexmap::IndexMap<String, Ts>, key: String, value: Ts) -> (r: Option<Ts>)
    ensures
        ({
            let e = obj_entries(*old(m));
            let i = entry_index(e, key@);
            if i >= 0 {
                &&& obj_entries(*final(m)) == e.update(i, (e[i].0, value))
                &&& r == Some(e[i].1)
            } else {
                &&& obj_entries(*final(m)) == e.push((key@, value))
                &&& r is None
            }
        }),
{
    m.insert(key, value)
}

/// Last-write-wins object: each key maps to the id of its newest value, in
/// the order keys were first set.
#[derive(Debug)]
pub struct ObjNode {
    pub id: Ts,
    pub keys: indexmap::IndexMap<String, Ts>,
}

impl ObjNode {
    /// The keys with their ids, in order.
    pub open spec fn entries(&self) -> Seq<(Seq<char>, Ts)> {
        obj_entries(self.keys)
    }

    /// No key occurs twice.
    pub open spec fn wf(&self) -> bool {
        keys_distinct(self.entries())
    }

    pub fn new(id: Ts) -> (r: Self)
        ensures
            r.id == id,
            r.entries() == Seq::<(Seq<char>, Ts)>::empty(),
            r.wf(),
    {
        Self { id, keys: obj_map_new() }
    }

    /// Sets `key` to `new_id` unless the key holds an id at least as new;
    /// returns the id replaced, if any.
    pub fn put(&mut self, key: &str, new_id: Ts) -> (r: Option<Ts>)
        requires
            old(self).wf(),
        ensures
            final(self).wf(),
            final(self).id == old(self).id,
            ({
                let e = old(self).entries();
                let i = entry_index(e, key@);
                if i >= 0 && spec_compare(new_id, e[i].1) <= 0 {
                    r is None && final(self).entries() == e
                } else if i >= 0 {
                    r == Some(e[i].1) && final(self).entries() == e.update(i, (key@, new_id))
                } else {
                    r is None && final(self).entries() == e.push((key@, new_id))
                }
            }),
    {
        let ghost e = self.entries();
        proof {
            lemma_entry_index(e, key@);
        }
        match obj_map_get(&self.keys, key) {
            Some(old) if compare(new_id, old) <= 0 => None,
            old => {
                let k = String::from_str(key);
                let r = obj_map_insert(&mut self.keys, k, new_id);
                proof {
                    let f = self.entries();
                    assert forall|a: int, b: int| 0 <= a < b < f.len() implies #[trigger] f[a].0
                        != #[trigger] f[b].0 by {
                        if entry_index(e, key@) < 0 {
                            if b == e.len() {
                                assert(e[a].0 != key@);
                            } else {
                                assert(f[a] == e[a] && f[b] == e[b]);
                            }
                        } else {
                            let i = entry_index(e, key@);
                            if a != i && b != i {
                                assert(f[a] == e[a] && f[b] == e[b]);
                            } else if a == i {
                                assert(f[b] == e[b]);
                            } else {
                                assert(f[a] == e[a]);
                            }
                        }
                    }
                }
                r
            },
        }
    }
}

/// Fixed-length last-write-wins tuple.
#[derive(Debug, Clone)]
pub struct VecNode {
    pub id: Ts,
    /// Position to node id; `None` where unset.
    pub elements: Vec<Option<Ts>>,
}

impl VecNode {
    pub fn new(id: Ts) -> (r: Self)
        ensures
            r.id == id,
            r.elements@ == Seq::<Option<Ts>>::empty(),
    {
        Self { id, elements: Vec::new() }
    }

    /// Sets element `index` to `new_id` unless the element holds an id at
    /// least as new; grows the tuple to reach `index` either way.  Returns the
    /// element it replaced.
    pub fn put(&mut self, index: usize, new_id: Ts) -> (r: Option<Ts>)
        requires
            index < usize::MAX,
        ensures
            final(self).id == old(self).id,
            ({
                let p = padded(old(self).elements@, index as nat);
                match p[index as int] {
                    Some(o) => if spec_compare(new_id, o) <= 0 {
                        final(self).elements@ == p && r is None
                    } else {
                        final(self).elements@ == p.update(index as int, Some(new_id)) && r == Some(o)
                    },
                    None => final(self).elements@ == p.update(index as int, Some(new_id)) && r is None,
                }
            }),
    {
        let ghost p = padded(self.elements@, index as nat);
        let ghost n0 = self.elements@.len();
        while self.elements.len() <= index
            invariant
                n0 == old(self).elements@.len(),
                self.id == old(self).id,
                self.elements@.len() <= index + 1 || self.elements@.len() == n0,
                self.elements@.len() >= n0,
                forall|i: int| 0 <= i < n0 ==> self.elements@[i] == old(self).elements@[i],
                forall|i: int| n0 <= i < self.elements@.len() ==> self.elements@[i] is None,
                index < usize::MAX,
            decreases index + 1 - self.elements@.len(),
        {
            self.elements.push(None);
        }
        assert(self.elements@ =~= p);
        match self.elements[index] {
            Some(old) => {
                if compare(new_id, old) <= 0 {
                    None
                } else {
                    self.elements.set(index, Some(new_id));
                    Some(old)
                }
            },
            None => {
                self.elements.set(index, Some(new_id));
                None
            },
        }
    }
}

/// Document root: a last-write-wins register pointing to the root node.
#[derive(Debug, Clone)]
pub struct RootNode {
    pub val: Ts,
}

impl RootNode {
    pub fn new() -> (r: Self)
        ensures
            r.val == spec_undefined(),
    {
        Self { val: Ts { sid: 0, time: 1 } }
    }

    /// Sets `new_val` if it is newer than the current value; returns the
    /// value it replaced.
    pub fn set(&mut self, new_val: Ts) -> (r: Option<Ts>)
        ensures
            spec_compare(new_val, old(self).val) > 0 ==> final(self).val == new_val && r == Some(
                old(self).val,
            ),
            spec_compare(new_val, old(self).val) <= 0 ==> final(self).val == old(self).val && r
                is None,
    {
        if compare(new_val, self.val) > 0 {
            let old = self.val;
            self.val = new_val;
            Some(old)
        } else {
            None
        }
    }
}

impl Default for RootNode {
    fn default() -> (r: Self)
        ensures
            r.val == spec_undefined(),
    {
        Self::new()
    }
}

/// Ordered key for a timestamp: compares time first, then session id (the
/// field order makes the derived ordering do exactly that).
#[derive(Debug, Clone, Copy, PartialEq, Eq, PartialOrd, Ord, Hash)]
pub struct TsKey {
    pub time: u64,
    pub sid: u64,
}

impl From<Ts> for TsKey {
    fn from(ts: Ts) -> (r: Self) {
        Self { time: ts.time, sid: ts.sid }
    }
}

impl vstd::std_specs::convert::FromSpecImpl<Ts> for TsKey {
    open spec fn obeys_from_spec() -> bool {
        true
    }

    open spec fn from_spec(ts: Ts) -> Self {
        TsKey { time: ts.time, sid: ts.sid }
    }
}

/// The items of the live chunks that hold items, in order.
pub open spec fn live_items<I>(v: Seq<ChunkView<I>>) -> Seq<I>
    decreases v.len(),
{
    if v.len() == 0 {
        Seq::empty()
    } else {
        let c = v.last();
        live_items(v.drop_last()) + if !c.deleted && c.items is Some {
            c.items->0
        } else {
            Seq::empty()
        }
    }
}

/// The live items of two chunk sequences one after the other are those of
/// each.
pub proof fn lemma_live_items_concat<I>(a: Seq<ChunkView<I>>, b: Seq<ChunkView<I>>)
    ensures
        live_items(a + b) == live_items(a) + live_items(b),
    decreases b.len(),
{
    if b.len() == 0 {
        assert(a + b =~= a);
        assert(live_items(a) + live_items(b) =~= live_items(a));
    } else {
        lemma_live_items_concat(a, b.drop_last());
        assert((a + b).drop_last() =~= a + b.drop_last());
        assert((a + b).last() == b.last());
        let t = if !b.last().deleted && b.last().items is Some {
            b.last().items->0
        } else {
            Seq::empty()
        };
        assert(live_items(a) + live_items(b.drop_last()) + t =~= live_items(a) + (live_items(
            b.drop_last(),
        ) + t));
    }
}

/// The live items of a single chunk.
pub open spec fn chunk_items<I>(c: ChunkView<I>) -> Seq<I> {
    if !c.deleted && c.items is Some {
        c.items->0
    } else {
        Seq::empty()
    }
}

proof fn lemma_live_items_one<I>(c: ChunkView<I>)
    ensures
        live_items(seq![c]) == chunk_items(c),
{
    let e = Seq::<ChunkView<I>>::empty();
    assert(seq![c].drop_last() =~= e);
    assert(seq![c].last() == c);
    assert(live_items(e) == Seq::<I>::empty());
    assert(live_items(seq![c]) == live_items(e) + chunk_items(c));
    assert(Seq::<I>::empty() + chunk_items(c) =~= chunk_items(c));
}

/// Splitting a chunk keeps the live items.
pub proof fn lemma_live_items_split<I>(v: Seq<ChunkView<I>>, i: int, at: nat)
    requires
        0 <= i < v.len(),
    ensures
        live_items(split_at_view(v, i, at)) == live_items(v),
{
    let (l, r) = split_view(v[i], at);
    assert(v =~= v.take(i) + seq![v[i]] + v.skip(i + 1));
    lemma_live_items_concat(v.take(i) + seq![v[i]], v.skip(i + 1));
    lemma_live_items_concat(v.take(i), seq![v[i]]);
    lemma_live_items_concat(v.take(i) + seq![l, r], v.skip(i + 1));
    lemma_live_items_concat(v.take(i), seq![l, r]);
    assert(seq![l, r] =~= seq![l] + seq![r]);
    lemma_live_items_concat(seq![l], seq![r]);
    lemma_live_items_one(v[i]);
    lemma_live_items_one(l);
    lemma_live_items_one(r);
    match v[i].items {
        Some(s) => {
            let k = if at <= s.len() { at as int } else { s.len() as int };
            assert(s.take(k) + s.skip(k) =~= s);
        },
        None => {},
    }
    assert(chunk_items(l) + chunk_items(r) =~= chunk_items(v[i]));
}

/// An insert adds its items, together and in order, at one place among the
/// live items, and changes nothing else: the live items afterwards are those
/// before with `items` spliced in.  This holds for any answer of the lookup
/// of `after` that names a chunk.
pub proof fn lemma_insert_splices<I>(
    v: Seq<ChunkView<I>>,
    after: Ts,
    found: Option<usize>,
    id: Ts,
    span: nat,
    items: Seq<I>,
)
    requires
        found matches Some(i) ==> i < v.len(),
    ensures
        exists|k: int|
            0 <= k <= live_items(v).len() && #[trigger] live_items(
                insert_view(v, after, found, id, span, items),
            ) == live_items(v).take(k) + items + live_items(v).skip(k),
{
    let (v1, p) = if after.sid == 0 && after.time == 0 {
        (v, 0int)
    } else {
        match found {
            Some(i) => {
                let c = v[i as int];
                if after.time < c.id.time + c.span - 1 {
                    (split_at_view(v, i as int, (after.time - c.id.time + 1) as nat), i + 1)
                } else {
                    (v, i + 1)
                }
            },
            None => (v, v.len() as int),
        }
    };
    assert(live_items(v1) == live_items(v)) by {
        if !(after.sid == 0 && after.time == 0) {
            if let Some(i) = found {
                let c = v[i as int];
                if after.time < c.id.time + c.span - 1 {
                    lemma_live_items_split(v, i as int, (after.time - c.id.time + 1) as nat);
                }
            }
        }
    }
    let pos = skip_newer(v1, p, id);
    lemma_skip_newer_bounds(v1, p, id);
    let nc = ChunkView { id, span, deleted: false, items: Some(items) };
    let w = v1.insert(pos, nc);
    assert(w =~= v1.take(pos) + seq![nc] + v1.skip(pos));
    assert(v1 =~= v1.take(pos) + v1.skip(pos));
    lemma_live_items_concat(v1.take(pos) + seq![nc], v1.skip(pos));
    lemma_live_items_concat(v1.take(pos), seq![nc]);
    lemma_live_items_concat(v1.take(pos), v1.skip(pos));
    lemma_live_items_one(nc);
    let a = live_items(v1.take(pos));
    let b = live_items(v1.skip(pos));
    let k = a.len() as int;
    assert(live_items(v).take(k) =~= a);
    assert(live_items(v).skip(k) =~= b);
    assert(live_items(w) == live_items(v).take(k) + items + live_items(v).skip(k));
}

/// Number of UTF-16 code units of a character.
pub open spec fn utf16_units(c: char) -> nat {
    if (c as u32) >= 0x10000 {
        2
    } else {
        1
    }
}

/// Number of UTF-16 code units of a string.
pub open spec fn utf16_len(s: Seq<char>) -> nat
    decreases s.len(),
{
    if s.len() == 0 {
        0
    } else {
        utf16_len(s.drop_last()) + utf16_units(s.last())
    }
}

proof fn lemma_utf16_prefix(s: Seq<char>, i: int)
    requires
        0 <= i <= s.len(),
    ensures
        utf16_len(s.take(i)) <= utf16_len(s),
    decreases s.len() - i,
{
    if i < s.len() {
        lemma_utf16_prefix(s, i + 1);
        assert(s.take(i + 1).drop_last() =~= s.take(i));
    } else {
        assert(s.take(i) =~= s);
    }
}

/// Counts the UTF-16 code units of `s`.
pub(crate) fn utf16_count(s: &str) -> (n: u64)
    requires
        utf16_len(s@) <= u64::MAX,
    ensures
        n == utf16_len(s@),
{
    let len = s.unicode_len();
    let mut n: u64 = 0;
    let mut i: usize = 0;
    while i < len
        invariant
            len == s@.len(),
            i <= len,
            n == utf16_len(s@.take(i as int)),
            utf16_len(s@) <= u64::MAX,
        decreases len - i,
    {
        let c = s.get_char(i);
        proof {
            assert(s@.take(i + 1).drop_last() =~= s@.take(i as int));
            lemma_utf16_prefix(s@, i + 1);
        }
        if (c as u32) >= 0x10000 {
            n = n + 2;
        } else {
            n = n + 1;
        }
        i = i + 1;
    }
    proof {
        assert(s@.take(len as int) =~= s@);
    }
    n
}

/// Sum of the spans of the chunks that are not deleted.
pub open spec fn live_span<I>(v: Seq<ChunkView<I>>) -> nat
    decreases v.len(),
{
    if v.len() == 0 {
        0
    } else {
        live_span(v.drop_last()) + if v.last().deleted {
            0
        } else {
            v.last().span
        }
    }
}

proof fn lemma_live_span_prefix<I>(v: Seq<ChunkView<I>>, i: int)
    requires
        0 <= i <= v.len(),
    ensures
        live_span(v.take(i)) <= live_span(v),
    decreases v.len() - i,
{
    if i < v.len() {
        lemma_live_span_prefix(v, i + 1);
        assert(v.take(i + 1).drop_last() =~= v.take(i));
    } else {
        assert(v.take(i) =~= v);
    }
}

/// The id of the item at live position `pos`, counting every live chunk by
/// its span.
pub open spec fn str_find(v: Seq<ChunkView<char>>, pos: int) -> Option<Ts>
    decreases v.len(),
{
    if v.len() == 0 {
        None
    } else if v[0].deleted {
        str_find(v.skip(1), pos)
    } else if pos < v[0].span {
        Some(Ts { sid: v[0].id.sid, time: (v[0].id.time + pos) as u64 })
    } else {
        str_find(v.skip(1), pos - v[0].span)
    }
}

/// The id spans of the live positions `pos .. end`, one per live chunk that
/// the range reaches, with positions counted from the start of `v`.
pub open spec fn str_interval(v: Seq<ChunkView<char>>, pos: int, end: int) -> Seq<Tss>
    decreases v.len(),
{
    if v.len() == 0 {
        Seq::empty()
    } else if v[0].deleted {
        str_interval(v.skip(1), pos, end)
    } else {
        let c = v[0];
        let here = if c.span > pos && 0 < end {
            let ls = if pos > 0 { pos } else { 0 };
            let le = if end < c.span { end } else { c.span as int };
            seq![Tss { sid: c.id.sid, time: (c.id.time + ls) as u64, span: (le - ls) as u64 }]
        } else {
            Seq::empty()
        };
        here + str_interval(v.skip(1), pos - c.span, end - c.span)
    }
}

/// The ids a span covers, in order.
pub open spec fn span_ids(t: Tss) -> Seq<Ts> {
    Seq::new(t.span as nat, |k: int| Ts { sid: t.sid, time: (t.time + k) as u64 })
}

/// The ids the spans cover, one span after the other.
pub open spec fn ids_of(s: Seq<Tss>) -> Seq<Ts>
    decreases s.len(),
{
    if s.len() == 0 {
        Seq::empty()
    } else {
        span_ids(s[0]) + ids_of(s.skip(1))
    }
}

/// The spans of live positions `pos .. end` cover, in order, the ids found
/// position by position from `max(pos, 0)`: a position of the range has an
/// id exactly when it comes before the end of what the spans cover.
pub proof fn lemma_interval_by_position(v: Seq<ChunkView<char>>, pos: int, end: int)
    requires
        pos <= end,
        forall|i: int| 0 <= i < v.len() ==> #[trigger] v[i].id.time + v[i].span <= u64::MAX,
    ensures
        ({
            let lo = if pos > 0 { pos } else { 0 };
            let d = ids_of(str_interval(v, pos, end));
            &&& d.len() <= if end > lo { end - lo } else { 0 }
            &&& forall|p: int| lo <= p < lo + d.len() ==> #[trigger] str_find(v, p) == Some(d[p - lo])
            &&& forall|p: int| lo <= p < end ==> (#[trigger] str_find(v, p) is Some <==> p < lo + d.len())
        }),
    decreases v.len(),
{
    let lo = if pos > 0 { pos } else { 0 };
    if v.len() == 0 {
    } else if v[0].deleted {
        let w = v.skip(1);
        assert forall|i: int| 0 <= i < w.len() implies #[trigger] w[i].id.time + w[i].span <= u64::MAX by {
            assert(w[i] == v[i + 1]);
        }
        lemma_interval_by_position(w, pos, end);
        let d = ids_of(str_interval(v, pos, end));
        assert(d == ids_of(str_interval(w, pos, end)));
        assert forall|p: int| lo <= p < lo + d.len() implies #[trigger] str_find(v, p) == Some(d[p - lo]) by {
            assert(str_find(v, p) == str_find(w, p));
        }
        assert forall|p: int| lo <= p < end implies (#[trigger] str_find(v, p) is Some <==> p < lo + d.len()) by {
            assert(str_find(v, p) == str_find(w, p));
        }
    } else {
        let c = v[0];
        let n = c.span as int;
        let w = v.skip(1);
        assert forall|i: int| 0 <= i < w.len() implies #[trigger] w[i].id.time + w[i].span <= u64::MAX by {
            assert(w[i] == v[i + 1]);
        }
        assert(c.id.time + c.span <= u64::MAX);
        lemma_interval_by_position(w, pos - n, end - n);
        let sp = str_interval(v, pos, end);
        let rs = str_interval(w, pos - n, end - n);
        let d = ids_of(sp);
        let rest = ids_of(rs);
        let lo2 = if pos - n > 0 { pos - n } else { 0 };
        if pos >= n {
            assert(sp == rs);
            assert forall|p: int| lo <= p < end implies (#[trigger] str_find(v, p) == str_find(w, p - n)) by {}
            assert forall|p: int| lo <= p < lo + d.len() implies #[trigger] str_find(v, p) == Some(d[p - lo]) by {
                assert(str_find(w, p - n) == Some(rest[(p - n) - lo2]));
            }
            assert forall|p: int| lo <= p < end implies (#[trigger] str_find(v, p) is Some <==> p < lo + d.len()) by {
                assert(lo2 <= p - n < end - n);
                assert(str_find(w, p - n) is Some <==> p - n < lo2 + rest.len());
            }
        } else if end <= 0 {
            lemma_str_interval_past_end(w, pos - n, end - n);
            assert(sp =~= Seq::<Tss>::empty());
        } else {
            let hi = if end < n { end } else { n };
            let t = Tss { sid: c.id.sid, time: (c.id.time + lo) as u64, span: (hi - lo) as u64 };
            assert(sp == seq![t] + rs);
            assert((seq![t] + rs).skip(1) =~= rs);
            assert(d == span_ids(t) + rest);
            assert(lo2 == 0);
            if end <= n {
                lemma_str_interval_past_end(w, pos - n, end - n);
            }
            let here = span_ids(t);
            assert(here.len() == hi - lo);
            assert forall|p: int| lo <= p < lo + d.len() implies #[trigger] str_find(v, p) == Some(d[p - lo]) by {
                if p < hi {
                    assert(d[p - lo] == here[p - lo]);
                } else {
                    assert(d[p - lo] == rest[p - lo - here.len()]);
                    assert(p - n == p - lo - here.len());
                    assert(str_find(v, p) == str_find(w, p - n));
                    assert(str_find(w, p - n) == Some(rest[(p - n) - lo2]));
                }
            }
            assert forall|p: int| lo <= p < end implies (#[trigger] str_find(v, p) is Some <==> p < lo + d.len()) by {
                if p >= n {
                    assert(str_find(v, p) == str_find(w, p - n));
                    assert(lo2 <= p - n < end - n);
                    assert(str_find(w, p - n) is Some <==> p - n < lo2 + rest.len());
                }
            }
        }
    }
}

proof fn lemma_str_interval_past_end(v: Seq<ChunkView<char>>, pos: int, end: int)
    requires
        end <= 0,
    ensures
        str_interval(v, pos, end) == Seq::<Tss>::empty(),
    decreases v.len(),
{
    if v.len() > 0 {
        if v[0].deleted {
            lemma_str_interval_past_end(v.skip(1), pos, end);
        } else {
            lemma_str_interval_past_end(v.skip(1), pos - v[0].span, end - v[0].span);
        }
    }
}

proof fn lemma_fit_chunk<T: crate::rga::ChunkData>(r: &Rga<T>, i: int)
    requires
        r.wf(),
        0 <= i < r@.len(),
    ensures
        r@[i].id.time + r@[i].span <= u64::MAX,
{
    r.lemma_slot_fits(i);
}

/// RGA string node; spans count UTF-16 code units.
#[derive(Debug, Clone)]
pub struct StrNode {
    pub id: Ts,
    pub rga: Rga<String>,
}

impl StrNode {
    pub fn new(id: Ts) -> (r: Self)
        ensures
            r.id == id,
            r.rga@ == Seq::<ChunkView<char>>::empty(),
            r.rga.wf(),
            !r.rga.indexed(),
    {
        Self { id, rga: Rga::new() }
    }

    /// Inserts `data` with id `id` after the item `after`; its span is its
    /// number of UTF-16 code units.
    pub fn ins(&mut self, after: Ts, id: Ts, data: String)
        requires
            old(self).rga.wf(),
            id.time + utf16_len(data@) <= u64::MAX,
            utf16_len(data@) <= usize::MAX,
        ensures
            final(self).id == old(self).id,
            final(self).rga.wf(),
            final(self).rga.indexed() == (old(self).rga.indexed() || old(self).rga@.len()
                > IDX_THRESHOLD),
            exists|found: Option<usize>|
                #![trigger insert_view(old(self).rga@, after, found, id, utf16_len(data@), data@)]
                (after.sid == 0 && after.time == 0 || lookup_ok_in(
                    old(self).rga@,
                    final(self).rga.indexed(),
                    after,
                    found,
                )) && final(self).rga@ == insert_view(
                    old(self).rga@,
                    after,
                    found,
                    id,
                    utf16_len(data@),
                    data@,
                ),
            old(self).rga.all_held() ==> final(self).rga.all_held(),
            old(self).rga.all_held() && starts_apart(old(self).rga@) ==> exists|found: Option<usize>|
                #![trigger insert_view(old(self).rga@, after, found, id, utf16_len(data@), data@)]
                (after.sid == 0 && after.time == 0 || lookup_ok_in(old(self).rga@, false, after, found))
                    && final(self).rga@ == insert_view(old(self).rga@, after, found, id, utf16_len(data@), data@),
    {
        let span = utf16_count(data.as_str());
        self.rga.insert(after, id, span, data);
    }

    /// Deletes the items covered by `spans`.
    pub fn delete(&mut self, spans: &[Tss])
        requires
            old(self).rga.wf(),
            forall|k: int| 0 <= k < spans@.len() ==> (#[trigger] spans@[k]).time + spans@[k].span
                <= u64::MAX,
        ensures
            final(self).id == old(self).id,
            final(self).rga.wf(),
            final(self).rga.indexed() == old(self).rga.indexed(),
            final(self).rga@ == delete_view(old(self).rga@, spans@),
            old(self).rga.all_held() ==> final(self).rga.all_held(),
    {
        self.rga.delete(spans);
    }

    /// The text of the live chunks, in order.
    pub fn view_str(&self) -> (r: String)
        ensures
            r@ == live_items(self.rga@),
    {
        let mut out = String::new();
        let n = self.rga.chunk_count();
        let mut i: usize = 0;
        while i < n
            invariant
                i <= n,
                n == self.rga@.len(),
                out@ == live_items(self.rga@.take(i as int)),
            decreases n - i,
        {
            let c = self.rga.slot(i);
            proof {
                assert(self.rga@.take(i + 1).drop_last() =~= self.rga@.take(i as int));
            }
            if !c.deleted {
                match &c.data {
                    Some(d) => {
                        out.append(d.as_str());
                    },
                    None => {},
                }
            }
            i = i + 1;
        }
        proof {
            assert(self.rga@.take(n as int) =~= self.rga@);
        }
        out
    }

    /// Number of live UTF-16 code units: the sum of the live spans.
    pub fn size(&self) -> (r: usize)
        requires
            live_span(self.rga@) <= usize::MAX,
        ensures
            r == live_span(self.rga@),
    {
        let n = self.rga.chunk_count();
        let mut total: usize = 0;
        let mut i: usize = 0;
        while i < n
            invariant
                i <= n,
                n == self.rga@.len(),
                total == live_span(self.rga@.take(i as int)),
                live_span(self.rga@) <= usize::MAX,
            decreases n - i,
        {
            let c = self.rga.slot(i);
            proof {
                assert(self.rga@.take(i + 1).drop_last() =~= self.rga@.take(i as int));
                lemma_live_span_prefix(self.rga@, i + 1);
            }
            if !c.deleted {
                total = total + c.span as usize;
            }
            i = i + 1;
        }
        proof {
            assert(self.rga@.take(n as int) =~= self.rga@);
        }
        total
    }

    /// The id of the item at live position `pos`; `None` past the end.
    pub fn find(&self, pos: usize) -> (r: Option<Ts>)
        requires
            self.rga.wf(),
        ensures
            r == str_find(self.rga@, pos as int),
    {
        let n = self.rga.chunk_count();
        let mut count: usize = 0;
        let mut i: usize = 0;
        assert(self.rga@.skip(0) =~= self.rga@);
        while i < n
            invariant
                i <= n,
                n == self.rga@.len(),
                self.rga.wf(),
                count <= pos,
                str_find(self.rga@, pos as int) == str_find(self.rga@.skip(i as int), pos - count),
            decreases n - i,
        {
            let c = self.rga.slot(i);
            proof {
                lemma_fit_chunk(&self.rga, i as int);
                assert(self.rga@.skip(i as int).skip(1) =~= self.rga@.skip(i + 1));
                assert(self.rga@.skip(i as int)[0] == self.rga@[i as int]);
            }
            if !c.deleted {
                let rest = (pos - count) as u64;
                if rest < c.span {
                    return Some(Ts::new(c.id.sid, c.id.time + rest));
                }
                count = count + (c.span as usize);
            }
            i = i + 1;
        }
        None
    }

    /// The id spans covering live positions `pos .. pos + len`.
    pub fn find_interval(&self, pos: usize, len: usize) -> (r: Vec<Tss>)
        requires
            self.rga.wf(),
            pos + len <= usize::MAX,
        ensures
            r@ == str_interval(self.rga@, pos as int, pos + len),
    {
        let end = pos + len;
        let mut result: Vec<Tss> = Vec::new();
        let n = self.rga.chunk_count();
        let mut count: u128 = 0;
        let mut i: usize = 0;
        assert(self.rga@.skip(0) =~= self.rga@);
        assert(result@ + str_interval(self.rga@, pos as int, end as int) =~= str_interval(self.rga@, pos as int, end as int));
        while i < n
            invariant
                i <= n,
                n == self.rga@.len(),
                self.rga.wf(),
                end == pos + len,
                count < end + 0x1_0000_0000_0000_0000,
                result@ + str_interval(self.rga@.skip(i as int), pos - count, end - count)
                    == str_interval(self.rga@, pos as int, end as int),
            decreases n - i,
        {
            if count >= end as u128 {
                proof {
                    lemma_str_interval_past_end(self.rga@.skip(i as int), pos - count, end - count);
                    assert(result@ + Seq::<Tss>::empty() =~= result@);
                }
                return result;
            }
            let c = self.rga.slot(i);
            let ghost rest = self.rga@.skip(i as int);
            let ghost before = result@;
            proof {
                lemma_fit_chunk(&self.rga, i as int);
                assert(rest.skip(1) =~= self.rga@.skip(i + 1));
                assert(rest[0] == self.rga@[i as int]);
            }
            if !c.deleted {
                let chunk_start = count;
                let chunk_end = count + c.span as u128;
                if chunk_end > pos as u128 && chunk_start < end as u128 {
                    let local_start: u128 = if pos as u128 > chunk_start {
                        pos as u128 - chunk_start
                    } else {
                        0
                    };
                    let local_end: u128 = if (end as u128) - chunk_start < c.span as u128 {
                        (end as u128) - chunk_start
                    } else {
                        c.span as u128
                    };
                    result.push(
                        Tss::new(
                            c.id.sid,
                            c.id.time + local_start as u64,
                            (local_end - local_start) as u64,
                        ),
                    );
                }
                count = chunk_end;
                proof {
                    assert(result@ + str_interval(self.rga@.skip(i + 1), pos - count, end - count)
                        =~= before + str_interval(rest, pos - chunk_start, end - chunk_start));
                }
            }
            i = i + 1;
        }
        proof {
            assert(self.rga@.skip(n as int) =~= Seq::<ChunkView<char>>::empty());
            assert(result@ + Seq::<Tss>::empty() =~= result@);
        }
        result
    }
}

/// RGA binary node.
#[derive(Debug, Clone)]
pub struct BinNode {
    pub id: Ts,
    pub rga: Rga<Vec<u8>>,
}

impl BinNode {
    pub fn new(id: Ts) -> (r: Self)
        ensures
            r.id == id,
            r.rga@ == Seq::<ChunkView<u8>>::empty(),
            r.rga.wf(),
            !r.rga.indexed(),
    {
        Self { id, rga: Rga::new() }
    }

    /// Inserts `data` with id `id` after the item `after`; its span is its
    /// length.
    pub fn ins(&mut self, after: Ts, id: Ts, data: Vec<u8>)
        requires
            old(self).rga.wf(),
            id.time + data@.len() <= u64::MAX,
        ensures
            final(self).id == old(self).id,
            final(self).rga.wf(),
            final(self).rga.indexed() == (old(self).rga.indexed() || old(self).rga@.len()
                > IDX_THRESHOLD),
            exists|found: Option<usize>|
                #![trigger insert_view(old(self).rga@, after, found, id, data@.len(), data@)]
                (after.sid == 0 && after.time == 0 || lookup_ok_in(
                    old(self).rga@,
                    final(self).rga.indexed(),
                    after,
                    found,
                )) && final(self).rga@ == insert_view(
                    old(self).rga@,
                    after,
                    found,
                    id,
                    data@.len(),
                    data@,
                ),
            old(self).rga.all_held() ==> final(self).rga.all_held(),
            old(self).rga.all_held() && starts_apart(old(self).rga@) ==> exists|found: Option<usize>|
                #![trigger insert_view(old(self).rga@, after, found, id, data@.len(), data@)]
                (after.sid == 0 && after.time == 0 || lookup_ok_in(old(self).rga@, false, after, found))
                    && final(self).rga@ == insert_view(old(self).rga@, after, found, id, data@.len(), data@),
    {
        let span = data.len() as u64;
        self.rga.insert(after, id, span, data);
    }

    /// Deletes the items covered by `spans`.
    pub fn delete(&mut self, spans: &[Tss])
        requires
            old(self).rga.wf(),
            forall|k: int| 0 <= k < spans@.len() ==> (#[trigger] spans@[k]).time + spans@[k].span
                <= u64::MAX,
        ensures
            final(self).id == old(self).id,
            final(self).rga.wf(),
            final(self).rga.indexed() == old(self).rga.indexed(),
            final(self).rga@ == delete_view(old(self).rga@, spans@),
            old(self).rga.all_held() ==> final(self).rga.all_held(),
    {
        self.rga.delete(spans);
    }

    /// The bytes of the live chunks, in order.
    pub fn view(&self) -> (r: Vec<u8>)
        ensures
            r@ == live_items(self.rga@),
    {
        let mut out: Vec<u8> = Vec::new();
        let n = self.rga.chunk_count();
        let mut i: usize = 0;
        while i < n
            invariant
                i <= n,
                n == self.rga@.len(),
                out@ == live_items(self.rga@.take(i as int)),
            decreases n - i,
        {
            let c = self.rga.slot(i);
            proof {
                assert(self.rga@.take(i + 1).drop_last() =~= self.rga@.take(i as int));
            }
            if !c.deleted {
                match &c.data {
                    Some(d) => {
                        let ghost before = out@;
                        let mut k: usize = 0;
                        while k < d.len()
                            invariant
                                k <= d@.len(),
                                out@ == before + d@.take(k as int),
                            decreases d@.len() - k,
                        {
                            out.push(d[k]);
                            k = k + 1;
                            assert(out@ =~= before + d@.take(k as int));
                        }
                        assert(d@.take(d@.len() as int) =~= d@);
                    },
                    None => {},
                }
            }
            i = i + 1;
        }
        proof {
            assert(self.rga@.take(n as int) =~= self.rga@);
        }
        out
    }
}

/// Whether a chunk counts as live in an array node: not deleted, with items.
pub open spec fn arr_live(c: ChunkView<Ts>) -> bool {
    !c.deleted && c.items is Some
}

/// Number of live elements of an array node.
pub open spec fn arr_size(v: Seq<ChunkView<Ts>>) -> nat
    decreases v.len(),
{
    if v.len() == 0 {
        0
    } else {
        arr_size(v.drop_last()) + if arr_live(v.last()) {
            v.last().items->0.len()
        } else {
            0
        }
    }
}

proof fn lemma_arr_size_prefix(v: Seq<ChunkView<Ts>>, i: int)
    requires
        0 <= i <= v.len(),
    ensures
        arr_size(v.take(i)) <= arr_size(v),
    decreases v.len() - i,
{
    if i < v.len() {
        lemma_arr_size_prefix(v, i + 1);
        assert(v.take(i + 1).drop_last() =~= v.take(i));
    } else {
        assert(v.take(i) =~= v);
    }
}

/// The slot id of the element at live position `pos`.
pub open spec fn arr_find(v: Seq<ChunkView<Ts>>, pos: int) -> Option<Ts>
    decreases v.len(),
{
    if v.len() == 0 {
        None
    } else if !arr_live(v[0]) {
        arr_find(v.skip(1), pos)
    } else if pos < v[0].items->0.len() {
        Some(Ts { sid: v[0].id.sid, time: (v[0].id.time + pos) as u64 })
    } else {
        arr_find(v.skip(1), pos - v[0].items->0.len())
    }
}

/// The element (a data node id) at live position `pos`.
pub open spec fn arr_get_data(v: Seq<ChunkView<Ts>>, pos: int) -> Option<Ts>
    decreases v.len(),
{
    if v.len() == 0 {
        None
    } else if !arr_live(v[0]) {
        arr_get_data(v.skip(1), pos)
    } else if pos < v[0].items->0.len() {
        Some(v[0].items->0[pos])
    } else {
        arr_get_data(v.skip(1), pos - v[0].items->0.len())
    }
}

/// The elements at live positions `pos .. end`.
pub open spec fn arr_data_at(v: Seq<ChunkView<Ts>>, pos: int, end: int) -> Seq<Ts>
    decreases v.len(),
{
    if v.len() == 0 {
        Seq::empty()
    } else if !arr_live(v[0]) {
        arr_data_at(v.skip(1), pos, end)
    } else {
        let s = v[0].items->0;
        let here = if s.len() > pos && 0 < end {
            let ls = if pos > 0 { pos } else { 0 };
            let le = if end < s.len() { end } else { s.len() as int };
            s.subrange(ls, le)
        } else {
            Seq::empty()
        };
        here + arr_data_at(v.skip(1), pos - s.len(), end - s.len())
    }
}

/// The slot id spans of live positions `pos .. end`, one per live chunk
/// that the range reaches.
pub open spec fn arr_interval(v: Seq<ChunkView<Ts>>, pos: int, end: int) -> Seq<Tss>
    decreases v.len(),
{
    if v.len() == 0 {
        Seq::empty()
    } else if !arr_live(v[0]) {
        arr_interval(v.skip(1), pos, end)
    } else {
        let c = v[0];
        let n = c.items->0.len();
        let here = if n > pos && 0 < end {
            let ls = if pos > 0 { pos } else { 0 };
            let le = if end < n { end } else { n as int };
            seq![Tss { sid: c.id.sid, time: (c.id.time + ls) as u64, span: (le - ls) as u64 }]
        } else {
            Seq::empty()
        };
        here + arr_interval(v.skip(1), pos - n, end - n)
    }
}

proof fn lemma_arr_past_end(v: Seq<ChunkView<Ts>>, pos: int, end: int)
    requires
        end <= 0,
    ensures
        arr_interval(v, pos, end) == Seq::<Tss>::empty(),
        arr_data_at(v, pos, end) == Seq::<Ts>::empty(),
    decreases v.len(),
{
    if v.len() > 0 {
        if !arr_live(v[0]) {
            lemma_arr_past_end(v.skip(1), pos, end);
        } else {
            let n = v[0].items->0.len();
            lemma_arr_past_end(v.skip(1), pos - n, end - n);
        }
    }
}

/// The elements at live positions `pos .. end` are, in order, those found
/// position by position from `max(pos, 0)`: a position of the range holds
/// an element exactly when it comes before the end of the result.
pub proof fn lemma_data_at_by_position(v: Seq<ChunkView<Ts>>, pos: int, end: int)
    requires
        pos <= end,
    ensures
        ({
            let lo = if pos > 0 { pos } else { 0 };
            let d = arr_data_at(v, pos, end);
            &&& d.len() <= if end > lo { end - lo } else { 0 }
            &&& forall|p: int| lo <= p < lo + d.len() ==> #[trigger] arr_get_data(v, p) == Some(d[p - lo])
            &&& forall|p: int| lo <= p < end ==> (#[trigger] arr_get_data(v, p) is Some <==> p < lo + d.len())
        }),
    decreases v.len(),
{
    let lo = if pos > 0 { pos } else { 0 };
    if v.len() == 0 {
    } else if !arr_live(v[0]) {
        let w = v.skip(1);
        lemma_data_at_by_position(w, pos, end);
        let d = arr_data_at(v, pos, end);
        assert(d == arr_data_at(w, pos, end));
        assert forall|p: int| lo <= p < lo + d.len() implies #[trigger] arr_get_data(v, p) == Some(d[p - lo]) by {
            assert(arr_get_data(v, p) == arr_get_data(w, p));
        }
        assert forall|p: int| lo <= p < end implies (#[trigger] arr_get_data(v, p) is Some <==> p < lo + d.len()) by {
            assert(arr_get_data(v, p) == arr_get_data(w, p));
        }
    } else {
        let s = v[0].items->0;
        let n = s.len() as int;
        let w = v.skip(1);
        lemma_data_at_by_position(w, pos - n, end - n);
        let d = arr_data_at(v, pos, end);
        let rest = arr_data_at(w, pos - n, end - n);
        let lo2 = if pos - n > 0 { pos - n } else { 0 };
        if pos >= n {
            assert(d == rest);
            assert forall|p: int| lo <= p < end implies (#[trigger] arr_get_data(v, p) == arr_get_data(w, p - n)) by {}
            assert forall|p: int| lo <= p < lo + d.len() implies #[trigger] arr_get_data(v, p) == Some(d[p - lo]) by {
                assert(arr_get_data(w, p - n) == Some(rest[(p - n) - lo2]));
            }
            assert forall|p: int| lo <= p < end implies (#[trigger] arr_get_data(v, p) is Some <==> p < lo + d.len()) by {
                assert(lo2 <= p - n < end - n);
                assert(arr_get_data(w, p - n) is Some <==> p - n < lo2 + rest.len());
            }
        } else if end <= 0 {
            lemma_arr_past_end(w, pos - n, end - n);
            assert(d =~= Seq::<Ts>::empty());
        } else {
            let hi = if end < n { end } else { n };
            let here = s.subrange(lo, hi);
            assert(d == here + rest);
            assert(lo2 == 0);
            if end <= n {
                lemma_arr_past_end(w, pos - n, end - n);
            }
            assert forall|p: int| lo <= p < lo + d.len() implies #[trigger] arr_get_data(v, p) == Some(d[p - lo]) by {
                if p < hi {
                    assert(d[p - lo] == s[p]);
                } else {
                    assert(d[p - lo] == rest[p - lo - here.len()]);
                    assert(p - n == p - lo - here.len());
                    assert(arr_get_data(w, p - n) == Some(rest[(p - n) - lo2]));
                }
            }
            assert forall|p: int| lo <= p < end implies (#[trigger] arr_get_data(v, p) is Some <==> p < lo + d.len()) by {
                if p >= n {
                    assert(lo2 <= p - n < end - n);
                    assert(arr_get_data(w, p - n) is Some <==> p - n < lo2 + rest.len());
                }
            }
        }
    }
}

/// The element at the slot `t`, given that the lookup of `t` answered `found`.
pub open spec fn arr_item_at(v: Seq<ChunkView<Ts>>, found: Option<usize>, t: Ts) -> Option<Ts> {
    match found {
        None => None,
        Some(i) => match v[i as int].items {
            Some(s) => if t.time - v[i as int].id.time < s.len() {
                Some(s[t.time - v[i as int].id.time])
            } else {
                None
            },
            None => None,
        },
    }
}

/// The chunks and the answer after setting the element at slot `t` to `val`
/// when `val` is newer, given that the lookup of `t` answered `found`.
pub open spec fn arr_upd_view(v: Seq<ChunkView<Ts>>, found: Option<usize>, t: Ts, val: Ts) -> (
    Seq<ChunkView<Ts>>,
    Option<Ts>,
) {
    match found {
        None => (v, None),
        Some(i) => {
            let c = v[i as int];
            match c.items {
                Some(s) => {
                    let off = t.time - c.id.time;
                    if off < s.len() && spec_compare(s[off], val) < 0 {
                        (
                            v.update(
                                i as int,
                                ChunkView {
                                    id: c.id,
                                    span: c.span,
                                    deleted: c.deleted,
                                    items: Some(s.update(off, val)),
                                },
                            ),
                            Some(s[off]),
                        )
                    } else {
                        (v, None)
                    }
                },
                None => (v, None),
            }
        },
    }
}

/// RGA array of node ids.
#[derive(Debug, Clone)]
pub struct ArrNode {
    pub id: Ts,
    pub rga: Rga<Vec<Ts>>,
}

impl ArrNode {
    /// Well-formedness: the sequence is well formed and every chunk that
    /// holds elements holds exactly `span` of them.
    pub open spec fn wf(&self) -> bool {
        self.rga.wf() && exact(self.rga@)
    }

    pub fn new(id: Ts) -> (r: Self)
        ensures
            r.id == id,
            r.rga@ == Seq::<ChunkView<Ts>>::empty(),
            r.wf(),
            !r.rga.indexed(),
    {
        Self { id, rga: Rga::new() }
    }

    /// Inserts the node ids `data` with id `id` after the slot `after`.
    pub fn ins(&mut self, after: Ts, id: Ts, data: Vec<Ts>)
        requires
            old(self).wf(),
            id.time + data@.len() <= u64::MAX,
        ensures
            final(self).id == old(self).id,
            final(self).wf(),
            final(self).rga.indexed() == (old(self).rga.indexed() || old(self).rga@.len()
                > IDX_THRESHOLD),
            exists|found: Option<usize>|
                #![trigger insert_view(old(self).rga@, after, found, id, data@.len(), data@)]
                (after.sid == 0 && after.time == 0 || lookup_ok_in(
                    old(self).rga@,
                    final(self).rga.indexed(),
                    after,
                    found,
                )) && final(self).rga@ == insert_view(
                    old(self).rga@,
                    after,
                    found,
                    id,
                    data@.len(),
                    data@,
                ),
            old(self).rga.all_held() ==> final(self).rga.all_held(),
            old(self).rga.all_held() && starts_apart(old(self).rga@) ==> exists|found: Option<usize>|
                #![trigger insert_view(old(self).rga@, after, found, id, data@.len(), data@)]
                (after.sid == 0 && after.time == 0 || lookup_ok_in(old(self).rga@, false, after, found))
                    && final(self).rga@ == insert_view(old(self).rga@, after, found, id, data@.len(), data@),
    {
        let ghost v0 = self.rga@;
        let ghost items = data@;
        let span = data.len() as u64;
        self.rga.insert(after, id, span, data);
        proof {
            let found = choose|found: Option<usize>|
                #![trigger insert_view(v0, after, found, id, items.len(), items)]
                (after.sid == 0 && after.time == 0 || lookup_ok_in(
                    v0,
                    self.rga.indexed(),
                    after,
                    found,
                )) && self.rga@ == insert_view(v0, after, found, id, items.len(), items);
            if after.sid == 0 && after.time == 0 {
                assert(insert_view(v0, after, found, id, items.len(), items) == insert_view(
                    v0,
                    after,
                    None,
                    id,
                    items.len(),
                    items,
                ));
                lemma_insert_exact(v0, after, None, id, items.len(), items);
            } else {
                lemma_insert_exact(v0, after, found, id, items.len(), items);
            }
        }
    }

    /// Sets the element at slot `ref_id` to `val` when `val` is newer than
    /// it; returns the element it replaced.
    pub fn upd(&mut self, ref_id: Ts, val: Ts) -> (r: Option<Ts>)
        requires
            old(self).wf(),
        ensures
            final(self).id == old(self).id,
            final(self).wf(),
            final(self).rga.indexed() == old(self).rga.indexed(),
            exists|found: Option<usize>|
                #![trigger arr_upd_view(old(self).rga@, found, ref_id, val)]
                lookup_ok_in(old(self).rga@, old(self).rga.indexed(), ref_id, found) && (
                final(self).rga@,
                r,
            ) == arr_upd_view(old(self).rga@, found, ref_id, val),
            old(self).rga.all_held() ==> final(self).rga.all_held(),
            old(self).rga.all_held() && starts_apart(old(self).rga@) ==> exists|found: Option<usize>|
                #![trigger arr_upd_view(old(self).rga@, found, ref_id, val)]
                lookup_ok_in(old(self).rga@, false, ref_id, found) && (final(self).rga@, r)
                    == arr_upd_view(old(self).rga@, found, ref_id, val),
    {
        let ghost v0 = self.rga@;
        let f = self.rga.find_by_id(ref_id);
        let r = match f {
            None => None,
            Some(idx) => {
                proof {
                    self.rga.lemma_slot_fits(idx as int);
                }
                let chunk = self.rga.slot_mut(idx);
                let cid = chunk.id;
                let d = chunk.data.take();
                match d {
                    None => {
                        chunk.data = None;
                        None
                    },
                    Some(data) => {
                        let mut data = data;
                        let offset = (ref_id.time - cid.time) as usize;
                        if offset < data.len() {
                            let current = data[offset];
                            if compare(current, val) >= 0 {
                                chunk.data = Some(data);
                                None
                            } else {
                                data.set(offset, val);
                                chunk.data = Some(data);
                                Some(current)
                            }
                        } else {
                            chunk.data = Some(data);
                            None
                        }
                    },
                }
            },
        };
        proof {
            let w = arr_upd_view(v0, f, ref_id, val);
            assert(self.rga@ =~= w.0);
            assert(r == w.1);
            assert forall|k: int| 0 <= k < self.rga@.len() implies chunk_exact(
                #[trigger] self.rga@[k],
            ) by {
                if f is None || k != f->0 {
                    assert(self.rga@[k] == v0[k]);
                }
            }
            assert(lookup_ok_in(old(self).rga@, old(self).rga.indexed(), ref_id, f) && (
            self.rga@,
            r,
            ) == arr_upd_view(old(self).rga@, f, ref_id, val));
        }
        r
    }

    /// Deletes the slots covered by `spans`.
    pub fn delete(&mut self, spans: &[Tss])
        requires
            old(self).wf(),
            forall|k: int| 0 <= k < spans@.len() ==> (#[trigger] spans@[k]).time + spans@[k].span
                <= u64::MAX,
        ensures
            final(self).id == old(self).id,
            final(self).wf(),
            final(self).rga.indexed() == old(self).rga.indexed(),
            final(self).rga@ == delete_view(old(self).rga@, spans@),
            old(self).rga.all_held() ==> final(self).rga.all_held(),
    {
        let ghost v0 = self.rga@;
        self.rga.delete(spans);
        proof {
            lemma_delete_exact(v0, spans@);
        }
    }

    /// Number of live elements.
    pub fn size(&self) -> (r: usize)
        requires
            arr_size(self.rga@) <= usize::MAX,
        ensures
            r == arr_size(self.rga@),
    {
        let n = self.rga.chunk_count();
        let mut total: usize = 0;
        let mut i: usize = 0;
        while i < n
            invariant
                i <= n,
                n == self.rga@.len(),
                total == arr_size(self.rga@.take(i as int)),
                arr_size(self.rga@) <= usize::MAX,
            decreases n - i,
        {
            let c = self.rga.slot(i);
            proof {
                assert(self.rga@.take(i + 1).drop_last() =~= self.rga@.take(i as int));
                lemma_arr_size_prefix(self.rga@, i + 1);
            }
            if !c.deleted {
                match &c.data {
                    Some(d) => {
                        total = total + d.len();
                    },
                    None => {},
                }
            }
            i = i + 1;
        }
        proof {
            assert(self.rga@.take(n as int) =~= self.rga@);
        }
        total
    }

    /// The slot id of the element at live position `pos`.
    pub fn find(&self, pos: usize) -> (r: Option<Ts>)
        requires
            self.wf(),
        ensures
            r == arr_find(self.rga@, pos as int),
    {
        let n = self.rga.chunk_count();
        let mut count: usize = 0;
        let mut i: usize = 0;
        assert(self.rga@.skip(0) =~= self.rga@);
        while i < n
            invariant
                i <= n,
                n == self.rga@.len(),
                self.wf(),
                count <= pos,
                arr_find(self.rga@, pos as int) == arr_find(self.rga@.skip(i as int), pos - count),
            decreases n - i,
        {
            let c = self.rga.slot(i);
            proof {
                self.rga.lemma_slot_fits(i as int);
                assert(chunk_exact(self.rga@[i as int]));
                assert(self.rga@.skip(i as int).skip(1) =~= self.rga@.skip(i + 1));
                assert(self.rga@.skip(i as int)[0] == self.rga@[i as int]);
            }
            if !c.deleted {
                match &c.data {
                    Some(d) => {
                        let rest = pos - count;
                        if rest < d.len() {
                            return Some(Ts::new(c.id.sid, c.id.time + rest as u64));
                        }
                        count = count + d.len();
                    },
                    None => {},
                }
            }
            i = i + 1;
        }
        None
    }

    /// The element (a data node id) at live position `pos`.
    pub fn get_data_ts(&self, pos: usize) -> (r: Option<Ts>)
        ensures
            r == arr_get_data(self.rga@, pos as int),
    {
        let n = self.rga.chunk_count();
        let mut count: usize = 0;
        let mut i: usize = 0;
        assert(self.rga@.skip(0) =~= self.rga@);
        while i < n
            invariant
                i <= n,
                n == self.rga@.len(),
                count <= pos,
                arr_get_data(self.rga@, pos as int) == arr_get_data(
                    self.rga@.skip(i as int),
                    pos - count,
                ),
            decreases n - i,
        {
            let c = self.rga.slot(i);
            proof {
                assert(self.rga@.skip(i as int).skip(1) =~= self.rga@.skip(i + 1));
                assert(self.rga@.skip(i as int)[0] == self.rga@[i as int]);
            }
            if !c.deleted {
                match &c.data {
                    Some(d) => {
                        let rest = pos - count;
                        if rest < d.len() {
                            return Some(d[rest]);
                        }
                        count = count + d.len();
                    },
                    None => {},
                }
            }
            i = i + 1;
        }
        None
    }

    /// The elements at live positions `pos .. pos + len`.
    pub fn find_data_at(&self, pos: usize, len: usize) -> (r: Vec<Ts>)
        requires
            pos + len <= usize::MAX,
        ensures
            r@ == arr_data_at(self.rga@, pos as int, pos + len),
    {
        let end = pos + len;
        let mut result: Vec<Ts> = Vec::new();
        let n = self.rga.chunk_count();
        let mut count: u128 = 0;
        let mut i: usize = 0;
        assert(self.rga@.skip(0) =~= self.rga@);
        assert(result@ + arr_data_at(self.rga@, pos as int, end as int) =~= arr_data_at(
            self.rga@,
            pos as int,
            end as int,
        ));
        while i < n
            invariant
                i <= n,
                n == self.rga@.len(),
                end == pos + len,
                count < end + 0x1_0000_0000_0000_0000,
                result@ + arr_data_at(self.rga@.skip(i as int), pos - count, end - count)
                    == arr_data_at(self.rga@, pos as int, end as int),
            decreases n - i,
        {
            if count >= end as u128 {
                proof {
                    lemma_arr_past_end(self.rga@.skip(i as int), pos - count, end - count);
                    assert(result@ + Seq::<Ts>::empty() =~= result@);
                }
                return result;
            }
            let c = self.rga.slot(i);
            let ghost rest = self.rga@.skip(i as int);
            let ghost before = result@;
            proof {
                assert(rest.skip(1) =~= self.rga@.skip(i + 1));
                assert(rest[0] == self.rga@[i as int]);
            }
            if !c.deleted {
                match &c.data {
                    Some(d) => {
                        let chunk_start = count;
                        let chunk_end = count + d.len() as u128;
                        if chunk_end > pos as u128 && chunk_start < end as u128 {
                            let local_start: usize = if pos as u128 > chunk_start {
                                (pos as u128 - chunk_start) as usize
                            } else {
                                0
                            };
                            let local_end: usize = if (end as u128) - chunk_start < d.len() as u128 {
                                ((end as u128) - chunk_start) as usize
                            } else {
                                d.len()
                            };
                            let mut k: usize = local_start;
                            while k < local_end
                                invariant
                                    local_start <= k <= local_end <= d@.len(),
                                    result@ == before + d@.subrange(local_start as int, k as int),
                                decreases local_end - k,
                            {
                                result.push(d[k]);
                                k = k + 1;
                                assert(result@ =~= before + d@.subrange(local_start as int, k as int));
                            }
                        }
                        count = chunk_end;
                        proof {
                            assert(result@ + arr_data_at(self.rga@.skip(i + 1), pos - count, end - count)
                                =~= before + arr_data_at(rest, pos - chunk_start, end - chunk_start));
                        }
                    },
                    None => {},
                }
            }
            i = i + 1;
        }
        proof {
            assert(self.rga@.skip(n as int) =~= Seq::<ChunkView<Ts>>::empty());
            assert(result@ + Seq::<Ts>::empty() =~= result@);
        }
        result
    }

    /// The slot id spans covering live positions `pos .. pos + len`.
    pub fn find_interval(&self, pos: usize, len: usize) -> (r: Vec<Tss>)
        requires
            self.wf(),
            pos + len <= usize::MAX,
        ensures
            r@ == arr_interval(self.rga@, pos as int, pos + len),
    {
        let end = pos + len;
        let mut result: Vec<Tss> = Vec::new();
        let n = self.rga.chunk_count();
        let mut count: u128 = 0;
        let mut i: usize = 0;
        assert(self.rga@.skip(0) =~= self.rga@);
        assert(result@ + arr_interval(self.rga@, pos as int, end as int) =~= arr_interval(
            self.rga@,
            pos as int,
            end as int,
        ));
        while i < n
            invariant
                i <= n,
                n == self.rga@.len(),
                self.wf(),
                end == pos + len,
                count < end + 0x1_0000_0000_0000_0000,
                result@ + arr_interval(self.rga@.skip(i as int), pos - count, end - count)
                    == arr_interval(self.rga@, pos as int, end as int),
            decreases n - i,
        {
            if count >= end as u128 {
                proof {
                    lemma_arr_past_end(self.rga@.skip(i as int), pos - count, end - count);
                    assert(result@ + Seq::<Tss>::empty() =~= result@);
                }
                return result;
            }
            let c = self.rga.slot(i);
            let ghost rest = self.rga@.skip(i as int);
            let ghost before = result@;
            proof {
                self.rga.lemma_slot_fits(i as int);
                assert(chunk_exact(self.rga@[i as int]));
                assert(rest.skip(1) =~= self.rga@.skip(i + 1));
                assert(rest[0] == self.rga@[i as int]);
            }
            if !c.deleted {
                match &c.data {
                    Some(d) => {
                        let chunk_start = count;
                        let chunk_end = count + d.len() as u128;
                        if chunk_end > pos as u128 && chunk_start < end as u128 {
                            let local_start: u128 = if pos as u128 > chunk_start {
                                pos as u128 - chunk_start
                            } else {
                                0
                            };
                            let local_end: u128 = if (end as u128) - chunk_start < d.len() as u128 {
                                (end as u128) - chunk_start
                            } else {
                                d.len() as u128
                            };
                            result.push(
                                Tss::new(
                                    c.id.sid,
                                    c.id.time + local_start as u64,
                                    (local_end - local_start) as u64,
                                ),
                            );
                        }
                        count = chunk_end;
                        proof {
                            assert(result@ + arr_interval(self.rga@.skip(i + 1), pos - count, end - count)
                                =~= before + arr_interval(rest, pos - chunk_start, end - chunk_start));
                        }
                    },
                    None => {},
                }
            }
            i = i + 1;
        }
        proof {
            assert(self.rga@.skip(n as int) =~= Seq::<ChunkView<Ts>>::empty());
            assert(result@ + Seq::<Tss>::empty() =~= result@);
        }
        result
    }

    /// The element at slot `target`.
    pub fn get_by_id(&self, target: Ts) -> (r: Option<Ts>)
        requires
            self.wf(),
        ensures
            exists|found: Option<usize>|
                #![trigger arr_item_at(self.rga@, found, target)]
                lookup_ok_in(self.rga@, self.rga.indexed(), target, found) && r == arr_item_at(
                    self.rga@,
                    found,
                    target,
                ),
    {
        let f = self.rga.find_by_id(target);
        match f {
            None => {
                assert(arr_item_at(self.rga@, f, target) is None);
                None
            },
            Some(idx) => {
                let chunk = self.rga.slot(idx);
                proof {
                    self.rga.lemma_slot_fits(idx as int);
                }
                match &chunk.data {
                    Some(data) => {
                        let offset = (target.time - chunk.id.time) as usize;
                        let r = if offset < data.len() {
                            Some(data[offset])
                        } else {
                            None
                        };
                        assert(r == arr_item_at(self.rga@, f, target));
                        r
                    },
                    None => {
                        assert(arr_item_at(self.rga@, f, target) is None);
                        None
                    },
                }
            },
        }
    }
}

} // verus!
