//! RGA (Replicated Growable Array).
//!
//! Stores chunks in a `Vec<Chunk<T>>` (document order) with an optional
//! supplementary ID index that is built lazily once the chunk count exceeds
//! `IDX_THRESHOLD`.
use vstd::prelude::*;
use crate::clock::{Ts, Tss, compare, spec_compare};

verus! {

/// Build the index only when the chunk count exceeds this value.
pub const IDX_THRESHOLD: usize = 16;

/// Chunk payload types that can be split at a logical item offset.
pub trait ChunkData: Sized {
    /// The items a payload is made of.
    type Item;

    /// The payload's items, in order.
    spec fn items(&self) -> Seq<Self::Item>;

    /// Whether a split at any offset up to `n` is defined for this payload.
    spec fn splits_up_to(&self, n: nat) -> bool;

    /// A split is defined at every offset below a defined one.
    proof fn lemma_splits_mono(&self, a: nat, b: nat)
        requires
            a <= b,
            self.splits_up_to(b),
        ensures
            self.splits_up_to(a),
    ;

    /// Offsets at which a split is defined fit in `usize`.
    proof fn lemma_splits_bound(&self, n: nat)
        requires
            self.splits_up_to(n),
        ensures
            n <= usize::MAX,
    ;

    /// Split `self` at logical offset `at` (number of items before the split).
    /// Modifies `self` to hold items `[0, at)` and returns items `[at, len)`;
    /// an offset past the end splits at the end.
    fn split_at_offset(&mut self, at: usize) -> (r: Self)
        requires
            old(self).splits_up_to(at as nat),
        ensures
            ({
                let k = if at <= old(self).items().len() { at as int } else { old(self).items().len() as int };
                &&& final(self).items() == old(self).items().take(k)
                &&& r.items() == old(self).items().skip(k)
            }),
            final(self).splits_up_to(at as nat),
            forall|n: nat| old(self).splits_up_to((at + n) as nat) ==> #[trigger] r.splits_up_to(n),
    ;
}

impl ChunkData for String {
    type Item = char;

    open spec fn items(&self) -> Seq<char> {
        self@
    }

    open spec fn splits_up_to(&self, n: nat) -> bool {
        n <= usize::MAX
    }

    proof fn lemma_splits_mono(&self, a: nat, b: nat) {
    }

    proof fn lemma_splits_bound(&self, n: nat) {
    }

    fn split_at_offset(&mut self, at: usize) -> (r: Self) {
        let n = self.as_str().unicode_len();
        let k = if at <= n { at } else { n };
        let right = String::from_str(self.as_str().substring_char(k, n));
        let left = String::from_str(self.as_str().substring_char(0, k));
        *self = left;
        right
    }
}

impl ChunkData for Vec<u8> {
    type Item = u8;

    open spec fn items(&self) -> Seq<u8> {
        self@
    }

    open spec fn splits_up_to(&self, n: nat) -> bool {
        n <= self@.len() && n <= usize::MAX
    }

    proof fn lemma_splits_mono(&self, a: nat, b: nat) {
    }

    proof fn lemma_splits_bound(&self, n: nat) {
    }

    fn split_at_offset(&mut self, at: usize) -> (r: Self) {
        self.split_off(at)
    }
}

impl ChunkData for Vec<Ts> {
    type Item = Ts;

    open spec fn items(&self) -> Seq<Ts> {
        self@
    }

    open spec fn splits_up_to(&self, n: nat) -> bool {
        n <= self@.len() && n <= usize::MAX
    }

    proof fn lemma_splits_mono(&self, a: nat, b: nat) {
    }

    proof fn lemma_splits_bound(&self, n: nat) {
    }

    fn split_at_offset(&mut self, at: usize) -> (r: Self) {
        self.split_off(at)
    }
}

/// One chunk in the RGA sequence: a run of items inserted by one operation,
/// with consecutive timestamps `id, id+1, ...`.
#[derive(Debug, Clone)]
pub struct Chunk<T> {
    /// Timestamp of the first item in this chunk.
    pub id: Ts,
    /// Number of logical items in this chunk (including deleted ones).
    pub span: u64,
    /// Whether all items in this chunk are deleted.
    pub deleted: bool,
    /// The content; `None` if the chunk is a deleted tombstone.
    pub data: Option<T>,
}

/// A chunk as a mathematical value: its payload is seen through its items.
pub ghost struct ChunkView<I> {
    pub id: Ts,
    pub span: nat,
    pub deleted: bool,
    pub items: Option<Seq<I>>,
}

impl<T: ChunkData> Chunk<T> {
    pub open spec fn cview(&self) -> ChunkView<T::Item> {
        ChunkView {
            id: self.id,
            span: self.span as nat,
            deleted: self.deleted,
            items: match self.data {
                Some(d) => Some(d.items()),
                None => None,
            },
        }
    }

    /// Every split inside the chunk is defined and its time range fits in `u64`.
    pub open spec fn fits(&self) -> bool {
        &&& self.id.time + self.span <= u64::MAX
        &&& (self.data matches Some(d) ==> d.splits_up_to(self.span as nat))
    }
}

impl<T> Chunk<T> {
    pub fn new(id: Ts, span: u64, data: T) -> (r: Self)
        ensures
            r.id == id,
            r.span == span,
            !r.deleted,
            r.data == Some(data),
    {
        Self { id, span, deleted: false, data: Some(data) }
    }

    pub fn new_deleted(id: Ts, span: u64) -> (r: Self)
        ensures
            r.id == id,
            r.span == span,
            r.deleted,
            r.data == None::<T>,
    {
        Self { id, span, deleted: true, data: None }
    }

    /// Number of live items: the span, or zero when deleted.
    pub fn len(&self) -> (r: u64)
        ensures
            r == if self.deleted { 0 } else { self.span },
    {
        if self.deleted {
            0
        } else {
            self.span
        }
    }
}

/// Whether the chunk covers timestamp `ts`.
pub open spec fn covers<I>(c: ChunkView<I>, ts: Ts) -> bool {
    c.id.sid == ts.sid && c.id.time <= ts.time && ts.time < c.id.time + c.span
}

/// The two chunks a chunk is split into at offset `at` (`0 < at < span`).
pub open spec fn split_view<I>(c: ChunkView<I>, at: nat) -> (ChunkView<I>, ChunkView<I>) {
    let left = ChunkView {
        id: c.id,
        span: at,
        deleted: c.deleted,
        items: match c.items {
            Some(s) => Some(s.take(if at <= s.len() { at as int } else { s.len() as int })),
            None => None,
        },
    };
    let right_id = Ts { sid: c.id.sid, time: (c.id.time + at) as u64 };
    let right_span = (c.span - at) as nat;
    let right = match c.items {
        Some(s) if !c.deleted => ChunkView {
            id: right_id,
            span: right_span,
            deleted: false,
            items: Some(s.skip(if at <= s.len() { at as int } else { s.len() as int })),
        },
        _ => ChunkView { id: right_id, span: right_span, deleted: true, items: None },
    };
    (left, right)
}

/// `v` with the chunk at `i` split at offset `at`.
pub open spec fn split_at_view<I>(v: Seq<ChunkView<I>>, i: int, at: nat) -> Seq<ChunkView<I>> {
    let (l, r) = split_view(v[i], at);
    v.take(i) + seq![l, r] + v.skip(i + 1)
}

/// Position of the first chunk at or after `p` whose id does not sort after `id`.
pub open spec fn skip_newer<I>(v: Seq<ChunkView<I>>, p: int, id: Ts) -> int
    decreases v.len() - p,
{
    if p < v.len() && spec_compare(v[p].id, id) > 0 {
        skip_newer(v, p + 1, id)
    } else {
        p
    }
}

/// The chunks after inserting a chunk `id`/`span` with `items` after the item
/// `after`, given that the lookup of `after` answered `found`.
pub open spec fn insert_view<I>(
    v: Seq<ChunkView<I>>,
    after: Ts,
    found: Option<usize>,
    id: Ts,
    span: nat,
    items: Seq<I>,
) -> Seq<ChunkView<I>> {
    let (v1, p) = if after.sid == 0 && after.time == 0 {
        (v, 0int)
    } else {
        match found {
            Some(i) => {
                let c = v[i as int];
                if after.time < c.id.time + c.span - 1 {
                    (split_at_view(v, i as int, (after.time - c.id.time + 1) as nat), i + 1)
                } else {
                    (v, i + 1)
                }
            },
            None => (v, v.len() as int),
        }
    };
    let pos = skip_newer(v1, p, id);
    v1.insert(pos, ChunkView { id, span, deleted: false, items: Some(items) })
}

/// The chunks one chunk `c` becomes when the items `ds .. de` of session `sid`
/// are deleted: an untouched prefix and suffix (if any) and a deleted middle.
/// An empty range covers no item and leaves the chunk as it is.
pub open spec fn delete_in_chunk<I>(c: ChunkView<I>, sid: u64, ds: nat, de: nat) -> Seq<ChunkView<I>> {
    let cs = c.id.time as nat;
    let ce = cs + c.span;
    if c.id.sid != sid || cs >= de || ce <= ds || de <= ds {
        seq![c]
    } else {
        let os = if ds > cs { ds } else { cs };
        let oe = if de < ce { de } else { ce };
        let (pre, mid0) = if os > cs {
            let (l, r) = split_view(c, (os - cs) as nat);
            (seq![l], r)
        } else {
            (Seq::empty(), c)
        };
        let (mid1, post) = if mid0.id.time < oe && oe < mid0.id.time + mid0.span {
            let (l, r) = split_view(mid0, (oe - mid0.id.time) as nat);
            (l, seq![r])
        } else {
            (mid0, Seq::empty())
        };
        pre + seq![ChunkView { id: mid1.id, span: mid1.span, deleted: true, items: None }] + post
    }
}

/// The chunks after deleting the items `ds .. de` of session `sid`.
pub open spec fn delete_span_view<I>(v: Seq<ChunkView<I>>, sid: u64, ds: nat, de: nat) -> Seq<ChunkView<I>>
    decreases v.len(),
{
    if v.len() == 0 {
        Seq::empty()
    } else {
        delete_span_view(v.drop_last(), sid, ds, de) + delete_in_chunk(v.last(), sid, ds, de)
    }
}

/// Deleting an empty range changes nothing.
proof fn lemma_delete_empty_span<I>(v: Seq<ChunkView<I>>, sid: u64, ds: nat, de: nat)
    requires
        de <= ds,
    ensures
        delete_span_view(v, sid, ds, de) == v,
    decreases v.len(),
{
    if v.len() > 0 {
        lemma_delete_empty_span(v.drop_last(), sid, ds, de);
        assert(v.drop_last().push(v.last()) =~= v);
        assert(v.drop_last() + seq![v.last()] =~= v);
    }
}

/// The chunks after deleting every span of `spans` in turn.
pub open spec fn delete_view<I>(v: Seq<ChunkView<I>>, spans: Seq<Tss>) -> Seq<ChunkView<I>>
    decreases spans.len(),
{
    if spans.len() == 0 {
        v
    } else {
        let t = spans.last();
        delete_span_view(
            delete_view(v, spans.drop_last()),
            t.sid,
            t.time as nat,
            (t.time + t.span) as nat,
        )
    }
}

/// No chunk starts inside the id range of another chunk of its session.
pub open spec fn starts_apart<I>(v: Seq<ChunkView<I>>) -> bool {
    forall|i: int, j: int|
        0 <= i < v.len() && 0 <= j < v.len() && i != j && v[i].id.sid == v[j].id.sid ==> !(
        #[trigger] v[i].id.time <= #[trigger] v[j].id.time < v[i].id.time + v[i].span)
}

/// With chunks starting apart, at most one chunk covers an id.
pub proof fn lemma_one_cover<I>(v: Seq<ChunkView<I>>, ts: Ts, i: int, j: int)
    requires
        starts_apart(v),
        0 <= i < v.len(),
        0 <= j < v.len(),
        covers(v[i], ts),
        covers(v[j], ts),
    ensures
        i == j,
{
    if i != j {
        if v[i].id.time <= v[j].id.time {
            assert(!(v[i].id.time <= v[j].id.time < v[i].id.time + v[i].span));
        } else {
            assert(!(v[j].id.time <= v[i].id.time < v[j].id.time + v[j].span));
        }
    }
}

/// The chunks of `v` that are not deleted, in order.
pub open spec fn live_chunks<I>(v: Seq<ChunkView<I>>) -> Seq<ChunkView<I>>
    decreases v.len(),
{
    if v.len() == 0 {
        Seq::empty()
    } else if v.last().deleted {
        live_chunks(v.drop_last())
    } else {
        live_chunks(v.drop_last()).push(v.last())
    }
}

/// `found` is an acceptable answer to a lookup of `ts` in `v`: a chunk that
/// covers `ts`; where no index is built, the first such chunk, and `None`
/// exactly when no chunk covers it.
pub open spec fn lookup_ok_in<I>(v: Seq<ChunkView<I>>, indexed: bool, ts: Ts, found: Option<usize>) -> bool {
    &&& (found matches Some(i) ==> i < v.len() && covers(v[i as int], ts))
    &&& (!indexed ==> match found {
        Some(i) => forall|j: int| 0 <= j < i ==> !covers(#[trigger] v[j], ts),
        None => forall|j: int| 0 <= j < v.len() ==> !covers(#[trigger] v[j], ts),
    })
}

/// RGA sequence backed by a `Vec<Chunk<T>>` with a lazily-built ID index.
///
/// The index is a two-level structure: an outer list of `(sid, inner)`
/// sorted by `sid`, and inner lists of `(start_time, chunk_vec_index)`.
#[derive(Debug, Clone)]
pub struct Rga<T> {
    chunks: Vec<Chunk<T>>,
    id_idx: Option<Vec<(u64, Vec<(u64, usize)>)>>,
}

/// Every entry of the index names a chunk with that session and start time,
/// and the outer list is sorted by session without repeats.
pub open spec fn index_ok<T>(chunks: Seq<Chunk<T>>, idx: Seq<(u64, Vec<(u64, usize)>)>) -> bool {
    &&& forall|a: int, b: int| 0 <= a < b < idx.len() ==> idx[a].0 < idx[b].0
    &&& forall|k: int, e: int|
        0 <= k < idx.len() && 0 <= e < idx[k].1@.len() ==> {
            let (t, ci) = #[trigger] idx[k].1@[e];
            &&& ci < chunks.len()
            &&& chunks[ci as int].id == Ts { sid: idx[k].0, time: t }
        }
}


/// Binary search of the outer index for session `sid`: `Ok(p)` when entry
/// `p` is that session's, else `Err(p)` with `p` where it would be inserted.
fn search_sid(idx: &Vec<(u64, Vec<(u64, usize)>)>, sid: u64) -> (r: Result<usize, usize>)
    requires
        forall|a: int, b: int| 0 <= a < b < idx@.len() ==> idx@[a].0 < idx@[b].0,
    ensures
        match r {
            Ok(p) => p < idx@.len() && idx@[p as int].0 == sid,
            Err(p) => p <= idx@.len() && (forall|a: int| 0 <= a < p ==> idx@[a].0 < sid) && (
            forall|a: int| p <= a < idx@.len() ==> idx@[a].0 > sid),
        },
{
    let mut lo: usize = 0;
    let mut hi: usize = idx.len();
    while lo < hi
        invariant
            lo <= hi <= idx@.len(),
            forall|a: int, b: int| 0 <= a < b < idx@.len() ==> idx@[a].0 < idx@[b].0,
            forall|a: int| 0 <= a < lo ==> idx@[a].0 < sid,
            forall|a: int| hi <= a < idx@.len() ==> idx@[a].0 > sid,
        decreases hi - lo,
    {
        let mid = lo + (hi - lo) / 2;
        let key = idx[mid].0;
        if key == sid {
            return Ok(mid);
        } else if key < sid {
            lo = mid + 1;
        } else {
            hi = mid;
        }
    }
    Err(lo)
}

/// Bisection for the point where entries stop starting at or before `time`:
/// the entry before the result starts at or before `time` and the entry at
/// the result starts after it.
fn partition_le(per: &Vec<(u64, usize)>, time: u64) -> (p: usize)
    ensures
        p <= per@.len(),
        p > 0 ==> per@[p - 1].0 <= time,
        p < per@.len() ==> per@[p as int].0 > time,
{
    let mut lo: usize = 0;
    let mut hi: usize = per.len();
    while lo < hi
        invariant
            lo <= hi <= per@.len(),
            lo > 0 ==> per@[lo - 1].0 <= time,
            hi < per@.len() ==> per@[hi as int].0 > time,
        decreases hi - lo,
    {
        let mid = lo + (hi - lo) / 2;
        if per[mid].0 <= time {
            lo = mid + 1;
        } else {
            hi = mid;
        }
    }
    lo
}

/// Bisection for the point where entries stop starting before `time`: the
/// entry before the result starts before `time` and the entry at the result
/// starts at or after it.
fn partition_lt(per: &Vec<(u64, usize)>, time: u64) -> (p: usize)
    ensures
        p <= per@.len(),
        p > 0 ==> per@[p - 1].0 < time,
        p < per@.len() ==> per@[p as int].0 >= time,
{
    let mut lo: usize = 0;
    let mut hi: usize = per.len();
    while lo < hi
        invariant
            lo <= hi <= per@.len(),
            lo > 0 ==> per@[lo - 1].0 < time,
            hi < per@.len() ==> per@[hi as int].0 >= time,
        decreases hi - lo,
    {
        let mid = lo + (hi - lo) / 2;
        if per[mid].0 < time {
            lo = mid + 1;
        } else {
            hi = mid;
        }
    }
    lo
}

impl<T: ChunkData> View for Rga<T> {
    type V = Seq<ChunkView<T::Item>>;

    closed spec fn view(&self) -> Seq<ChunkView<T::Item>> {
        self.chunks@.map_values(|c: Chunk<T>| c.cview())
    }
}

impl<T: ChunkData> Rga<T> {
    /// Well-formedness: every chunk fits and the index, once built, is accurate
    /// and keeps each session's entries in start-time order.
    pub closed spec fn wf(&self) -> bool {
        &&& forall|i: int| 0 <= i < self.chunks@.len() ==> (#[trigger] self.chunks@[i]).fits()
        &&& (self.id_idx matches Some(idx) ==> index_ok(self.chunks@, idx@) && lists_sorted(idx@))
    }

    /// The index is built and records chunk `i` under its id.
    pub closed spec fn holds(&self, i: int) -> bool {
        &&& self.id_idx is Some
        &&& 0 <= i < self.chunks@.len()
        &&& has_entry(self.id_idx->0@, self.chunks@[i].id.sid, self.chunks@[i].id.time, i as usize)
    }

    /// When the index is built, it records every chunk.
    pub open spec fn all_held(&self) -> bool {
        self.indexed() ==> forall|i: int| 0 <= i < self@.len() ==> #[trigger] self.holds(i)
    }

    /// Whether the ID index has been built.
    pub closed spec fn indexed(&self) -> bool {
        self.id_idx is Some
    }

    /// `found` is an acceptable answer to a lookup of `ts`: a chunk that
    /// covers `ts`; where no index is built, the first such chunk, and
    /// `None` exactly when no chunk covers it.
    pub open spec fn lookup_ok(&self, ts: Ts, found: Option<usize>) -> bool {
        lookup_ok_in(self@, self.indexed(), ts, found)
    }

    pub fn new() -> (r: Self)
        ensures
            r@ == Seq::<ChunkView<T::Item>>::empty(),
            r.wf(),
            !r.indexed(),
    {
        let r = Self { chunks: Vec::new(), id_idx: None };
        assert(r@ =~= Seq::<ChunkView<T::Item>>::empty());
        r
    }

    /// The chunk at vec index `i`, as a value.
    pub closed spec fn slot_spec(&self, i: int) -> Chunk<T> {
        self.chunks@[i]
    }

    /// A well-formed sequence's chunks fit.
    pub proof fn lemma_slot_fits(&self, i: int)
        requires
            self.wf(),
            0 <= i < self@.len(),
        ensures
            self.slot_spec(i).cview() == self@[i],
            self.slot_spec(i).fits(),
    {
    }

    /// Whether the ID index has been built.
    pub fn is_indexed(&self) -> (r: bool)
        ensures
            r == self.indexed(),
    {
        self.id_idx.is_some()
    }

    /// Total chunk count (including deleted tombstones).
    pub fn chunk_count(&self) -> (r: usize)
        ensures
            r == self@.len(),
    {
        self.chunks.len()
    }

    /// The chunk at vec index `idx`.
    pub fn slot(&self, idx: usize) -> (r: &Chunk<T>)
        requires
            idx < self@.len(),
        ensures
            r.cview() == self@[idx as int],
            self.wf() ==> r.fits(),
    {
        &self.chunks[idx]
    }

    /// Mutable access to the chunk at vec index `idx`.  The sequence stays
    /// well formed when the caller keeps the chunk's id and keeps it fitting.
    pub fn slot_mut(&mut self, idx: usize) -> (r: &mut Chunk<T>)
        requires
            idx < old(self)@.len(),
        ensures
            (*r).cview() == old(self)@[idx as int],
            final(self)@ == old(self)@.update(idx as int, (*final(r)).cview()),
            final(self).indexed() == old(self).indexed(),
            old(self).wf() ==> (*r).fits(),
            old(self).wf() && (*final(r)).fits() && (*final(r)).id == (*r).id ==> final(self).wf(),
            old(self).all_held() && (*final(r)).id == (*r).id ==> final(self).all_held(),
    {
        proof {
            self.lemma_all_held();
        }
        let r = &mut self.chunks[idx];
        r
    }

    /// Last chunk in document order.
    pub fn last_chunk(&self) -> (r: Option<&Chunk<T>>)
        ensures
            match r {
                Some(c) => self@.len() > 0 && c.cview() == self@.last(),
                None => self@.len() == 0,
            },
    {
        if self.chunks.len() == 0 {
            None
        } else {
            Some(&self.chunks[self.chunks.len() - 1])
        }
    }
}


impl<T: ChunkData> Rga<T> {
    proof fn lemma_view_len(&self)
        ensures
            self@.len() == self.chunks@.len(),
    {
    }

    proof fn lemma_view_index(&self, i: int)
        requires
            0 <= i < self.chunks@.len(),
        ensures
            self@.len() == self.chunks@.len(),
            self@[i] == self.chunks@[i].cview(),
    {
    }

    proof fn lemma_all_held(&self)
        ensures
            self.all_held() <==> (self.id_idx matches Some(x) ==> records_all(x@, self.chunks@)),
    {
        if self.id_idx is Some {
            let x = self.id_idx->0;
            if self.all_held() {
                assert forall|i: int| 0 <= i < self.chunks@.len() implies #[trigger] has_entry(x@, self.chunks@[i].id.sid, self.chunks@[i].id.time, i as usize) by {
                    assert(self.holds(i));
                }
            }
            if records_all(x@, self.chunks@) {
                assert forall|i: int| 0 <= i < self@.len() implies #[trigger] self.holds(i) by {
                    assert(has_entry(x@, self.chunks@[i].id.sid, self.chunks@[i].id.time, i as usize));
                }
            }
        }
    }

    /// A lookup of `ts` in the index that stopped at session entry `pos`
    /// (none when the session has no entry) and at position `p` of its list
    /// misses only chunks that the index does not record, or that do not
    /// cover `ts`.
    proof fn lemma_held_miss(&self, ts: Ts, pos: Option<int>, p: int)
        requires
            self.wf(),
            self.id_idx is Some,
            starts_apart(self@),
            match pos {
                None => forall|a: int| 0 <= a < self.id_idx->0@.len() ==> self.id_idx->0@[a].0 != ts.sid,
                Some(q) => {
                    let idx = self.id_idx->0@;
                    &&& 0 <= q < idx.len()
                    &&& idx[q].0 == ts.sid
                    &&& 0 <= p <= idx[q].1@.len()
                    &&& (p < idx[q].1@.len() ==> idx[q].1@[p].0 > ts.time)
                    &&& (p > 0 ==> idx[q].1@[p - 1].0 <= ts.time && !covers(
                        self@[idx[q].1@[p - 1].1 as int],
                        ts,
                    ))
                },
            },
        ensures
            forall|i: int| 0 <= i < self@.len() && #[trigger] self.holds(i) ==> !covers(self@[i], ts),
            self.all_held() ==> forall|i: int| 0 <= i < self@.len() ==> !covers(#[trigger] self@[i], ts),
    {
        let idx = self.id_idx->0@;
        assert forall|i: int| 0 <= i < self@.len() && #[trigger] self.holds(i) implies !covers(self@[i], ts) by {
            self.lemma_view_index(i);
            if covers(self@[i], ts) {
                let c = self.chunks@[i];
                let (k, e) = choose|k: int, e: int|
                    0 <= k < idx.len() && 0 <= e < idx[k].1@.len() && idx[k].0 == c.id.sid
                        && #[trigger] idx[k].1@[e] == (c.id.time, i as usize);
                match pos {
                    None => {
                        assert(idx[k].0 != ts.sid);
                    },
                    Some(q) => {
                        if k != q {
                            if k < q {
                                assert(idx[k].0 < idx[q].0);
                            } else {
                                assert(idx[q].0 < idx[k].0);
                            }
                        }
                        let per = idx[q].1@;
                        if e >= p {
                            if e > p {
                                assert(per[p].0 <= per[e].0);
                            }
                        } else if e == p - 1 {
                        } else {
                            let (tl, cl) = per[p - 1];
                            assert(per[e].0 <= per[p - 1].0);
                            assert(cl < self.chunks@.len());
                            assert(self.chunks@[cl as int].id == Ts { sid: idx[q].0, time: tl });
                            self.lemma_view_index(cl as int);
                            if cl as int == i {
                            } else {
                                assert(self@[i].id.time <= self@[cl as int].id.time);
                                assert(!(self@[i].id.time <= self@[cl as int].id.time < self@[i].id.time + self@[i].span));
                            }
                        }
                    },
                }
            }
        }
        if self.all_held() {
            assert forall|i: int| 0 <= i < self@.len() implies !covers(#[trigger] self@[i], ts) by {
                assert(self.holds(i));
            }
        }
    }

    /// Find the vec index of the chunk whose ID range contains `ts`.
    pub fn find_by_id(&self, ts: Ts) -> (r: Option<usize>)
        requires
            self.wf(),
        ensures
            self.lookup_ok(ts, r),
            self.indexed() && starts_apart(self@) && r is None ==> forall|i: int|
                0 <= i < self@.len() && #[trigger] self.holds(i) ==> !covers(self@[i], ts),
            self.all_held() && starts_apart(self@) ==> (r is None <==> forall|i: int|
                0 <= i < self@.len() ==> !covers(#[trigger] self@[i], ts)),
            self.all_held() && starts_apart(self@) ==> lookup_ok_in(self@, false, ts, r),
    {
        if let Some(idx) = &self.id_idx {
            let pos = match search_sid(idx, ts.sid) {
                Ok(p) => p,
                Err(_) => {
                    proof {
                        if starts_apart(self@) {
                            self.lemma_held_miss(ts, None, 0);
                        }
                    }
                    return None;
                },
            };
            let per = &idx[pos].1;
            let p = partition_le(per, ts.time);
            if p == 0 {
                proof {
                    if starts_apart(self@) {
                        self.lemma_held_miss(ts, Some(pos as int), 0);
                    }
                }
                return None;
            }
            let (_, chunk_idx) = per[p - 1];
            assert(index_ok(self.chunks@, idx@));
            assert(chunk_idx < self.chunks@.len());
            let chunk = &self.chunks[chunk_idx];
            assert(self.chunks@[chunk_idx as int].fits());
            proof {
                self.lemma_view_index(chunk_idx as int);
            }
            if chunk.id.time + chunk.span > ts.time {
                proof {
                    if starts_apart(self@) {
                        assert forall|j: int| 0 <= j < chunk_idx implies !covers(#[trigger] self@[j], ts) by {
                            if covers(self@[j], ts) {
                                lemma_one_cover(self@, ts, j, chunk_idx as int);
                            }
                        }
                    }
                }
                return Some(chunk_idx);
            }
            proof {
                if starts_apart(self@) {
                    self.lemma_held_miss(ts, Some(pos as int), p as int);
                }
            }
            return None;
        }
        let mut i: usize = 0;
        while i < self.chunks.len()
            invariant
                self.wf(),
                self.id_idx is None,
                i <= self.chunks@.len(),
                self@.len() == self.chunks@.len(),
                forall|j: int| 0 <= j < i ==> !covers(#[trigger] self@[j], ts),
            decreases self.chunks@.len() - i,
        {
            let chunk = &self.chunks[i];
            assert(self.chunks@[i as int].fits());
            proof {
                self.lemma_view_index(i as int);
            }
            if chunk.id.sid == ts.sid && chunk.id.time <= ts.time && chunk.id.time + chunk.span
                > ts.time {
                return Some(i);
            }
            i = i + 1;
        }
        None
    }
}


/// The index records start time `t` at chunk position `c` under session `s`.
pub open spec fn has_entry(idx: Seq<(u64, Vec<(u64, usize)>)>, s: u64, t: u64, c: usize) -> bool {
    exists|k: int, e: int|
        0 <= k < idx.len() && 0 <= e < idx[k].1@.len() && idx[k].0 == s && #[trigger] idx[k].1@[e]
            == (t, c)
}

/// Each session's list of the index is in start-time order.
pub open spec fn lists_sorted(idx: Seq<(u64, Vec<(u64, usize)>)>) -> bool {
    forall|k: int, a: int, b: int|
        0 <= k < idx.len() && 0 <= a < b < idx[k].1@.len() ==> #[trigger] idx[k].1@[a].0
            <= #[trigger] idx[k].1@[b].0
}

/// The index records every chunk of `chunks` under its id.
pub open spec fn records_all<T>(idx: Seq<(u64, Vec<(u64, usize)>)>, chunks: Seq<Chunk<T>>) -> bool {
    forall|i: int| 0 <= i < chunks.len() ==> #[trigger] has_entry(idx, chunks[i].id.sid, chunks[i].id.time, i as usize)
}

/// Records `(time, ci)` under session `sid`, appending to that session's
/// list, or adding the session at its sorted place.
fn index_add<T>(
    idx: &mut Vec<(u64, Vec<(u64, usize)>)>,
    sid: u64,
    time: u64,
    ci: usize,
    Ghost(chunks): Ghost<Seq<Chunk<T>>>,
    sorted: bool,
)
    requires
        index_ok(chunks, old(idx)@),
        ci < chunks.len(),
        chunks[ci as int].id == (Ts { sid, time }),
    ensures
        index_ok(chunks, final(idx)@),
        forall|s: u64, t: u64, c: usize|
            #[trigger] has_entry(final(idx)@, s, t, c) <==> has_entry(old(idx)@, s, t, c) || (s
                == sid && t == time && c == ci),
        sorted && lists_sorted(old(idx)@) ==> lists_sorted(final(idx)@),
{
    match search_sid(idx, sid) {
        Ok(pos) => {
            let mut entry = idx.remove(pos);
            let ghost old_list = entry.1@;
            let ghost mut at_g: int = 0;
            if sorted {
                let at = partition_lt(&entry.1, time);
                entry.1.insert(at, (time, ci));
                proof {
                    at_g = at as int;
                    assert forall|e: int| 0 <= e < entry.1@.len() implies ({
                        let (t, c) = #[trigger] entry.1@[e];
                        c < chunks.len() && chunks[c as int].id == Ts { sid: entry.0, time: t }
                    }) by {
                        if e < at {
                            assert(entry.1@[e] == old_list[e]);
                        } else if e > at {
                            assert(entry.1@[e] == old_list[e - 1]);
                        }
                    }
                }
            } else {
                entry.1.push((time, ci));
                proof {
                    at_g = old_list.len() as int;
                    assert(entry.1@ =~= old_list.insert(at_g, (time, ci)));
                    assert forall|e: int| 0 <= e < entry.1@.len() implies ({
                        let (t, c) = #[trigger] entry.1@[e];
                        c < chunks.len() && chunks[c as int].id == Ts { sid: entry.0, time: t }
                    }) by {
                        if e < old_list.len() {
                            assert(entry.1@[e] == old_list[e]);
                        }
                    }
                }
            }
            let ghost mid = idx@;
            idx.insert(pos, entry);
            proof {
                assert forall|k: int, e: int|
                    0 <= k < idx@.len() && 0 <= e < idx@[k].1@.len() implies ({
                        let (t, c) = #[trigger] idx@[k].1@[e];
                        &&& c < chunks.len()
                        &&& chunks[c as int].id == Ts { sid: idx@[k].0, time: t }
                    }) by {
                    if k < pos {
                        assert(idx@[k] == old(idx)@[k]);
                    } else if k > pos {
                        assert(idx@[k] == old(idx)@[k]);
                    }
                }
                assert forall|a: int, b: int| 0 <= a < b < idx@.len() implies idx@[a].0 < idx@[b].0 by {
                    assert(idx@[a].0 == old(idx)@[a].0);
                    assert(idx@[b].0 == old(idx)@[b].0);
                }
                assert(entry.1@ =~= old_list.insert(at_g, (time, ci)));
                assert(old_list == old(idx)@[pos as int].1@);
                assert(idx@[pos as int] == entry);
                assert forall|s: u64, t: u64, c: usize|
                    #[trigger] has_entry(idx@, s, t, c) <==> has_entry(old(idx)@, s, t, c) || (s
                        == sid && t == time && c == ci) by {
                    if has_entry(idx@, s, t, c) {
                        let (k, e) = choose|k: int, e: int|
                            0 <= k < idx@.len() && 0 <= e < idx@[k].1@.len() && idx@[k].0 == s
                                && #[trigger] idx@[k].1@[e] == (t, c);
                        if k != pos {
                            assert(old(idx)@[k] == idx@[k]);
                            assert(old(idx)@[k].1@[e] == (t, c));
                        } else if e < at_g {
                            assert(old(idx)@[k].1@[e] == (t, c));
                        } else if e > at_g {
                            assert(old(idx)@[k].1@[e - 1] == (t, c));
                        }
                    }
                    if has_entry(old(idx)@, s, t, c) {
                        let (k, e) = choose|k: int, e: int|
                            0 <= k < old(idx)@.len() && 0 <= e < old(idx)@[k].1@.len() && old(
                                idx,
                            )@[k].0 == s && #[trigger] old(idx)@[k].1@[e] == (t, c);
                        if k != pos {
                            assert(old(idx)@[k] == idx@[k]);
                            assert(idx@[k].1@[e] == (t, c));
                        } else if e < at_g {
                            assert(idx@[k].1@[e] == (t, c));
                        } else {
                            assert(idx@[k].1@[e + 1] == (t, c));
                        }
                    }
                    if s == sid && t == time && c == ci {
                        assert(idx@[pos as int].1@[at_g] == (t, c));
                    }
                }
            }
        },
        Err(ins) => {
            let mut list: Vec<(u64, usize)> = Vec::new();
            list.push((time, ci));
            idx.insert(ins, (sid, list));
            proof {
                assert forall|k: int, e: int|
                    0 <= k < idx@.len() && 0 <= e < idx@[k].1@.len() implies ({
                        let (t, c) = #[trigger] idx@[k].1@[e];
                        &&& c < chunks.len()
                        &&& chunks[c as int].id == Ts { sid: idx@[k].0, time: t }
                    }) by {
                    if k < ins {
                        assert(idx@[k] == old(idx)@[k]);
                    } else if k > ins {
                        assert(idx@[k] == old(idx)@[k - 1]);
                    }
                }
                assert forall|a: int, b: int| 0 <= a < b < idx@.len() implies idx@[a].0 < idx@[b].0 by {
                    if a < ins {
                        assert(idx@[a] == old(idx)@[a]);
                    } else if a > ins {
                        assert(idx@[a] == old(idx)@[a - 1]);
                    }
                    if b < ins {
                        assert(idx@[b] == old(idx)@[b]);
                    } else if b > ins {
                        assert(idx@[b] == old(idx)@[b - 1]);
                    }
                }
                assert forall|s: u64, t: u64, c: usize|
                    #[trigger] has_entry(idx@, s, t, c) <==> has_entry(old(idx)@, s, t, c) || (s
                        == sid && t == time && c == ci) by {
                    if has_entry(idx@, s, t, c) {
                        let (k, e) = choose|k: int, e: int|
                            0 <= k < idx@.len() && 0 <= e < idx@[k].1@.len() && idx@[k].0 == s
                                && #[trigger] idx@[k].1@[e] == (t, c);
                        if k < ins {
                            assert(old(idx)@[k] == idx@[k]);
                            assert(old(idx)@[k].1@[e] == (t, c));
                        } else if k > ins {
                            assert(old(idx)@[k - 1] == idx@[k]);
                            assert(old(idx)@[k - 1].1@[e] == (t, c));
                        }
                    }
                    if has_entry(old(idx)@, s, t, c) {
                        let (k, e) = choose|k: int, e: int|
                            0 <= k < old(idx)@.len() && 0 <= e < old(idx)@[k].1@.len() && old(
                                idx,
                            )@[k].0 == s && #[trigger] old(idx)@[k].1@[e] == (t, c);
                        if k < ins {
                            assert(idx@[k] == old(idx)@[k]);
                            assert(idx@[k].1@[e] == (t, c));
                        } else {
                            assert(idx@[k + 1] == old(idx)@[k]);
                            assert(idx@[k + 1].1@[e] == (t, c));
                        }
                    }
                    if s == sid && t == time && c == ci {
                        assert(idx@[ins as int].1@[0] == (t, c));
                    }
                }
            }
        },
    }
}

/// An index entry with its chunk position moved up by one when at or after
/// `from`.
pub open spec fn shifted_entry(en: (u64, usize), from: usize) -> (u64, usize) {
    (en.0, if en.1 >= from { (en.1 + 1) as usize } else { en.1 })
}

/// Shifts every chunk position at or after `from` up by one, for a chunk
/// inserted at `from` into `old_chunks` giving `chunks`.
fn index_shift<T>(
    idx: &Vec<(u64, Vec<(u64, usize)>)>,
    from: usize,
    Ghost(old_chunks): Ghost<Seq<Chunk<T>>>,
    Ghost(chunks): Ghost<Seq<Chunk<T>>>,
) -> (r: Vec<(u64, Vec<(u64, usize)>)>)
    requires
        index_ok(old_chunks, idx@),
        from <= old_chunks.len(),
        chunks.len() == old_chunks.len() + 1,
        chunks.len() <= usize::MAX,
        forall|i: int| 0 <= i < from ==> chunks[i].id == old_chunks[i].id,
        forall|i: int| from <= i < old_chunks.len() ==> chunks[i + 1].id == old_chunks[i].id,
    ensures
        index_ok(chunks, r@),
        r@.len() == idx@.len(),
        forall|k: int|
            0 <= k < r@.len() ==> (#[trigger] r@[k]).0 == idx@[k].0 && r@[k].1@.len()
                == idx@[k].1@.len(),
        forall|k: int, e: int|
            0 <= k < r@.len() && 0 <= e < r@[k].1@.len() ==> #[trigger] r@[k].1@[e]
                == shifted_entry(idx@[k].1@[e], from),
{
    let mut out: Vec<(u64, Vec<(u64, usize)>)> = Vec::new();
    let mut k: usize = 0;
    while k < idx.len()
        invariant
            k <= idx@.len(),
            out@.len() == k,
            index_ok(old_chunks, idx@),
            forall|a: int| 0 <= a < k ==> (#[trigger] out@[a]).0 == idx@[a].0,
            forall|a: int| 0 <= a < k ==> (#[trigger] out@[a]).1@.len() == idx@[a].1@.len(),
            forall|a: int, x: int|
                0 <= a < k && 0 <= x < out@[a].1@.len() ==> #[trigger] out@[a].1@[x]
                    == shifted_entry(idx@[a].1@[x], from),
            index_ok(chunks, out@),
            from <= old_chunks.len(),
            chunks.len() == old_chunks.len() + 1,
            chunks.len() <= usize::MAX,
            forall|i: int| 0 <= i < from ==> chunks[i].id == old_chunks[i].id,
            forall|i: int| from <= i < old_chunks.len() ==> chunks[i + 1].id == old_chunks[i].id,
        decreases idx@.len() - k,
    {
        let per = &idx[k].1;
        let mut list: Vec<(u64, usize)> = Vec::new();
        let mut e: usize = 0;
        while e < per.len()
            invariant
                k < idx@.len(),
                per == &idx@[k as int].1,
                e <= per@.len(),
                list@.len() == e,
                index_ok(old_chunks, idx@),
                forall|x: int| 0 <= x < e ==> #[trigger] list@[x] == shifted_entry(per@[x], from),
                forall|x: int| 0 <= x < e ==> {
                    let (t, c) = #[trigger] list@[x];
                    c < chunks.len() && chunks[c as int].id == Ts { sid: idx@[k as int].0, time: t }
                },
                from <= old_chunks.len(),
                chunks.len() == old_chunks.len() + 1,
                chunks.len() <= usize::MAX,
                forall|i: int| 0 <= i < from ==> chunks[i].id == old_chunks[i].id,
                forall|i: int| from <= i < old_chunks.len() ==> chunks[i + 1].id == old_chunks[i].id,
            decreases per@.len() - e,
        {
            let (t, c) = per[e];
            assert(idx@[k as int].1@[e as int] == (t, c));
            assert(c < old_chunks.len());
            let c2 = if c >= from { c + 1 } else { c };
            list.push((t, c2));
            e = e + 1;
        }
        let ghost before = out@;
        out.push((idx[k].0, list));
        proof {
            assert forall|a: int, b: int| 0 <= a < b < out@.len() implies out@[a].0 < out@[b].0 by {
                assert(out@[a].0 == idx@[a].0);
                assert(out@[b].0 == idx@[b].0);
            }
            assert forall|kk: int, e: int|
                0 <= kk < out@.len() && 0 <= e < out@[kk].1@.len() implies ({
                    let (t, c) = #[trigger] out@[kk].1@[e];
                    &&& c < chunks.len()
                    &&& chunks[c as int].id == Ts { sid: out@[kk].0, time: t }
                }) by {
                if kk < k {
                    assert(out@[kk] == before[kk]);
                }
            }
            assert forall|a: int, x: int|
                0 <= a < out@.len() && 0 <= x < out@[a].1@.len() implies #[trigger] out@[a].1@[x]
                    == shifted_entry(idx@[a].1@[x], from) by {
                if a < k {
                    assert(out@[a] == before[a]);
                }
            }
        }
        k = k + 1;
    }
    out
}

impl<T: ChunkData> Rga<T> {
    proof fn lemma_view_insert(&self, old_chunks: Seq<Chunk<T>>, i: int, c: Chunk<T>)
        requires
            self.chunks@ == old_chunks.insert(i, c),
            0 <= i <= old_chunks.len(),
        ensures
            self@ == old_chunks.map_values(|c: Chunk<T>| c.cview()).insert(i, c.cview()),
    {
        assert(self@ =~= old_chunks.map_values(|c: Chunk<T>| c.cview()).insert(i, c.cview()));
    }

    /// Build the full ID index from the current chunks.
    fn build_index(&mut self)
        requires
            old(self).wf(),
        ensures
            final(self).wf(),
            final(self).indexed(),
            final(self).all_held(),
            final(self).chunks@ == old(self).chunks@,
    {
        let mut idx: Vec<(u64, Vec<(u64, usize)>)> = Vec::new();
        let mut chunk_pos: usize = 0;
        while chunk_pos < self.chunks.len()
            invariant
                chunk_pos <= self.chunks@.len(),
                index_ok(self.chunks@, idx@),
                lists_sorted(idx@),
                forall|i: int| 0 <= i < chunk_pos ==> #[trigger] has_entry(idx@, self.chunks@[i].id.sid, self.chunks@[i].id.time, i as usize),
                self.chunks@ == old(self).chunks@,
                self.id_idx == old(self).id_idx,
            decreases self.chunks@.len() - chunk_pos,
        {
            let sid = self.chunks[chunk_pos].id.sid;
            let start = self.chunks[chunk_pos].id.time;
            let ghost before = idx@;
            index_add::<T>(&mut idx, sid, start, chunk_pos, Ghost(self.chunks@), true);
            proof {
                assert forall|i: int| 0 <= i < chunk_pos + 1 implies #[trigger] has_entry(idx@, self.chunks@[i].id.sid, self.chunks@[i].id.time, i as usize) by {
                    if i < chunk_pos {
                        assert(has_entry(before, self.chunks@[i].id.sid, self.chunks@[i].id.time, i as usize));
                    }
                }
            }
            chunk_pos = chunk_pos + 1;
        }
        self.id_idx = Some(idx);
    }

    /// Build the index if it hasn't been built yet and the chunk count has
    /// exceeded the threshold.
    fn maybe_build_index(&mut self)
        requires
            old(self).wf(),
        ensures
            final(self).wf(),
            final(self).chunks@ == old(self).chunks@,
            final(self).indexed() == (old(self).indexed() || old(self).chunks@.len() > IDX_THRESHOLD),
            final(self).indexed() && !old(self).indexed() ==> final(self).all_held(),
            old(self).indexed() ==> *final(self) == *old(self),
    {
        if self.id_idx.is_none() && self.chunks.len() > IDX_THRESHOLD {
            self.build_index();
        }
    }
}


impl<T: ChunkData> Rga<T> {
    /// Records in the index, if built, the chunk appended at `chunk_idx`
    /// (the end of the sequence).
    fn idx_append(
        &mut self,
        sid: u64,
        start_time: u64,
        chunk_idx: usize,
        Ghost(old_chunks): Ghost<Seq<Chunk<T>>>,
    )
        requires
            chunk_idx == old_chunks.len(),
            old(self).chunks@.len() == old_chunks.len() + 1,
            forall|i: int| 0 <= i < chunk_idx ==> old(self).chunks@[i].id == old_chunks[i].id,
            old(self).chunks@[chunk_idx as int].id == (Ts { sid, time: start_time }),
            old(self).chunks@.len() <= usize::MAX,
            forall|i: int| 0 <= i < old(self).chunks@.len() ==> (#[trigger] old(self).chunks@[i]).fits(),
            old(self).id_idx matches Some(idx) ==> index_ok(old_chunks, idx@) && lists_sorted(idx@),
        ensures
            final(self).wf(),
            final(self).chunks@ == old(self).chunks@,
            final(self).indexed() == old(self).indexed(),
            final(self).id_idx matches Some(n) ==> old(self).id_idx matches Some(o) && forall|
                s: u64,
                t: u64,
                c: usize,
            |
                #[trigger] has_entry(n@, s, t, c) <==> has_entry(o@, s, t, c) || (s == sid && t
                    == start_time && c == chunk_idx),
            (old(self).id_idx matches Some(o) ==> records_all(o@, old_chunks)) ==> (
                final(self).id_idx matches Some(n) ==> records_all(n@, final(self).chunks@)),
    {
        let taken = self.id_idx.take();
        match taken {
            None => {},
            Some(idx) => {
                let mut idx = idx;
                proof {
                    assert forall|k: int, e: int|
                        0 <= k < idx@.len() && 0 <= e < idx@[k].1@.len() implies {
                        let (t, ci) = #[trigger] idx@[k].1@[e];
                        &&& ci < self.chunks@.len()
                        &&& self.chunks@[ci as int].id == Ts { sid: idx@[k].0, time: t }
                    } by {
                        let (t, ci) = idx@[k].1@[e];
                        assert(ci < old_chunks.len());
                    }
                }
                let ghost o = idx@;
                index_add::<T>(&mut idx, sid, start_time, chunk_idx, Ghost(self.chunks@), true);
                proof {
                    if records_all(o, old_chunks) {
                        assert forall|i: int| 0 <= i < self.chunks@.len() implies #[trigger] has_entry(idx@, self.chunks@[i].id.sid, self.chunks@[i].id.time, i as usize) by {
                            if i < chunk_idx {
                                assert(has_entry(o, old_chunks[i].id.sid, old_chunks[i].id.time, i as usize));
                            }
                        }
                    }
                }
                self.id_idx = Some(idx);
            },
        }
    }

    /// Records in the index, if built, the chunk inserted at `chunk_idx`:
    /// entries of the chunks after it move up by one, and the new entry goes
    /// in start-time order among its session's.
    fn idx_insert_sorted(
        &mut self,
        sid: u64,
        start_time: u64,
        chunk_idx: usize,
        Ghost(old_chunks): Ghost<Seq<Chunk<T>>>,
    )
        requires
            chunk_idx <= old_chunks.len(),
            old(self).chunks@.len() == old_chunks.len() + 1,
            forall|i: int| 0 <= i < chunk_idx ==> old(self).chunks@[i].id == old_chunks[i].id,
            forall|i: int| chunk_idx <= i < old_chunks.len() ==> old(self).chunks@[i + 1].id == old_chunks[i].id,
            old(self).chunks@[chunk_idx as int].id == (Ts { sid, time: start_time }),
            old(self).chunks@.len() <= usize::MAX,
            forall|i: int| 0 <= i < old(self).chunks@.len() ==> (#[trigger] old(self).chunks@[i]).fits(),
            old(self).id_idx matches Some(idx) ==> index_ok(old_chunks, idx@) && lists_sorted(idx@),
        ensures
            final(self).wf(),
            final(self).chunks@ == old(self).chunks@,
            final(self).indexed() == old(self).indexed(),
            (old(self).id_idx matches Some(o) ==> records_all(o@, old_chunks)) ==> (
                final(self).id_idx matches Some(n) ==> records_all(n@, final(self).chunks@)),
    {
        let taken = self.id_idx.take();
        match taken {
            None => {},
            Some(idx) => {
                let mut shifted = index_shift::<T>(&idx, chunk_idx, Ghost(old_chunks), Ghost(self.chunks@));
                let ghost sh = shifted@;
                index_add::<T>(&mut shifted, sid, start_time, chunk_idx, Ghost(self.chunks@), true);
                proof {
                    if records_all(idx@, old_chunks) {
                        assert forall|i: int| 0 <= i < self.chunks@.len() implies #[trigger] has_entry(shifted@, self.chunks@[i].id.sid, self.chunks@[i].id.time, i as usize) by {
                            if i != chunk_idx {
                                let j = if i < chunk_idx { i } else { i - 1 };
                                assert(has_entry(idx@, old_chunks[j].id.sid, old_chunks[j].id.time, j as usize));
                                let (k, e) = choose|k: int, e: int|
                                    0 <= k < idx@.len() && 0 <= e < idx@[k].1@.len() && idx@[k].0 == old_chunks[j].id.sid
                                        && #[trigger] idx@[k].1@[e] == (old_chunks[j].id.time, j as usize);
                                assert(sh[k].1@[e] == shifted_entry(idx@[k].1@[e], chunk_idx));
                                assert(sh[k].0 == idx@[k].0);
                                assert(has_entry(sh, self.chunks@[i].id.sid, self.chunks@[i].id.time, i as usize));
                            }
                        }
                    }
                }
                self.id_idx = Some(shifted);
            },
        }
    }

    /// Split the chunk at `chunk_idx` at logical offset `at_offset`.
    fn split_chunk_at(&mut self, chunk_idx: usize, at_offset: u64)
        requires
            old(self).wf(),
            chunk_idx < old(self)@.len(),
        ensures
            final(self).wf(),
            final(self).indexed() == old(self).indexed(),
            if at_offset == 0 || at_offset >= old(self)@[chunk_idx as int].span {
                final(self)@ == old(self)@
            } else {
                final(self)@ == split_at_view(old(self)@, chunk_idx as int, at_offset as nat)
            },
            old(self).all_held() ==> final(self).all_held(),
    {
        proof {
            self.lemma_view_index(chunk_idx as int);
            self.lemma_all_held();
        }
        if at_offset == 0 {
            return;
        }
        let _ = self.chunks.len();
        let span = self.chunks[chunk_idx].span;
        if at_offset >= span {
            return;
        }
        let ghost old_chunks = self.chunks@;
        let ghost old_view = self@;
        assert(old_chunks[chunk_idx as int].fits());
        let Chunk { id, span, deleted, data } = self.chunks.remove(chunk_idx);
        let (left_data, right_data) = match data {
            Some(d) => {
                let mut d = d;
                proof {
                    d.lemma_splits_bound(span as nat);
                    d.lemma_splits_mono(at_offset as nat, span as nat);
                }
                let r = d.split_at_offset(at_offset as usize);
                assert(r.splits_up_to((span - at_offset) as nat));
                (Some(d), Some(r))
            },
            None => (None, None),
        };
        let left = Chunk { id, span: at_offset, deleted, data: left_data };
        let right_start = id.time + at_offset;
        let right_span = span - at_offset;
        let right = match (deleted, right_data) {
            (false, Some(d)) => Chunk::new(Ts::new(id.sid, right_start), right_span, d),
            _ => Chunk::new_deleted(Ts::new(id.sid, right_start), right_span),
        };
        let ghost (l, r) = split_view(old_view[chunk_idx as int], at_offset as nat);
        assert(left.cview() == l);
        assert(right.cview() == r);
        self.chunks.insert(chunk_idx, left);
        let ghost mid_chunks = self.chunks@;
        self.chunks.insert(chunk_idx + 1, right);
        let _ = self.chunks.len();
        proof {
            assert(self.chunks@ =~= old_chunks.take(chunk_idx as int) + seq![left, right]
                + old_chunks.skip(chunk_idx + 1));
            assert(self@ =~= split_at_view(old_view, chunk_idx as int, at_offset as nat));
            assert forall|i: int| 0 <= i < self.chunks@.len() implies (#[trigger] self.chunks@[i]).fits() by {
                if i < chunk_idx {
                    assert(self.chunks@[i] == old_chunks[i]);
                } else if i > chunk_idx + 1 {
                    assert(self.chunks@[i] == old_chunks[i - 1]);
                }
            }
        }
        self.idx_insert_sorted(id.sid, right_start, chunk_idx + 1, Ghost(old_chunks));
        proof {
            self.lemma_all_held();
        }
    }
}


impl<T: ChunkData> Rga<T> {
    /// Insert `data` with timestamp `id` (and `span` items) after the item
    /// identified by `after`; at the beginning when `after` is the origin
    /// `(0, 0)`.  When `after` is in the middle of a chunk, the chunk is split
    /// so that the insertion lands right after it; concurrent inserts at the
    /// same place are ordered newest first.
    #[verifier::rlimit(60)]
    pub fn insert(&mut self, after: Ts, id: Ts, span: u64, data: T)
        requires
            old(self).wf(),
            id.time + span <= u64::MAX,
            data.splits_up_to(span as nat),
        ensures
            final(self).wf(),
            final(self).indexed() == (old(self).indexed() || old(self)@.len() > IDX_THRESHOLD),
            exists|found: Option<usize>|
                #![trigger insert_view(old(self)@, after, found, id, span as nat, data.items())]
                (after.sid == 0 && after.time == 0 || lookup_ok_in(
                    old(self)@,
                    final(self).indexed(),
                    after,
                    found,
                )) && final(self)@ == insert_view(old(self)@, after, found, id, span as nat, data.items()),
            old(self).all_held() ==> final(self).all_held(),
            old(self).all_held() && starts_apart(old(self)@) ==> exists|found: Option<usize>|
                #![trigger insert_view(old(self)@, after, found, id, span as nat, data.items())]
                (after.sid == 0 && after.time == 0 || lookup_ok_in(old(self)@, false, after, found))
                    && final(self)@ == insert_view(old(self)@, after, found, id, span as nat, data.items()),
    {
        self.maybe_build_index();
        let ghost v0 = self@;
        let ghost mut found: Option<usize> = None;
        let insert_pos: usize = if after.sid == 0 && after.time == 0 {
            0
        } else {
            let f = self.find_by_id(after);
            let _ = self.chunks.len();
            proof {
                found = f;
            }
            match f {
                Some(idx) => {
                    proof {
                        self.lemma_view_index(idx as int);
                    }
                    let chunk_start = self.chunks[idx].id.time;
                    let chunk_last = chunk_start + self.chunks[idx].span - 1;
                    if after.time < chunk_last {
                        let split_at = after.time - chunk_start + 1;
                        self.split_chunk_at(idx, split_at);
                    }
                    idx + 1
                },
                None => self.chunks.len(),
            }
        };
        let ghost v1 = self@;
        proof {
            assert(v1.len() == self.chunks@.len());
        }
        let mut pos = insert_pos;
        while pos < self.chunks.len() && compare(self.chunks[pos].id, id) > 0
            invariant
                self.wf(),
                self@ == v1,
                insert_pos <= pos <= self.chunks@.len(),
                self@.len() == self.chunks@.len(),
                skip_newer(v1, pos as int, id) == skip_newer(v1, insert_pos as int, id),
            decreases self.chunks@.len() - pos,
        {
            proof {
                self.lemma_view_index(pos as int);
            }
            pos = pos + 1;
        }
        proof {
            if pos < self.chunks@.len() {
                self.lemma_view_index(pos as int);
            }
            assert(skip_newer(v1, pos as int, id) == pos);
        }
        let new_chunk = Chunk::new(id, span, data);
        let ghost old_chunks = self.chunks@;
        proof {
            self.lemma_all_held();
        }
        let appended = pos == self.chunks.len();
        if appended {
            self.chunks.push(new_chunk);
        } else {
            self.chunks.insert(pos, new_chunk);
        }
        let _ = self.chunks.len();
        proof {
            assert(self.chunks@ == old_chunks.insert(pos as int, new_chunk));
            self.lemma_view_insert(old_chunks, pos as int, new_chunk);
            assert forall|i: int| 0 <= i < self.chunks@.len() implies (#[trigger] self.chunks@[i]).fits() by {
                if i < pos {
                    assert(self.chunks@[i] == old_chunks[i]);
                } else if i > pos {
                    assert(self.chunks@[i] == old_chunks[i - 1]);
                }
            }
        }
        if appended {
            self.idx_append(id.sid, id.time, pos, Ghost(old_chunks));
        } else {
            self.idx_insert_sorted(id.sid, id.time, pos, Ghost(old_chunks));
        }
        proof {
            self.lemma_all_held();
            assert(after.sid == 0 && after.time == 0 || lookup_ok_in(v0, self.indexed(), after, found));
            assert(self@ == insert_view(v0, after, found, id, span as nat, data.items()));
            assert(v0 =~= old(self)@);
            assert((after.sid == 0 && after.time == 0 || lookup_ok_in(old(self)@, self.indexed(), after, found))
                && self@ == insert_view(old(self)@, after, found, id, span as nat, data.items()));
        }
    }

    /// Append a pre-built chunk at the document-order tail, without touching
    /// the index.
    pub fn push_chunk(&mut self, chunk: Chunk<T>)
        requires
            old(self).wf(),
            chunk.fits(),
        ensures
            final(self).wf(),
            final(self).indexed() == old(self).indexed(),
            final(self)@ == old(self)@.push(chunk.cview()),
    {
        let ghost old_chunks = self.chunks@;
        self.chunks.push(chunk);
        proof {
            assert(self@ =~= old(self)@.push(chunk.cview()));
            assert forall|i: int| 0 <= i < self.chunks@.len() implies (#[trigger] self.chunks@[i]).fits() by {
                if i < old_chunks.len() {
                    assert(self.chunks@[i] == old_chunks[i]);
                }
            }
        }
    }
}


/// Whether a chunk lies outside the items `ds .. de` of session `sid`.
pub open spec fn misses<I>(c: ChunkView<I>, sid: u64, ds: nat, de: nat) -> bool {
    c.id.sid != sid || c.id.time >= de || c.id.time + c.span <= ds
}

impl<T: ChunkData> Rga<T> {
    proof fn lemma_delete_span_step(v: Seq<ChunkView<T::Item>>, j: int, sid: u64, ds: nat, de: nat)
        requires
            0 <= j < v.len(),
        ensures
            delete_span_view(v.take(j + 1), sid, ds, de) == delete_span_view(v.take(j), sid, ds, de)
                + delete_in_chunk(v[j], sid, ds, de),
    {
        assert(v.take(j + 1).drop_last() =~= v.take(j));
    }

    /// Marks the chunk at `i` deleted, dropping its content.
    fn mark_deleted(&mut self, i: usize)
        requires
            old(self).wf(),
            i < old(self)@.len(),
        ensures
            final(self).wf(),
            final(self).indexed() == old(self).indexed(),
            final(self)@ == old(self)@.update(
                i as int,
                ChunkView {
                    id: old(self)@[i as int].id,
                    span: old(self)@[i as int].span,
                    deleted: true,
                    items: None,
                },
            ),
            old(self).all_held() ==> final(self).all_held(),
    {
        proof {
            self.lemma_view_index(i as int);
            self.lemma_all_held();
        }
        let ghost old_chunks = self.chunks@;
        let id = self.chunks[i].id;
        let span = self.chunks[i].span;
        let nc: Chunk<T> = Chunk { id, span, deleted: true, data: None };
        self.chunks.set(i, nc);
        proof {
            assert(self@ =~= old(self)@.update(
                i as int,
                ChunkView { id, span: span as nat, deleted: true, items: None },
            ));
            assert forall|k: int| 0 <= k < self.chunks@.len() implies (#[trigger] self.chunks@[k]).fits() by {
                if k != i {
                    assert(self.chunks@[k] == old_chunks[k]);
                } else {
                    assert(old_chunks[k].fits());
                }
            }
            if let Some(idx) = &self.id_idx {
                assert forall|k: int, e: int|
                    0 <= k < idx@.len() && 0 <= e < idx@[k].1@.len() implies ({
                        let (t, c) = #[trigger] idx@[k].1@[e];
                        &&& c < self.chunks@.len()
                        &&& self.chunks@[c as int].id == Ts { sid: idx@[k].0, time: t }
                    }) by {
                    let (t, c) = idx@[k].1@[e];
                    assert(old_chunks[c as int].id == self.chunks@[c as int].id);
                }
                if records_all(idx@, old_chunks) {
                    assert forall|k: int| 0 <= k < self.chunks@.len() implies #[trigger] has_entry(idx@, self.chunks@[k].id.sid, self.chunks@[k].id.time, k as usize) by {
                        assert(has_entry(idx@, old_chunks[k].id.sid, old_chunks[k].id.time, k as usize));
                    }
                }
            }
            self.lemma_all_held();
        }
    }

    /// Replaces the chunk `c` at `i`, which overlaps the items `ds .. de` of
    /// session `sid`, by its untouched prefix and suffix and its deleted
    /// middle; returns the position right after the middle.
    #[verifier::rlimit(50)]
    fn delete_in_place(&mut self, i: usize, sid: u64, ds: u64, de: u64) -> (next: usize)
        requires
            old(self).wf(),
            i < old(self)@.len(),
            ds < de,
            !misses(old(self)@[i as int], sid, ds as nat, de as nat),
        ensures
            final(self).wf(),
            final(self).indexed() == old(self).indexed(),
            ({
                let d = delete_in_chunk(old(self)@[i as int], sid, ds as nat, de as nat);
                &&& final(self)@ == old(self)@.take(i as int) + d + old(self)@.skip(i + 1)
                &&& i < next <= i + d.len()
                &&& forall|k: int| next - i <= k < d.len() ==> misses(#[trigger] d[k], sid, ds as nat, de as nat)
            }),
            old(self).all_held() ==> final(self).all_held(),
    {
        let ghost v = self@;
        let ghost c = v[i as int];
        proof {
            self.lemma_view_index(i as int);
            assert(self.chunks@[i as int].fits());
        }
        let _ = self.chunks.len();
        let mut i = i;
        let cs = self.chunks[i].id.time;
        let ce = cs + self.chunks[i].span;
        let os = if ds > cs { ds } else { cs };
        let oe = if de < ce { de } else { ce };
        let ghost (pre, mid0) = if os > cs {
            let (l, r) = split_view(c, (os - cs) as nat);
            (seq![l], r)
        } else {
            (Seq::<ChunkView<T::Item>>::empty(), c)
        };
        if os > cs {
            self.split_chunk_at(i, os - cs);
            i = i + 1;
        }
        let ghost i0 = i;
        proof {
            assert(self@ =~= v.take(i - pre.len()) + pre + seq![mid0] + v.skip(i - pre.len() + 1));
            assert(self@[i as int] == mid0);
            self.lemma_view_index(i as int);
            assert(self.chunks@[i as int].fits());
            assert(mid0.id.time == os);
        }
        let ms = self.chunks[i].id.time;
        let ce2 = ms + self.chunks[i].span;
        let ghost (mid1, post) = if mid0.id.time < oe && oe < mid0.id.time + mid0.span {
            let (l, r) = split_view(mid0, (oe - mid0.id.time) as nat);
            (l, seq![r])
        } else {
            (mid0, Seq::<ChunkView<T::Item>>::empty())
        };
        if oe < ce2 {
            self.split_chunk_at(i, oe - ms);
        }
        proof {
            assert(self@ =~= v.take(i - pre.len()) + pre + seq![mid1] + post + v.skip(i - pre.len() + 1));
        }
        self.mark_deleted(i);
        let _ = self.chunks.len();
        proof {
            self.lemma_view_len();
            let marked = ChunkView { id: mid1.id, span: mid1.span, deleted: true, items: None };
            let d = delete_in_chunk(c, sid, ds as nat, de as nat);
            assert(d == pre + seq![marked] + post);
            assert(self@ =~= v.take(i - pre.len()) + d + v.skip(i - pre.len() + 1));
            if post.len() > 0 {
                assert(d[d.len() - 1] == post[0]);
            }
        }
        i + 1
    }

    /// Deletes the items `ds .. de` of session `sid`.
    fn delete_span(&mut self, sid: u64, ds: u64, de: u64)
        requires
            old(self).wf(),
            ds <= de,
        ensures
            final(self).wf(),
            final(self).indexed() == old(self).indexed(),
            final(self)@ == delete_span_view(old(self)@, sid, ds as nat, de as nat),
            old(self).all_held() ==> final(self).all_held(),
    {
        if de <= ds {
            proof {
                lemma_delete_empty_span(self@, sid, ds as nat, de as nat);
            }
            return;
        }
        let ghost orig = self@;
        let ghost mut j: int = 0;
        let mut i: usize = 0;
        proof {
            assert(orig.take(0) =~= Seq::<ChunkView<T::Item>>::empty());
            assert(self@ =~= delete_span_view(orig.take(0), sid, ds as nat, de as nat) + orig.skip(0));
        }
        while i < self.chunks.len()
            invariant
                self.wf(),
                self.indexed() == old(self).indexed(),
                old(self).all_held() ==> self.all_held(),
                ds < de,
                orig == old(self)@,
                0 <= j <= orig.len(),
                self@ == delete_span_view(orig.take(j), sid, ds as nat, de as nat) + orig.skip(j),
                i <= delete_span_view(orig.take(j), sid, ds as nat, de as nat).len(),
                forall|k: int|
                    i <= k < delete_span_view(orig.take(j), sid, ds as nat, de as nat).len() ==> misses(
                        #[trigger] delete_span_view(orig.take(j), sid, ds as nat, de as nat)[k],
                        sid,
                        ds as nat,
                        de as nat,
                    ),
            decreases 4 * (orig.len() - j) + (delete_span_view(orig.take(j), sid, ds as nat, de as nat).len() - i),
        {
            let ghost dv = delete_span_view(orig.take(j), sid, ds as nat, de as nat);
            proof {
                self.lemma_view_index(i as int);
                assert(self.chunks@[i as int].fits());
            }
            let csid = self.chunks[i].id.sid;
            let cs = self.chunks[i].id.time;
            let ce = cs + self.chunks[i].span;
            if csid != sid || cs >= de || ce <= ds {
                proof {
                    if i == dv.len() {
                        Self::lemma_delete_span_step(orig, j, sid, ds as nat, de as nat);
                        assert(self@[i as int] == orig[j]);
                        assert(self@ =~= delete_span_view(orig.take(j + 1), sid, ds as nat, de as nat) + orig.skip(j + 1));
                        j = j + 1;
                    } else {
                        assert(self@[i as int] == dv[i as int]);
                    }
                }
                i = i + 1;
            } else {
                proof {
                    if i < dv.len() {
                        assert(self@[i as int] == dv[i as int]);
                        assert(false);
                    }
                    assert(self@[i as int] == orig[j]);
                    Self::lemma_delete_span_step(orig, j, sid, ds as nat, de as nat);
                }
                let ghost before = self@;
                i = self.delete_in_place(i, sid, ds, de);
                proof {
                    let d = delete_in_chunk(orig[j], sid, ds as nat, de as nat);
                    assert(d.len() <= 3);
                    assert(before.take(dv.len() as int) =~= dv);
                    assert(before.skip((dv.len() + 1) as int) =~= orig.skip(j + 1));
                    assert(self@ =~= (dv + d) + orig.skip(j + 1));
                    let nd = dv + d;
                    assert forall|k: int| i <= k < nd.len() implies misses(#[trigger] nd[k], sid, ds as nat, de as nat) by {
                        assert(nd[k] == d[k - dv.len()]);
                    }
                    j = j + 1;
                }
            }
        }
        proof {
            let dv = delete_span_view(orig.take(j), sid, ds as nat, de as nat);
            if j < orig.len() {
                assert(self@.len() == dv.len() + orig.len() - j);
                assert(false);
            }
            assert(orig.take(orig.len() as int) =~= orig);
            assert(self@ =~= dv);
        }
    }

    /// Iterate all chunks in document order.
    pub fn iter(&self) -> (r: std::vec::IntoIter<&Chunk<T>>)
        ensures
            vstd::std_specs::iter::IteratorSpec::remaining(&r).len() == self@.len(),
            forall|i: int| 0 <= i < self@.len() ==> (#[trigger] vstd::std_specs::iter::IteratorSpec::remaining(&r)[i]).cview() == self@[i],
    {
        broadcast use vstd::std_specs::vec::axiom_spec_into_iter;
        let mut out: Vec<&Chunk<T>> = Vec::new();
        let mut i: usize = 0;
        while i < self.chunks.len()
            invariant
                i <= self.chunks@.len(),
                out@.len() == i,
                self@.len() == self.chunks@.len(),
                forall|k: int| 0 <= k < i ==> (#[trigger] out@[k]).cview() == self@[k],
            decreases self.chunks@.len() - i,
        {
            proof {
                self.lemma_view_index(i as int);
            }
            out.push(&self.chunks[i]);
            i = i + 1;
        }
        out.into_iter()
    }

    /// Iterate live (non-deleted) chunks, in document order.
    pub fn iter_live(&self) -> (r: std::vec::IntoIter<&Chunk<T>>)
        ensures
            vstd::std_specs::iter::IteratorSpec::remaining(&r).map_values(|c: &Chunk<T>| c.cview()) == live_chunks(self@),
    {
        broadcast use vstd::std_specs::vec::axiom_spec_into_iter;
        let mut out: Vec<&Chunk<T>> = Vec::new();
        let mut i: usize = 0;
        while i < self.chunks.len()
            invariant
                i <= self.chunks@.len(),
                self@.len() == self.chunks@.len(),
                out@.map_values(|c: &Chunk<T>| c.cview()) == live_chunks(self@.take(i as int)),
            decreases self.chunks@.len() - i,
        {
            proof {
                self.lemma_view_index(i as int);
                assert(self@.take(i + 1).drop_last() =~= self@.take(i as int));
            }
            let ghost before = out@;
            if !self.chunks[i].deleted {
                out.push(&self.chunks[i]);
                assert(out@.map_values(|c: &Chunk<T>| c.cview()) =~= before.map_values(|c: &Chunk<T>| c.cview()).push(self@[i as int]));
            } else {
                assert(out@ == before);
            }
            i = i + 1;
        }
        assert(self@.take(self@.len() as int) =~= self@);
        out.into_iter()
    }

    /// Delete all items covered by the given timestamp spans, splitting
    /// chunks that are only partly covered.
    pub fn delete(&mut self, spans: &[Tss])
        requires
            old(self).wf(),
            forall|k: int| 0 <= k < spans@.len() ==> (#[trigger] spans@[k]).time + spans@[k].span
                <= u64::MAX,
        ensures
            final(self).wf(),
            final(self).indexed() == old(self).indexed(),
            final(self)@ == delete_view(old(self)@, spans@),
            old(self).all_held() ==> final(self).all_held(),
    {
        let mut k: usize = 0;
        assert(spans@.take(0) =~= Seq::<Tss>::empty());
        while k < spans.len()
            invariant
                self.wf(),
                self.indexed() == old(self).indexed(),
                old(self).all_held() ==> self.all_held(),
                k <= spans@.len(),
                forall|k: int| 0 <= k < spans@.len() ==> (#[trigger] spans@[k]).time + spans@[k].span
                    <= u64::MAX,
                self@ == delete_view(old(self)@, spans@.take(k as int)),
            decreases spans@.len() - k,
        {
            let t = spans[k];
            assert(spans@[k as int] == t);
            self.delete_span(t.sid, t.time, t.time + t.span);
            proof {
                assert(spans@.take(k + 1).drop_last() =~= spans@.take(k as int));
                assert(spans@.take(k + 1).last() == t);
            }
            k = k + 1;
        }
        assert(spans@.take(spans@.len() as int) =~= spans@);
    }
}

/// A chunk that holds items holds exactly `span` of them.
pub open spec fn chunk_exact<I>(c: ChunkView<I>) -> bool {
    c.items is Some ==> c.items->0.len() == c.span
}

/// Every chunk of `v` that holds items holds exactly `span` of them.
pub open spec fn exact<I>(v: Seq<ChunkView<I>>) -> bool {
    forall|i: int| 0 <= i < v.len() ==> chunk_exact(#[trigger] v[i])
}

/// Splitting an exact chunk inside its span gives two exact chunks.
pub proof fn lemma_split_exact<I>(c: ChunkView<I>, at: nat)
    requires
        chunk_exact(c),
        at <= c.span,
    ensures
        chunk_exact(split_view(c, at).0),
        chunk_exact(split_view(c, at).1),
        split_view(c, at).0.span + split_view(c, at).1.span == c.span,
{
}

proof fn lemma_split_at_exact<I>(v: Seq<ChunkView<I>>, i: int, at: nat)
    requires
        exact(v),
        0 <= i < v.len(),
        at <= v[i].span,
    ensures
        exact(split_at_view(v, i, at)),
        split_at_view(v, i, at).len() == v.len() + 1,
{
    lemma_split_exact(v[i], at);
    let w = split_at_view(v, i, at);
    assert forall|k: int| 0 <= k < w.len() implies chunk_exact(#[trigger] w[k]) by {
        if k < i {
            assert(w[k] == v[k]);
        } else if k > i + 1 {
            assert(w[k] == v[k - 1]);
        }
    }
}

/// `skip_newer` stays within the sequence.
pub proof fn lemma_skip_newer_bounds<I>(v: Seq<ChunkView<I>>, p: int, id: Ts)
    requires
        0 <= p <= v.len(),
    ensures
        p <= skip_newer(v, p, id) <= v.len(),
    decreases v.len() - p,
{
    if p < v.len() && spec_compare(v[p].id, id) > 0 {
        lemma_skip_newer_bounds(v, p + 1, id);
    }
}

/// Inserting a chunk whose item count is its span keeps every chunk exact,
/// for any answer of the lookup of `after` that names a chunk covering it.
pub proof fn lemma_insert_exact<I>(
    v: Seq<ChunkView<I>>,
    after: Ts,
    found: Option<usize>,
    id: Ts,
    span: nat,
    items: Seq<I>,
)
    requires
        exact(v),
        items.len() == span,
        found matches Some(i) ==> i < v.len() && covers(v[i as int], after),
    ensures
        exact(insert_view(v, after, found, id, span, items)),
        insert_view(v, after, found, id, span, items).len() >= v.len() + 1,
{
    let (v1, p) = if after.sid == 0 && after.time == 0 {
        (v, 0int)
    } else {
        match found {
            Some(i) => {
                let c = v[i as int];
                if after.time < c.id.time + c.span - 1 {
                    (split_at_view(v, i as int, (after.time - c.id.time + 1) as nat), i + 1)
                } else {
                    (v, i + 1)
                }
            },
            None => (v, v.len() as int),
        }
    };
    if !(after.sid == 0 && after.time == 0) {
        if let Some(i) = found {
            let c = v[i as int];
            if after.time < c.id.time + c.span - 1 {
                lemma_split_at_exact(v, i as int, (after.time - c.id.time + 1) as nat);
            }
        }
    }
    assert(exact(v1) && 0 <= p <= v1.len() && v1.len() >= v.len());
    lemma_skip_newer_bounds(v1, p, id);
    let pos = skip_newer(v1, p, id);
    let nc = ChunkView { id, span, deleted: false, items: Some(items) };
    let w = v1.insert(pos, nc);
    assert(w == insert_view(v, after, found, id, span, items));
    assert forall|k: int| 0 <= k < w.len() implies chunk_exact(#[trigger] w[k]) by {
        if k < pos {
            assert(w[k] == v1[k]);
        } else if k > pos {
            assert(w[k] == v1[k - 1]);
        }
    }
}

proof fn lemma_delete_in_chunk_exact<I>(c: ChunkView<I>, sid: u64, ds: nat, de: nat)
    requires
        chunk_exact(c),
    ensures
        exact(delete_in_chunk(c, sid, ds, de)),
{
    let d = delete_in_chunk(c, sid, ds, de);
    let cs = c.id.time as nat;
    let ce = cs + c.span;
    if c.id.sid != sid || cs >= de || ce <= ds {
        assert(d == seq![c]);
        assert(chunk_exact(d[0]));
    } else {
        let os = if ds > cs { ds } else { cs };
        let oe = if de < ce { de } else { ce };
        if os > cs {
            lemma_split_exact(c, (os - cs) as nat);
        }
        let mid0 = if os > cs { split_view(c, (os - cs) as nat).1 } else { c };
        if mid0.id.time < oe && oe < mid0.id.time + mid0.span {
            lemma_split_exact(mid0, (oe - mid0.id.time) as nat);
        }
        assert forall|k: int| 0 <= k < d.len() implies chunk_exact(#[trigger] d[k]) by {
        }
    }
}

proof fn lemma_delete_span_exact<I>(v: Seq<ChunkView<I>>, sid: u64, ds: nat, de: nat)
    requires
        exact(v),
    ensures
        exact(delete_span_view(v, sid, ds, de)),
    decreases v.len(),
{
    if v.len() > 0 {
        let a = delete_span_view(v.drop_last(), sid, ds, de);
        let b = delete_in_chunk(v.last(), sid, ds, de);
        assert(chunk_exact(v[v.len() - 1]));
        lemma_delete_span_exact(v.drop_last(), sid, ds, de);
        lemma_delete_in_chunk_exact(v.last(), sid, ds, de);
        assert forall|k: int| 0 <= k < (a + b).len() implies chunk_exact(#[trigger] (a + b)[k]) by {
            if k < a.len() {
                assert((a + b)[k] == a[k]);
            } else {
                assert((a + b)[k] == b[k - a.len()]);
            }
        }
    }
}

/// Deleting spans keeps every chunk exact.
pub proof fn lemma_delete_exact<I>(v: Seq<ChunkView<I>>, spans: Seq<Tss>)
    requires
        exact(v),
    ensures
        exact(delete_view(v, spans)),
    decreases spans.len(),
{
    if spans.len() > 0 {
        let t = spans.last();
        lemma_delete_exact(v, spans.drop_last());
        lemma_delete_span_exact(delete_view(v, spans.drop_last()), t.sid, t.time as nat, (t.time + t.span) as nat);
    }
}

/// A live item with its id: session, time, item.
pub type Stamped<I> = (u64, nat, I);

/// The live items of a chunk with their ids (consecutive times from the
/// chunk's id).
pub open spec fn chunk_stamps<I>(c: ChunkView<I>) -> Seq<Stamped<I>> {
    if !c.deleted && c.items is Some {
        let s = c.items->0;
        Seq::new(s.len(), |i: int| (c.id.sid, (c.id.time + i) as nat, s[i]))
    } else {
        Seq::empty()
    }
}

/// The live items of `v` with their ids, in order.
pub open spec fn stamped<I>(v: Seq<ChunkView<I>>) -> Seq<Stamped<I>>
    decreases v.len(),
{
    if v.len() == 0 {
        Seq::empty()
    } else {
        stamped(v.drop_last()) + chunk_stamps(v.last())
    }
}

/// Whether the id of `x` is one of the items `ds .. de` of session `sid`.
pub open spec fn in_span<I>(x: Stamped<I>, sid: u64, ds: nat, de: nat) -> bool {
    x.0 == sid && ds <= x.1 < de
}

/// Whether some span of `spans` covers the id of `x`.
pub open spec fn covered<I>(x: Stamped<I>, spans: Seq<Tss>) -> bool {
    exists|k: int|
        0 <= k < spans.len() && #[trigger] in_span(
            x,
            spans[k].sid,
            spans[k].time as nat,
            (spans[k].time + spans[k].span) as nat,
        )
}

/// `s` without the items that some span of `spans` covers.
pub open spec fn keep_uncovered<I>(s: Seq<Stamped<I>>, spans: Seq<Tss>) -> Seq<Stamped<I>>
    decreases s.len(),
{
    if s.len() == 0 {
        s
    } else if covered(s.last(), spans) {
        keep_uncovered(s.drop_last(), spans)
    } else {
        keep_uncovered(s.drop_last(), spans).push(s.last())
    }
}

/// `s` without the items in `ds .. de` of session `sid`.
pub open spec fn drop_span<I>(s: Seq<Stamped<I>>, sid: u64, ds: nat, de: nat) -> Seq<Stamped<I>>
    decreases s.len(),
{
    if s.len() == 0 {
        s
    } else if in_span(s.last(), sid, ds, de) {
        drop_span(s.drop_last(), sid, ds, de)
    } else {
        drop_span(s.drop_last(), sid, ds, de).push(s.last())
    }
}

proof fn lemma_stamped_concat<I>(a: Seq<ChunkView<I>>, b: Seq<ChunkView<I>>)
    ensures
        stamped(a + b) == stamped(a) + stamped(b),
    decreases b.len(),
{
    if b.len() == 0 {
        assert(a + b =~= a);
        assert(stamped(a) + stamped(b) =~= stamped(a));
    } else {
        lemma_stamped_concat(a, b.drop_last());
        assert((a + b).drop_last() =~= a + b.drop_last());
        assert(stamped(a) + stamped(b.drop_last()) + chunk_stamps(b.last()) =~= stamped(a) + (stamped(
            b.drop_last(),
        ) + chunk_stamps(b.last())));
    }
}

proof fn lemma_stamped_one<I>(c: ChunkView<I>)
    ensures
        stamped(seq![c]) == chunk_stamps(c),
{
    let e = Seq::<ChunkView<I>>::empty();
    assert(seq![c].drop_last() =~= e);
    assert(stamped(seq![c]) == stamped(e) + chunk_stamps(c));
    assert(Seq::<Stamped<I>>::empty() + chunk_stamps(c) =~= chunk_stamps(c));
}

proof fn lemma_drop_span_concat<I>(a: Seq<Stamped<I>>, b: Seq<Stamped<I>>, sid: u64, ds: nat, de: nat)
    ensures
        drop_span(a + b, sid, ds, de) == drop_span(a, sid, ds, de) + drop_span(b, sid, ds, de),
    decreases b.len(),
{
    if b.len() == 0 {
        assert(a + b =~= a);
        assert(drop_span(a, sid, ds, de) + drop_span(b, sid, ds, de) =~= drop_span(a, sid, ds, de));
    } else {
        lemma_drop_span_concat(a, b.drop_last(), sid, ds, de);
        assert((a + b).drop_last() =~= a + b.drop_last());
        assert((a + b).last() == b.last());
        if !in_span(b.last(), sid, ds, de) {
            assert(drop_span(a, sid, ds, de) + drop_span(b.drop_last(), sid, ds, de).push(b.last())
                =~= (drop_span(a, sid, ds, de) + drop_span(b.drop_last(), sid, ds, de)).push(
                b.last(),
            ));
        }
    }
}

/// Items all outside the range stay.
proof fn lemma_drop_span_none<I>(s: Seq<Stamped<I>>, sid: u64, ds: nat, de: nat)
    requires
        forall|i: int| 0 <= i < s.len() ==> !in_span(#[trigger] s[i], sid, ds, de),
    ensures
        drop_span(s, sid, ds, de) == s,
    decreases s.len(),
{
    if s.len() > 0 {
        let d = s.drop_last();
        assert forall|i: int| 0 <= i < d.len() implies !in_span(#[trigger] d[i], sid, ds, de) by {
            assert(d[i] == s[i]);
        }
        lemma_drop_span_none(d, sid, ds, de);
        assert(!in_span(s[s.len() - 1], sid, ds, de));
        assert(d.push(s.last()) =~= s);
    }
}

/// Items all inside the range go.
proof fn lemma_drop_span_all<I>(s: Seq<Stamped<I>>, sid: u64, ds: nat, de: nat)
    requires
        forall|i: int| 0 <= i < s.len() ==> in_span(#[trigger] s[i], sid, ds, de),
    ensures
        drop_span(s, sid, ds, de) == Seq::<Stamped<I>>::empty(),
    decreases s.len(),
{
    if s.len() > 0 {
        let d = s.drop_last();
        assert forall|i: int| 0 <= i < d.len() implies in_span(#[trigger] d[i], sid, ds, de) by {
            assert(d[i] == s[i]);
        }
        lemma_drop_span_all(d, sid, ds, de);
        assert(in_span(s[s.len() - 1], sid, ds, de));
    }
}

/// Whether the chunk's time range fits in `u64`.
pub open spec fn chunk_fits<I>(c: ChunkView<I>) -> bool {
    c.id.time + c.span <= u64::MAX
}

/// Where a deletion of `ds ..` starts inside a chunk.
pub open spec fn del_lo<I>(c: ChunkView<I>, ds: nat) -> nat {
    if ds > c.id.time { ds } else { c.id.time as nat }
}

/// Where a deletion of `.. de` ends inside a chunk.
pub open spec fn del_hi<I>(c: ChunkView<I>, de: nat) -> nat {
    if de < c.id.time + c.span { de } else { (c.id.time + c.span) as nat }
}

/// The chunks a deletion in one chunk gives, as `delete_in_chunk` builds
/// them: the part before the range, the deleted part, the part after.
proof fn lemma_delete_in_chunk_parts<I>(c: ChunkView<I>, sid: u64, ds: nat, de: nat)
    requires
        chunk_exact(c),
        chunk_fits(c),
        ds < de,
        c.id.sid == sid,
        (c.id.time as nat) < de,
        ds < c.id.time + c.span,
    ensures
        (c.id.time as nat) <= del_lo(c, ds) <= del_hi(c, de) <= c.id.time + c.span,
        chunk_stamps(c).len() > 0 ==> stamped(delete_in_chunk(c, sid, ds, de)) == chunk_stamps(
            c,
        ).take(del_lo(c, ds) - c.id.time) + chunk_stamps(c).skip(del_hi(c, de) - c.id.time),
        chunk_stamps(c).len() == 0 ==> stamped(delete_in_chunk(c, sid, ds, de)).len() == 0,
        forall|i: int|
            0 <= i < delete_in_chunk(c, sid, ds, de).len() ==> chunk_fits(
                #[trigger] delete_in_chunk(c, sid, ds, de)[i],
            ),
{
    let cs = c.id.time as nat;
    let ce = cs + c.span;
    let os = if ds > cs { ds } else { cs };
    let oe = if de < ce { de } else { ce };
    let st = chunk_stamps(c);
    let (pre, mid0) = if os > cs {
        let (l, r) = split_view(c, (os - cs) as nat);
        (seq![l], r)
    } else {
        (Seq::empty(), c)
    };
    let (mid1, post) = if mid0.id.time < oe && oe < mid0.id.time + mid0.span {
        let (l, r) = split_view(mid0, (oe - mid0.id.time) as nat);
        (l, seq![r])
    } else {
        (mid0, Seq::empty())
    };
    let dead = ChunkView { id: mid1.id, span: mid1.span, deleted: true, items: None::<Seq<I>> };
    let out = pre + seq![dead] + post;
    assert(delete_in_chunk(c, sid, ds, de) == out);
    assert(mid0.id.time == os);
    assert(mid0.id.time + mid0.span == ce);
    lemma_stamped_concat(pre + seq![dead], post);
    lemma_stamped_concat(pre, seq![dead]);
    lemma_stamped_one(dead);
    assert(chunk_stamps(dead) =~= Seq::<Stamped<I>>::empty());
    let e = Seq::<Stamped<I>>::empty();
    assert(stamped(Seq::<ChunkView<I>>::empty()) == e);
    if os > cs {
        lemma_stamped_one(pre[0]);
        assert(pre =~= seq![pre[0]]);
    }
    if mid0.id.time < oe && oe < mid0.id.time + mid0.span {
        lemma_stamped_one(post[0]);
        assert(post =~= seq![post[0]]);
    }
    if !c.deleted && c.items is Some {
        let sq = c.items->0;
        let a = (os - cs) as int;
        let b = (oe - cs) as int;
        assert(stamped(pre) =~= st.take(a)) by {
            if os > cs {
                assert forall|i: int| 0 <= i < a implies #[trigger] chunk_stamps(pre[0])[i] == st.take(
                    a,
                )[i] by {}
            }
        }
        assert(stamped(post) =~= st.skip(b)) by {
            if mid0.id.time < oe && oe < mid0.id.time + mid0.span {
                assert forall|i: int| 0 <= i < st.len() - b implies #[trigger] chunk_stamps(post[0])[i]
                    == st.skip(b)[i] by {}
            }
        }
        assert(stamped(out) =~= st.take(a) + st.skip(b));
    } else {
        assert(st =~= e);
        assert(stamped(pre) =~= e);
        assert(stamped(post) =~= e);
        assert(stamped(out) =~= e);
    }
    assert forall|i: int| 0 <= i < out.len() implies chunk_fits(#[trigger] out[i]) by {}
}

/// Deleting a non-empty range in one chunk removes exactly the live items
/// in that range.
proof fn lemma_delete_in_chunk_stamps<I>(c: ChunkView<I>, sid: u64, ds: nat, de: nat)
    requires
        chunk_exact(c),
        chunk_fits(c),
        ds < de,
    ensures
        stamped(delete_in_chunk(c, sid, ds, de)) == drop_span(chunk_stamps(c), sid, ds, de),
        forall|i: int|
            0 <= i < delete_in_chunk(c, sid, ds, de).len() ==> chunk_fits(
                #[trigger] delete_in_chunk(c, sid, ds, de)[i],
            ),
{
    let cs = c.id.time as nat;
    let ce = cs + c.span;
    let st = chunk_stamps(c);
    if c.id.sid != sid || cs >= de || ce <= ds {
        lemma_stamped_one(c);
        assert forall|i: int| 0 <= i < st.len() implies !in_span(#[trigger] st[i], sid, ds, de) by {}
        lemma_drop_span_none(st, sid, ds, de);
        assert(delete_in_chunk(c, sid, ds, de) == seq![c]);
    } else {
        let os = del_lo(c, ds);
        let oe = del_hi(c, de);
        lemma_delete_in_chunk_parts(c, sid, ds, de);
        if st.len() == 0 {
            assert(drop_span(st, sid, ds, de) =~= st);
        } else {
            let a = (os - cs) as int;
            let b = (oe - cs) as int;
            assert(st =~= st.take(a) + st.subrange(a, b) + st.skip(b));
            lemma_drop_span_concat(st.take(a) + st.subrange(a, b), st.skip(b), sid, ds, de);
            lemma_drop_span_concat(st.take(a), st.subrange(a, b), sid, ds, de);
            let s1 = st.take(a);
            let s2 = st.subrange(a, b);
            let s3 = st.skip(b);
            assert forall|i: int| 0 <= i < s1.len() implies !in_span(#[trigger] s1[i], sid, ds, de) by {}
            assert forall|i: int| 0 <= i < s2.len() implies in_span(#[trigger] s2[i], sid, ds, de) by {}
            assert forall|i: int| 0 <= i < s3.len() implies !in_span(#[trigger] s3[i], sid, ds, de) by {}
            lemma_drop_span_none(s1, sid, ds, de);
            lemma_drop_span_all(s2, sid, ds, de);
            lemma_drop_span_none(s3, sid, ds, de);
            assert(s1 + Seq::<Stamped<I>>::empty() + s3 =~= s1 + s3);
        }
    }
}

/// Every chunk's time range fits in `u64`.
pub open spec fn all_fit<I>(v: Seq<ChunkView<I>>) -> bool {
    forall|i: int| 0 <= i < v.len() ==> chunk_fits(#[trigger] v[i])
}

/// Deleting a non-empty range removes exactly the live items in it.
proof fn lemma_delete_span_stamps<I>(v: Seq<ChunkView<I>>, sid: u64, ds: nat, de: nat)
    requires
        exact(v),
        all_fit(v),
        ds < de,
    ensures
        stamped(delete_span_view(v, sid, ds, de)) == drop_span(stamped(v), sid, ds, de),
        all_fit(delete_span_view(v, sid, ds, de)),
    decreases v.len(),
{
    if v.len() > 0 {
        let d = v.drop_last();
        let c = v.last();
        assert(exact(d)) by {
            assert forall|i: int| 0 <= i < d.len() implies chunk_exact(#[trigger] d[i]) by {
                assert(d[i] == v[i]);
            }
        }
        assert(all_fit(d)) by {
            assert forall|i: int| 0 <= i < d.len() implies chunk_fits(#[trigger] d[i]) by {
                assert(d[i] == v[i]);
            }
        }
        assert(chunk_exact(v[v.len() - 1]));
        assert(chunk_fits(v[v.len() - 1]));
        lemma_delete_span_stamps(d, sid, ds, de);
        lemma_delete_in_chunk_stamps(c, sid, ds, de);
        let x = delete_span_view(d, sid, ds, de);
        let y = delete_in_chunk(c, sid, ds, de);
        lemma_stamped_concat(x, y);
        lemma_drop_span_concat(stamped(d), chunk_stamps(c), sid, ds, de);
        assert forall|i: int| 0 <= i < (x + y).len() implies chunk_fits(#[trigger] (x + y)[i]) by {
            if i < x.len() {
                assert((x + y)[i] == x[i]);
            } else {
                assert((x + y)[i] == y[i - x.len()]);
            }
        }
    } else {
        assert(delete_span_view(v, sid, ds, de) =~= Seq::<ChunkView<I>>::empty());
    }
}

/// Also covered by one more span: covered before or by that span.
proof fn lemma_keep_uncovered_push<I>(s: Seq<Stamped<I>>, spans: Seq<Tss>, t: Tss)
    ensures
        keep_uncovered(s, spans.push(t)) == drop_span(
            keep_uncovered(s, spans),
            t.sid,
            t.time as nat,
            (t.time + t.span) as nat,
        ),
    decreases s.len(),
{
    let sp = spans.push(t);
    let ds = t.time as nat;
    let de = (t.time + t.span) as nat;
    if s.len() > 0 {
        let x = s.last();
        lemma_keep_uncovered_push(s.drop_last(), spans, t);
        let k1 = keep_uncovered(s.drop_last(), spans);
        assert(covered(x, sp) == (covered(x, spans) || in_span(x, t.sid, ds, de))) by {
            if covered(x, spans) {
                let k = choose|k: int|
                    0 <= k < spans.len() && #[trigger] in_span(
                        x,
                        spans[k].sid,
                        spans[k].time as nat,
                        (spans[k].time + spans[k].span) as nat,
                    );
                assert(sp[k] == spans[k]);
            }
            if in_span(x, t.sid, ds, de) {
                assert(sp[spans.len() as int] == t);
            }
            if covered(x, sp) {
                let k = choose|k: int|
                    0 <= k < sp.len() && #[trigger] in_span(
                        x,
                        sp[k].sid,
                        sp[k].time as nat,
                        (sp[k].time + sp[k].span) as nat,
                    );
                if k < spans.len() {
                    assert(sp[k] == spans[k]);
                }
            }
        }
        if !covered(x, spans) {
            assert(k1.push(x).drop_last() =~= k1);
            assert(k1.push(x).last() == x);
        }
    }
}

/// Deleting spans removes exactly the live items that some span covers and
/// keeps the others, with their order.
pub proof fn lemma_delete_keeps_uncovered<I>(v: Seq<ChunkView<I>>, spans: Seq<Tss>)
    requires
        exact(v),
        all_fit(v),
    ensures
        stamped(delete_view(v, spans)) == keep_uncovered(stamped(v), spans),
        all_fit(delete_view(v, spans)),
    decreases spans.len(),
{
    if spans.len() == 0 {
        assert(keep_uncovered(stamped(v), spans) == stamped(v)) by {
            lemma_keep_uncovered_none(stamped(v), spans);
        }
    } else {
        let t = spans.last();
        let sp = spans.drop_last();
        lemma_delete_keeps_uncovered(v, sp);
        lemma_delete_exact(v, sp);
        lemma_keep_uncovered_push(stamped(v), sp, t);
        assert(sp.push(t) =~= spans);
        if t.span > 0 {
            lemma_delete_span_stamps(delete_view(v, sp), t.sid, t.time as nat, (t.time + t.span) as nat);
        } else {
            lemma_delete_empty_span(delete_view(v, sp), t.sid, t.time as nat, (t.time + t.span) as nat);
            lemma_drop_span_empty(keep_uncovered(stamped(v), sp), t.sid, t.time as nat, (t.time + t.span) as nat);
        }
    }
}

/// Dropping an empty range keeps everything.
proof fn lemma_drop_span_empty<I>(s: Seq<Stamped<I>>, sid: u64, ds: nat, de: nat)
    requires
        de <= ds,
    ensures
        drop_span(s, sid, ds, de) == s,
    decreases s.len(),
{
    if s.len() > 0 {
        lemma_drop_span_empty(s.drop_last(), sid, ds, de);
        assert(s.drop_last().push(s.last()) =~= s);
    }
}

/// With no spans nothing is covered.
proof fn lemma_keep_uncovered_none<I>(s: Seq<Stamped<I>>, spans: Seq<Tss>)
    requires
        spans.len() == 0,
    ensures
        keep_uncovered(s, spans) == s,
    decreases s.len(),
{
    if s.len() > 0 {
        lemma_keep_uncovered_none(s.drop_last(), spans);
        assert(s.drop_last().push(s.last()) =~= s);
    }
}

} // verus!
