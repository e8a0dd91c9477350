//! Irreversible binary operational transformation.
//!
//! Operates on byte documents. Components are:
//! - `Retain(n)` — keep n bytes
//! - `Delete(n)` — skip n bytes
//! - `Insert(bytes)` — insert bytes
use vstd::prelude::*;
use crate::ot_model::{
    Piece, piece_src, piece_dst, src_len, ins_len, apply_ops, push_merge, merge_all, drop_empty,
    trim_ops, normalize_ops, is_normalized, compose_pieces, transform_pieces, piece_is_empty,
};
use crate::ot_laws::{
    lemma_lengths_concat, lemma_lengths_push, lemma_apply_cons, lemma_merge_all, lemma_trim,
    lemma_normalize, lemma_compose_pieces, lemma_compose_src_bound, lemma_transform_src,
    lemma_drop_empty, lemma_transform_converges, no_common_insert,
};

verus! {

#[derive(Debug, Clone, PartialEq)]
pub enum BinaryComponent {
    Retain(usize),
    Delete(usize),
    Insert(Vec<u8>),
}

pub type BinaryOp = Vec<BinaryComponent>;

impl View for BinaryComponent {
    type V = Piece<u8>;

    open spec fn view(&self) -> Piece<u8> {
        match self {
            BinaryComponent::Retain(n) => Piece::Retain(*n as nat),
            BinaryComponent::Delete(n) => Piece::Delete(*n as nat),
            BinaryComponent::Insert(b) => Piece::Insert(b@),
        }
    }
}

/// The mathematical operation a sequence of components stands for.
pub open spec fn pieces(op: Seq<BinaryComponent>) -> Seq<Piece<u8>> {
    op.map_values(|c: BinaryComponent| c@)
}

impl BinaryComponent {
    /// Number of source bytes this component consumes.
    pub fn src_len(&self) -> (r: usize)
        ensures
            r == piece_src(self@),
    {
        match self {
            Self::Retain(n) => *n,
            Self::Delete(n) => *n,
            Self::Insert(_) => 0,
        }
    }

    /// Number of bytes this component produces.
    pub fn dst_len(&self) -> (r: usize)
        ensures
            r == piece_dst(self@),
    {
        match self {
            Self::Retain(n) => *n,
            Self::Delete(_) => 0,
            Self::Insert(b) => b.len(),
        }
    }
}

proof fn lemma_pieces_push(op: Seq<BinaryComponent>, c: BinaryComponent)
    ensures
        pieces(op.push(c)) == pieces(op).push(c@),
{
    assert(pieces(op.push(c)) =~= pieces(op).push(c@));
}

proof fn lemma_pieces_skip(op: Seq<BinaryComponent>, i: int)
    requires
        0 <= i < op.len(),
    ensures
        pieces(op).skip(i) == seq![op[i]@] + pieces(op).skip(i + 1),
{
    assert(pieces(op).skip(i) =~= seq![op[i]@] + pieces(op).skip(i + 1));
}

proof fn lemma_last_src_bound(ops: Seq<Piece<u8>>)
    requires
        ops.len() > 0,
    ensures
        piece_src(ops.last()) <= src_len(ops),
{
    lemma_lengths_push(ops.drop_last(), ops.last());
    assert(ops.drop_last().push(ops.last()) =~= ops);
}

fn copy_bytes(src: &[u8], from: usize, to: usize) -> (r: Vec<u8>)
    requires
        from <= to <= src@.len(),
    ensures
        r@ == src@.subrange(from as int, to as int),
{
    let mut r: Vec<u8> = Vec::new();
    let mut j = from;
    while j < to
        invariant
            from <= j <= to <= src@.len(),
            r@ == src@.subrange(from as int, j as int),
        decreases to - j,
    {
        r.push(src[j]);
        j = j + 1;
        assert(r@ =~= src@.subrange(from as int, j as int));
    }
    r
}

fn extend_bytes(dst: &mut Vec<u8>, src: &[u8], from: usize, to: usize)
    requires
        from <= to <= src@.len(),
    ensures
        final(dst)@ == old(dst)@ + src@.subrange(from as int, to as int),
{
    let mut j = from;
    while j < to
        invariant
            from <= j <= to <= src@.len(),
            dst@ == old(dst)@ + src@.subrange(from as int, j as int),
        decreases to - j,
    {
        dst.push(src[j]);
        j = j + 1;
        assert(dst@ =~= old(dst)@ + src@.subrange(from as int, j as int));
    }
}

fn copy_component(c: &BinaryComponent) -> (r: BinaryComponent)
    ensures
        r@ == c@,
{
    match c {
        BinaryComponent::Retain(n) => BinaryComponent::Retain(*n),
        BinaryComponent::Delete(n) => BinaryComponent::Delete(*n),
        BinaryComponent::Insert(b) => {
            let v = copy_bytes(b.as_slice(), 0, b.len());
            assert(b@.subrange(0, b@.len() as int) =~= b@);
            BinaryComponent::Insert(v)
        },
    }
}

/// Append a component, merging with the last if same type.
fn append(op: &mut BinaryOp, comp: BinaryComponent)
    requires
        src_len(pieces(old(op)@)) + piece_src(comp@) <= usize::MAX,
    ensures
        pieces(final(op)@) == push_merge(pieces(old(op)@), comp@),
{
    let ghost before = pieces(op@);
    let last = op.pop();
    match last {
        None => {
            op.push(comp);
            proof {
                lemma_pieces_push(old(op)@, comp);
            }
        },
        Some(l) => {
            let ghost rest = op@;
            proof {
                assert(old(op)@ =~= rest.push(l));
                lemma_pieces_push(rest, l);
                lemma_last_src_bound(before);
                assert(before.last() == l@);
                assert(before.drop_last() =~= pieces(rest));
            }
            match (l, comp) {
                (BinaryComponent::Retain(n), BinaryComponent::Retain(m)) => {
                    op.push(BinaryComponent::Retain(n + m));
                    proof { lemma_pieces_push(rest, BinaryComponent::Retain((n + m) as usize)); }
                },
                (BinaryComponent::Delete(n), BinaryComponent::Delete(m)) => {
                    op.push(BinaryComponent::Delete(n + m));
                    proof { lemma_pieces_push(rest, BinaryComponent::Delete((n + m) as usize)); }
                },
                (BinaryComponent::Insert(s), BinaryComponent::Insert(t)) => {
                    let mut s = s;
                    extend_bytes(&mut s, t.as_slice(), 0, t.len());
                    assert(t@.subrange(0, t@.len() as int) =~= t@);
                    let ghost merged = s;
                    op.push(BinaryComponent::Insert(s));
                    proof { lemma_pieces_push(rest, BinaryComponent::Insert(merged)); }
                },
                (l, comp) => {
                    let ghost (gl, gc) = (l, comp);
                    op.push(l);
                    op.push(comp);
                    proof {
                        lemma_pieces_push(rest, gl);
                        lemma_pieces_push(rest.push(gl), gc);
                    }
                },
            }
        },
    }
}

/// Remove trailing Retain components.
pub fn trim(op: &mut BinaryOp)
    ensures
        pieces(final(op)@) == trim_ops(pieces(old(op)@)),
{
    loop
        invariant
            trim_ops(pieces(op@)) == trim_ops(pieces(old(op)@)),
        ensures
            pieces(op@) == trim_ops(pieces(old(op)@)),
        decreases op@.len(),
    {
        let n = op.len();
        if n == 0 {
            assert(pieces(op@) =~= Seq::<Piece<u8>>::empty());
            break;
        }
        let is_retain = match &op[n - 1] {
            BinaryComponent::Retain(_) => true,
            _ => false,
        };
        if !is_retain {
            assert(pieces(op@).last() == op@[n - 1]@);
            break;
        }
        let ghost before = op@;
        op.pop();
        proof {
            assert(before =~= op@.push(before.last()));
            lemma_pieces_push(op@, before.last());
            assert(pieces(before).drop_last() =~= pieces(op@));
        }
    }
}

/// Normalize: coalesce adjacent same-type components and strip trailing retains.
pub fn normalize(op: BinaryOp) -> (r: BinaryOp)
    requires
        src_len(pieces(op@)) <= usize::MAX,
    ensures
        pieces(r@) == normalize_ops(pieces(op@)),
        is_normalized(pieces(r@)),
{
    let ghost p = pieces(op@);
    let mut result: BinaryOp = Vec::new();
    let mut i: usize = 0;
    while i < op.len()
        invariant
            i <= op@.len(),
            p == pieces(op@),
            src_len(p) <= usize::MAX,
            pieces(result@) == merge_all(drop_empty(p.take(i as int))),
        decreases op@.len() - i,
    {
        let comp = copy_component(&op[i]);
        proof {
            assert(p[i as int] == comp@);
            assert(p.take(i + 1) =~= p.take(i as int).push(comp@));
            assert(p.take(i + 1).drop_last() =~= p.take(i as int));
            lemma_lengths_concat(p.take(i + 1), p.skip(i + 1));
            assert(p.take(i + 1) + p.skip(i + 1) =~= p);
            lemma_lengths_push(p.take(i as int), comp@);
            lemma_drop_empty(Seq::<u8>::empty(), p.take(i as int));
            lemma_merge_all(Seq::<u8>::empty(), drop_empty(p.take(i as int)));
        }
        let skip = match &comp {
            BinaryComponent::Retain(n) => *n == 0,
            BinaryComponent::Delete(n) => *n == 0,
            BinaryComponent::Insert(b) => b.len() == 0,
        };
        proof {
            let z = drop_empty(p.take(i as int));
            assert(z.push(comp@).drop_last() =~= z);
            assert(skip == piece_is_empty(comp@));
        }
        if !skip {
            append(&mut result, comp);
        }
        i = i + 1;
    }
    assert(p.take(op@.len() as int) =~= p);
    trim(&mut result);
    proof {
        lemma_normalize(Seq::<u8>::empty(), p);
    }
    result
}

/// Apply a `BinaryOp` to a byte slice, returning the result.
pub fn apply(data: &[u8], op: &BinaryOp) -> (r: Vec<u8>)
    requires
        src_len(pieces(op@)) <= data@.len(),
    ensures
        r@ == apply_ops(data@, pieces(op@)),
{
    let ghost p = pieces(op@);
    let dlen = data.len();
    let mut result: Vec<u8> = Vec::new();
    let mut idx: usize = 0;
    let mut i: usize = 0;
    assert(p.skip(0) =~= p);
    assert(data@.skip(0) =~= data@);
    assert(result@ + apply_ops(data@, p) =~= apply_ops(data@, p));
    while i < op.len()
        invariant
            i <= op@.len(),
            p == pieces(op@),
            dlen == data@.len(),
            idx + src_len(p.skip(i as int)) <= data@.len(),
            result@ + apply_ops(data@.skip(idx as int), p.skip(i as int)) == apply_ops(data@, p),
        decreases op@.len() - i,
    {
        let ghost rest = p.skip(i + 1);
        let ghost e = data@.skip(idx as int);
        proof {
            lemma_pieces_skip(op@, i as int);
            lemma_apply_cons(e, op@[i as int]@, rest);
        }
        assert(src_len(p.skip(i as int)) == piece_src(op@[i as int]@) + src_len(rest));
        match &op[i] {
            BinaryComponent::Retain(n) => {
                assert(op@[i as int]@ == Piece::<u8>::Retain(*n as nat));
                let ghost before = result@;
                extend_bytes(&mut result, data, idx, idx + *n);
                proof {
                    assert(e.take(*n as int) =~= data@.subrange(idx as int, idx + *n));
                    assert(e.skip(*n as int) =~= data@.skip(idx + *n));
                    assert(result@ + apply_ops(data@.skip(idx + *n), rest) =~= before + (e.take(
                        *n as int,
                    ) + apply_ops(e.skip(*n as int), rest)));
                }
                idx = idx + *n;
            },
            BinaryComponent::Delete(n) => {
                proof {
                    assert(e.skip(*n as int) =~= data@.skip(idx + *n));
                }
                idx = idx + *n;
            },
            BinaryComponent::Insert(bytes) => {
                let ghost before = result@;
                extend_bytes(&mut result, bytes.as_slice(), 0, bytes.len());
                proof {
                    assert(bytes@.subrange(0, bytes@.len() as int) =~= bytes@);
                    assert(result@ + apply_ops(e, rest) =~= before + (bytes@ + apply_ops(e, rest)));
                }
            },
        }
        i = i + 1;
    }
    let ghost before = result@;
    extend_bytes(&mut result, data, idx, data.len());
    proof {
        assert(p.skip(op@.len() as int) =~= Seq::<Piece<u8>>::empty());
        assert(data@.subrange(idx as int, data@.len() as int) =~= data@.skip(idx as int));
    }
    result
}



/// The split-off piece `rem`, if any, followed by `t`.
pub open spec fn rest_of(rem: Option<BinaryComponent>, t: Seq<Piece<u8>>) -> Seq<Piece<u8>> {
    match rem {
        Some(c) => seq![c@] + t,
        None => t,
    }
}

/// Takes the next component: the split-off one if there is one, else the
/// next one of `op`.
fn next_component(rem: &mut Option<BinaryComponent>, op: &BinaryOp, i: &mut usize) -> (c: Option<
    BinaryComponent,
>)
    requires
        *old(i) <= op@.len(),
    ensures
        *final(i) <= op@.len(),
        *final(rem) == None::<BinaryComponent>,
        match c {
            Some(c) => rest_of(*old(rem), pieces(op@).skip(*old(i) as int)) == seq![c@] + pieces(
                op@,
            ).skip(*final(i) as int),
            None => rest_of(*old(rem), pieces(op@).skip(*old(i) as int)).len() == 0 && *final(i)
                == op@.len(),
        },
{
    let taken = rem.take();
    match taken {
        Some(c) => Some(c),
        None => {
            if *i < op.len() {
                let c = copy_component(&op[*i]);
                proof {
                    lemma_pieces_skip(op@, *i as int);
                }
                *i = *i + 1;
                Some(c)
            } else {
                None
            }
        },
    }
}

proof fn lemma_merge_push(raw: Seq<Piece<u8>>, x: Piece<u8>)
    ensures
        merge_all(raw + seq![x]) == push_merge(merge_all(raw), x),
        raw + seq![x] == raw.push(x),
{
    assert(raw + seq![x] =~= raw.push(x));
    assert(raw.push(x).drop_last() =~= raw);
}

/// One step of composition on the current components `c1` of the first
/// operation and `c2` of the second.
fn compose_step(
    result: &mut BinaryOp,
    rem1: &mut Option<BinaryComponent>,
    rem2: &mut Option<BinaryComponent>,
    c1: BinaryComponent,
    c2: BinaryComponent,
    Ghost(raw): Ghost<Seq<Piece<u8>>>,
    Ghost(ta): Ghost<Seq<Piece<u8>>>,
    Ghost(tb): Ghost<Seq<Piece<u8>>>,
) -> (emitted: Ghost<Seq<Piece<u8>>>)
    requires
        *old(rem1) == None::<BinaryComponent>,
        *old(rem2) == None::<BinaryComponent>,
        pieces(old(result)@) == merge_all(raw),
        src_len(raw) + src_len(compose_pieces(seq![c1@] + ta, seq![c2@] + tb)) <= usize::MAX,
    ensures
        pieces(final(result)@) == merge_all(raw + emitted@),
        compose_pieces(seq![c1@] + ta, seq![c2@] + tb) == emitted@ + compose_pieces(
            rest_of(*final(rem1), ta),
            rest_of(*final(rem2), tb),
        ),
        rest_of(*final(rem1), ta).len() + rest_of(*final(rem2), tb).len() < ta.len() + tb.len()
            + 2,
{
    let ghost ga = seq![c1@] + ta;
    let ghost gb = seq![c2@] + tb;
    proof {
        assert(ga.drop_first() =~= ta);
        assert(gb.drop_first() =~= tb);
        assert(ga[0] == c1@);
        assert(gb[0] == c2@);
        lemma_merge_all(Seq::<u8>::empty(), raw);
    }
    let ghost mut out: Seq<Piece<u8>> = Seq::empty();
    match (c1, c2) {
        (BinaryComponent::Delete(n), c2) => {
            let ghost g2 = c2;
            proof {
                out = seq![Piece::Delete(n as nat)];
                lemma_lengths_concat(out, compose_pieces(ta, gb));
                lemma_merge_push(raw, out[0]);
                lemma_lengths_push(raw, out[0]);
            }
            append(result, BinaryComponent::Delete(n));
            *rem2 = Some(c2);
        },
        (c1, BinaryComponent::Insert(b)) => {
            let ghost g1 = c1;
            let ghost gbytes = b@;
            proof {
                out = seq![Piece::Insert(b@)];
                lemma_lengths_concat(out, compose_pieces(ga, tb));
                lemma_merge_push(raw, out[0]);
                lemma_lengths_push(raw, out[0]);
            }
            append(result, BinaryComponent::Insert(b));
            *rem1 = Some(c1);
        },
        (BinaryComponent::Retain(n), BinaryComponent::Retain(m)) => {
            let k = if n < m { n } else { m };
            proof {
                out = seq![Piece::Retain(k as nat)];
                if n > m {
                    lemma_lengths_concat(out, compose_pieces(seq![Piece::Retain((n - m) as nat)] + ta, tb));
                } else if m > n {
                    lemma_lengths_concat(out, compose_pieces(ta, seq![Piece::Retain((m - n) as nat)] + tb));
                } else {
                    lemma_lengths_concat(out, compose_pieces(ta, tb));
                }
                lemma_merge_push(raw, out[0]);
                lemma_lengths_push(raw, out[0]);
            }
            append(result, BinaryComponent::Retain(k));
            if n > m {
                *rem1 = Some(BinaryComponent::Retain(n - m));
            } else if m > n {
                *rem2 = Some(BinaryComponent::Retain(m - n));
            }
        },
        (BinaryComponent::Retain(n), BinaryComponent::Delete(m)) => {
            let k = if n < m { n } else { m };
            proof {
                out = seq![Piece::Delete(k as nat)];
                if n > m {
                    lemma_lengths_concat(out, compose_pieces(seq![Piece::Retain((n - m) as nat)] + ta, tb));
                } else if m > n {
                    lemma_lengths_concat(out, compose_pieces(ta, seq![Piece::Delete((m - n) as nat)] + tb));
                } else {
                    lemma_lengths_concat(out, compose_pieces(ta, tb));
                }
                lemma_merge_push(raw, out[0]);
                lemma_lengths_push(raw, out[0]);
            }
            append(result, BinaryComponent::Delete(k));
            if n > m {
                *rem1 = Some(BinaryComponent::Retain(n - m));
            } else if m > n {
                *rem2 = Some(BinaryComponent::Delete(m - n));
            }
        },
        (BinaryComponent::Insert(b), BinaryComponent::Retain(m)) => {
            let b_len = b.len();
            let k = if m < b_len { m } else { b_len };
            let kept = copy_bytes(b.as_slice(), 0, k);
            proof {
                out = seq![Piece::Insert(kept@)];
                if b_len > m {
                    assert(kept@ =~= b@.take(m as int));
                    lemma_lengths_concat(out, compose_pieces(seq![Piece::Insert(b@.skip(m as int))] + ta, tb));
                } else if m > b_len {
                    assert(kept@ =~= b@);
                    lemma_lengths_concat(out, compose_pieces(ta, seq![Piece::Retain((m - b_len) as nat)] + tb));
                } else {
                    assert(kept@ =~= b@);
                    lemma_lengths_concat(out, compose_pieces(ta, tb));
                }
                lemma_merge_push(raw, out[0]);
                lemma_lengths_push(raw, out[0]);
            }
            append(result, BinaryComponent::Insert(kept));
            if b_len > m {
                let tail = copy_bytes(b.as_slice(), m, b_len);
                assert(tail@ =~= b@.skip(m as int));
                *rem1 = Some(BinaryComponent::Insert(tail));
            } else if m > b_len {
                *rem2 = Some(BinaryComponent::Retain(m - b_len));
            }
        },
        (BinaryComponent::Insert(b), BinaryComponent::Delete(m)) => {
            let b_len = b.len();
            if b_len > m {
                let tail = copy_bytes(b.as_slice(), m, b_len);
                assert(tail@ =~= b@.skip(m as int));
                *rem1 = Some(BinaryComponent::Insert(tail));
            } else if m > b_len {
                *rem2 = Some(BinaryComponent::Delete(m - b_len));
            }
            assert(raw + out =~= raw);
        },
    }
    assert(compose_pieces(ga, gb) =~= out + compose_pieces(rest_of(*rem1, ta), rest_of(*rem2, tb)));
    Ghost(out)
}

/// What the law of composition promises of `r`, the composition of `a` then `b`.
pub open spec fn composes(a: Seq<Piece<u8>>, b: Seq<Piece<u8>>, r: Seq<Piece<u8>>) -> bool {
    forall|d: Seq<u8>|
        src_len(a) <= d.len() && src_len(b) <= #[trigger] apply_ops(d, a).len() ==> src_len(r)
            <= d.len() && apply_ops(d, r) == apply_ops(apply_ops(d, a), b)
}

/// Compose two sequential binary operations into one equivalent operation.
/// The composed operation must read at most `usize::MAX` items; it reads
/// at most the document's length whenever `op1` applies to a document and
/// `op2` to the result (`lemma_compose_pieces`).
pub fn compose(op1: &BinaryOp, op2: &BinaryOp) -> (r: BinaryOp)
    requires
        src_len(compose_pieces(pieces(op1@), pieces(op2@))) <= usize::MAX,
    ensures
        pieces(r@) == normalize_ops(merge_all(compose_pieces(pieces(op1@), pieces(op2@)))),
        is_normalized(pieces(r@)),
        composes(pieces(op1@), pieces(op2@), pieces(r@)),
{
    let ghost a = pieces(op1@);
    let ghost b = pieces(op2@);
    let ghost whole = compose_pieces(a, b);
    proof {
        lemma_compose_src_bound(a, b);
        assert(a.skip(0) =~= a);
        assert(b.skip(0) =~= b);
    }
    let mut result: BinaryOp = Vec::new();
    let mut i1: usize = 0;
    let mut i2: usize = 0;
    let mut rem1: Option<BinaryComponent> = None;
    let mut rem2: Option<BinaryComponent> = None;
    let ghost mut raw: Seq<Piece<u8>> = Seq::empty();
    assert(raw + whole =~= whole);
    loop
        invariant
            i1 <= op1@.len(),
            i2 <= op2@.len(),
            a == pieces(op1@),
            b == pieces(op2@),
            whole == compose_pieces(a, b),
            src_len(whole) <= usize::MAX,
            raw + compose_pieces(rest_of(rem1, a.skip(i1 as int)), rest_of(rem2, b.skip(i2 as int)))
                == whole,
            pieces(result@) == merge_all(raw),
        ensures
            raw == whole,
            pieces(result@) == merge_all(raw),
        decreases rest_of(rem1, a.skip(i1 as int)).len() + rest_of(rem2, b.skip(i2 as int)).len(),
    {
        let ghost ra = rest_of(rem1, a.skip(i1 as int));
        let ghost rb = rest_of(rem2, b.skip(i2 as int));
        proof {
            lemma_merge_all(Seq::<u8>::empty(), raw);
            lemma_lengths_concat(raw, compose_pieces(ra, rb));
        }
        let c1 = next_component(&mut rem1, op1, &mut i1);
        let c2 = next_component(&mut rem2, op2, &mut i2);
        let ghost ta = a.skip(i1 as int);
        let ghost tb = b.skip(i2 as int);
        match (c1, c2) {
            (None, None) => {
                assert(raw =~= whole);
                break;
            },
            (Some(c), None) => {
                proof {
                    assert(rb =~= Seq::<Piece<u8>>::empty());
                    assert(compose_pieces(ra, rb) == ra);
                    assert(compose_pieces(ta, rb) == ta);
                    lemma_lengths_concat(seq![c@], ta);
                    lemma_merge_push(raw, c@);
                    lemma_lengths_push(raw, c@);
                    assert(raw + ra =~= raw.push(c@) + ta);
                }
                append(&mut result, c);
                proof {
                    raw = raw.push(c@);
                }
            },
            (None, Some(c)) => {
                proof {
                    assert(ra =~= Seq::<Piece<u8>>::empty());
                    assert(compose_pieces(ra, rb) == rb);
                    assert(compose_pieces(ra, tb) == tb);
                    lemma_lengths_concat(seq![c@], tb);
                    lemma_merge_push(raw, c@);
                    lemma_lengths_push(raw, c@);
                    assert(raw + rb =~= raw.push(c@) + tb);
                }
                append(&mut result, c);
                proof {
                    raw = raw.push(c@);
                }
            },
            (Some(x1), Some(x2)) => {
                let Ghost(out) = compose_step(&mut result, &mut rem1, &mut rem2, x1, x2, Ghost(raw), Ghost(ta), Ghost(tb));
                proof {
                    assert(raw + compose_pieces(ra, rb) =~= (raw + out) + compose_pieces(
                        rest_of(rem1, ta),
                        rest_of(rem2, tb),
                    ));
                    raw = raw + out;
                }
            },
        }
    }
    proof {
        lemma_merge_all(Seq::<u8>::empty(), raw);
    }
    let normalized = normalize(result);
    proof {
        assert forall|d: Seq<u8>|
            src_len(a) <= d.len() && src_len(b) <= #[trigger] apply_ops(d, a).len() implies src_len(
                pieces(normalized@),
            ) <= d.len() && apply_ops(d, pieces(normalized@)) == apply_ops(apply_ops(d, a), b) by {
            lemma_compose_pieces(d, a, b);
            lemma_normalize(d, merge_all(whole));
            lemma_merge_all(d, whole);
        }
    }
    normalized
}


/// One step of transformation on the current component `o` of the
/// operation and `a` of the concurrent one.
fn transform_step(
    result: &mut BinaryOp,
    rem_op: &mut Option<BinaryComponent>,
    rem_ag: &mut Option<BinaryComponent>,
    o: BinaryComponent,
    a: BinaryComponent,
    left_wins: bool,
    Ghost(raw): Ghost<Seq<Piece<u8>>>,
    Ghost(to): Ghost<Seq<Piece<u8>>>,
    Ghost(ta): Ghost<Seq<Piece<u8>>>,
) -> (emitted: Ghost<Seq<Piece<u8>>>)
    requires
        *old(rem_op) == None::<BinaryComponent>,
        *old(rem_ag) == None::<BinaryComponent>,
        pieces(old(result)@) == merge_all(raw),
        src_len(raw) + src_len(transform_pieces(seq![o@] + to, seq![a@] + ta)) <= usize::MAX,
    ensures
        pieces(final(result)@) == merge_all(raw + emitted@),
        transform_pieces(seq![o@] + to, seq![a@] + ta) == emitted@ + transform_pieces(
            rest_of(*final(rem_op), to),
            rest_of(*final(rem_ag), ta),
        ),
        rest_of(*final(rem_op), to).len() + rest_of(*final(rem_ag), ta).len() < to.len() + ta.len()
            + 2,
{
    let ghost go = seq![o@] + to;
    let ghost ga = seq![a@] + ta;
    proof {
        assert(go.drop_first() =~= to);
        assert(ga.drop_first() =~= ta);
        assert(go[0] == o@);
        assert(ga[0] == a@);
        lemma_merge_all(Seq::<u8>::empty(), raw);
    }
    let ghost mut out: Seq<Piece<u8>> = Seq::empty();
    match (o, a) {
        (o, BinaryComponent::Insert(b)) => {
            let n = b.len();
            proof {
                out = seq![Piece::Retain(n as nat)];
                lemma_lengths_concat(out, transform_pieces(go, ta));
                lemma_merge_push(raw, out[0]);
                lemma_lengths_push(raw, out[0]);
            }
            if left_wins {
                *rem_op = Some(o);
                append(result, BinaryComponent::Retain(n));
            } else {
                append(result, BinaryComponent::Retain(n));
                *rem_op = Some(o);
            }
        },
        (BinaryComponent::Insert(b), a) => {
            proof {
                out = seq![Piece::Insert(b@)];
                lemma_lengths_concat(out, transform_pieces(to, ga));
                lemma_merge_push(raw, out[0]);
                lemma_lengths_push(raw, out[0]);
            }
            append(result, BinaryComponent::Insert(b));
            *rem_ag = Some(a);
        },
        (BinaryComponent::Retain(n), BinaryComponent::Retain(m)) => {
            let k = if n < m { n } else { m };
            proof {
                out = seq![Piece::Retain(k as nat)];
                if n > m {
                    lemma_lengths_concat(out, transform_pieces(seq![Piece::Retain((n - m) as nat)] + to, ta));
                } else if m > n {
                    lemma_lengths_concat(out, transform_pieces(to, seq![Piece::Retain((m - n) as nat)] + ta));
                } else {
                    lemma_lengths_concat(out, transform_pieces(to, ta));
                }
                lemma_merge_push(raw, out[0]);
                lemma_lengths_push(raw, out[0]);
            }
            append(result, BinaryComponent::Retain(k));
            if n > m {
                *rem_op = Some(BinaryComponent::Retain(n - m));
            } else if m > n {
                *rem_ag = Some(BinaryComponent::Retain(m - n));
            }
        },
        (BinaryComponent::Retain(n), BinaryComponent::Delete(m)) => {
            if n > m {
                *rem_op = Some(BinaryComponent::Retain(n - m));
            } else if m > n {
                *rem_ag = Some(BinaryComponent::Delete(m - n));
            }
            assert(raw + out =~= raw);
        },
        (BinaryComponent::Delete(n), BinaryComponent::Retain(m)) => {
            let k = if n < m { n } else { m };
            proof {
                out = seq![Piece::Delete(k as nat)];
                if n > m {
                    lemma_lengths_concat(out, transform_pieces(seq![Piece::Delete((n - m) as nat)] + to, ta));
                } else if m > n {
                    lemma_lengths_concat(out, transform_pieces(to, seq![Piece::Retain((m - n) as nat)] + ta));
                } else {
                    lemma_lengths_concat(out, transform_pieces(to, ta));
                }
                lemma_merge_push(raw, out[0]);
                lemma_lengths_push(raw, out[0]);
            }
            append(result, BinaryComponent::Delete(k));
            if n > m {
                *rem_op = Some(BinaryComponent::Delete(n - m));
            } else if m > n {
                *rem_ag = Some(BinaryComponent::Retain(m - n));
            }
        },
        (BinaryComponent::Delete(n), BinaryComponent::Delete(m)) => {
            if n > m {
                *rem_op = Some(BinaryComponent::Delete(n - m));
            } else if m > n {
                *rem_ag = Some(BinaryComponent::Delete(m - n));
            }
            assert(raw + out =~= raw);
        },
    }
    assert(transform_pieces(go, ga) =~= out + transform_pieces(rest_of(*rem_op, to), rest_of(*rem_ag, ta)));
    Ghost(out)
}

/// What transforming promises of `r`, the transform of `o` against `a`:
/// whenever both fit a document, `r` fits the document that `a` produces.
pub open spec fn fits_after(o: Seq<Piece<u8>>, a: Seq<Piece<u8>>, r: Seq<Piece<u8>>) -> bool {
    forall|d: Seq<u8>|
        src_len(o) <= d.len() && src_len(a) <= d.len() ==> src_len(r) <= #[trigger] apply_ops(
            d,
            a,
        ).len()
}

/// Transform `op` against `against`.  The transformed operation must read
/// at most `usize::MAX` items; when both operations apply to one document,
/// it reads at most the length of what `against` makes of it
/// (`lemma_transform_src`).
pub fn transform(op: &BinaryOp, against: &BinaryOp, left_wins: bool) -> (r: BinaryOp)
    requires
        src_len(transform_pieces(pieces(op@), pieces(against@))) <= usize::MAX,
    ensures
        pieces(r@) == normalize_ops(merge_all(transform_pieces(pieces(op@), pieces(against@)))),
        is_normalized(pieces(r@)),
        fits_after(pieces(op@), pieces(against@), pieces(r@)),
{
    let ghost o = pieces(op@);
    let ghost a = pieces(against@);
    let ghost whole = transform_pieces(o, a);
    proof {
        lemma_transform_src(o, a, 0);
        assert(o.skip(0) =~= o);
        assert(a.skip(0) =~= a);
    }
    let mut result: BinaryOp = Vec::new();
    let mut i1: usize = 0;
    let mut i2: usize = 0;
    let mut rem_op: Option<BinaryComponent> = None;
    let mut rem_ag: Option<BinaryComponent> = None;
    let ghost mut raw: Seq<Piece<u8>> = Seq::empty();
    assert(raw + whole =~= whole);
    loop
        invariant
            i1 <= op@.len(),
            i2 <= against@.len(),
            o == pieces(op@),
            a == pieces(against@),
            whole == transform_pieces(o, a),
            src_len(whole) <= usize::MAX,
            raw + transform_pieces(rest_of(rem_op, o.skip(i1 as int)), rest_of(rem_ag, a.skip(i2 as int)))
                == whole,
            pieces(result@) == merge_all(raw),
        ensures
            raw == whole,
            pieces(result@) == merge_all(raw),
        decreases rest_of(rem_op, o.skip(i1 as int)).len() + rest_of(rem_ag, a.skip(i2 as int)).len(),
    {
        let ghost ro = rest_of(rem_op, o.skip(i1 as int));
        let ghost ra = rest_of(rem_ag, a.skip(i2 as int));
        proof {
            lemma_merge_all(Seq::<u8>::empty(), raw);
            lemma_lengths_concat(raw, transform_pieces(ro, ra));
        }
        let c1 = next_component(&mut rem_op, op, &mut i1);
        let c2 = next_component(&mut rem_ag, against, &mut i2);
        let ghost to = o.skip(i1 as int);
        let ghost ta = a.skip(i2 as int);
        match (c1, c2) {
            (None, _) => {
                assert(ro =~= Seq::<Piece<u8>>::empty());
                assert(raw =~= whole);
                break;
            },
            (Some(c), None) => {
                proof {
                    assert(ra =~= Seq::<Piece<u8>>::empty());
                    assert(transform_pieces(ro, ra) == ro);
                    assert(transform_pieces(to, ra) == to);
                    lemma_lengths_concat(seq![c@], to);
                    lemma_merge_push(raw, c@);
                    lemma_lengths_push(raw, c@);
                    assert(raw + ro =~= raw.push(c@) + to);
                }
                append(&mut result, c);
                proof {
                    raw = raw.push(c@);
                }
            },
            (Some(x1), Some(x2)) => {
                let Ghost(out) = transform_step(&mut result, &mut rem_op, &mut rem_ag, x1, x2, left_wins, Ghost(raw), Ghost(to), Ghost(ta));
                proof {
                    assert(raw + transform_pieces(ro, ra) =~= (raw + out) + transform_pieces(
                        rest_of(rem_op, to),
                        rest_of(rem_ag, ta),
                    ));
                    raw = raw + out;
                }
            },
        }
    }
    proof {
        lemma_merge_all(Seq::<u8>::empty(), raw);
    }
    let normalized = normalize(result);
    proof {
        assert forall|d: Seq<u8>|
            src_len(o) <= d.len() && src_len(a) <= d.len() implies src_len(pieces(normalized@))
            <= #[trigger] apply_ops(d, a).len() by {
            lemma_transform_src(o, a, d.len());
            lemma_normalize(d, merge_all(whole));
            lemma_merge_all(d, whole);
            crate::ot_laws::lemma_apply_len(d, a);
        }
    }
    normalized
}

/// Convergence of `transform`: for two operations `a` and `b` on the same
/// data that never both insert at the same place, with `ta` what
/// `transform(a, b, _)` returns and `tb` what `transform(b, a, _)` returns,
/// applying `b` then `ta` gives what applying `a` then `tb` gives.
pub proof fn lemma_transform_convergence(
    d: Seq<u8>,
    a: BinaryOp,
    b: BinaryOp,
    ta: BinaryOp,
    tb: BinaryOp,
)
    requires
        src_len(pieces(a@)) <= d.len(),
        src_len(pieces(b@)) <= d.len(),
        no_common_insert(pieces(a@), pieces(b@)),
        pieces(ta@) == normalize_ops(merge_all(transform_pieces(pieces(a@), pieces(b@)))),
        pieces(tb@) == normalize_ops(merge_all(transform_pieces(pieces(b@), pieces(a@)))),
    ensures
        apply_ops(apply_ops(d, pieces(b@)), pieces(ta@)) == apply_ops(
            apply_ops(d, pieces(a@)),
            pieces(tb@),
        ),
{
    lemma_transform_converges(d, pieces(a@), pieces(b@));
}

} // verus!
