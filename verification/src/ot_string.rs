//! Irreversible string operational transformation.
//!
//! Operates on strings, counted in characters. Deletions are represented
//! only by their count, not by the deleted text. Components are:
//! - `Retain(n)` — keep n characters
//! - `Delete(n)` — skip n characters
//! - `Insert(text)` — insert text
use vstd::prelude::*;
use crate::ot_model::{
    Piece, piece_src, piece_dst, src_len, ins_len, apply_ops, push_merge, merge_all, drop_empty,
    trim_ops, normalize_ops, is_normalized, compose_pieces, transform_pieces, piece_is_empty,
};
use crate::ot_laws::{
    lemma_lengths_concat, lemma_lengths_push, lemma_apply_cons, lemma_merge_all, lemma_trim,
    lemma_normalize, lemma_compose_pieces, lemma_compose_src_bound, lemma_transform_src,
    lemma_drop_empty, lemma_transform_converges, no_common_insert,
};

verus! {

#[derive(Debug, Clone, PartialEq)]
pub enum StringIrrevComponent {
    Retain(usize),
    Delete(usize),
    Insert(String),
}

pub type StringIrrevOp = Vec<StringIrrevComponent>;

impl View for StringIrrevComponent {
    type V = Piece<char>;

    open spec fn view(&self) -> Piece<char> {
        match self {
            StringIrrevComponent::Retain(n) => Piece::Retain(*n as nat),
            StringIrrevComponent::Delete(n) => Piece::Delete(*n as nat),
            StringIrrevComponent::Insert(b) => Piece::Insert(b@),
        }
    }
}

/// The mathematical operation a sequence of components stands for.
pub open spec fn pieces(op: Seq<StringIrrevComponent>) -> Seq<Piece<char>> {
    op.map_values(|c: StringIrrevComponent| c@)
}

impl StringIrrevComponent {
    /// Number of source characters this component consumes.
    pub fn src_len(&self) -> (r: usize)
        ensures
            r == piece_src(self@),
    {
        match self {
            Self::Retain(n) => *n,
            Self::Delete(n) => *n,
            Self::Insert(_) => 0,
        }
    }

    /// Number of characters this component produces.
    pub fn dst_len(&self) -> (r: usize)
        ensures
            r == piece_dst(self@),
    {
        match self {
            Self::Retain(n) => *n,
            Self::Delete(_) => 0,
            Self::Insert(b) => b.as_str().unicode_len(),
        }
    }
}

proof fn lemma_pieces_push(op: Seq<StringIrrevComponent>, c: StringIrrevComponent)
    ensures
        pieces(op.push(c)) == pieces(op).push(c@),
{
    assert(pieces(op.push(c)) =~= pieces(op).push(c@));
}

proof fn lemma_pieces_skip(op: Seq<StringIrrevComponent>, i: int)
    requires
        0 <= i < op.len(),
    ensures
        pieces(op).skip(i) == seq![op[i]@] + pieces(op).skip(i + 1),
{
    assert(pieces(op).skip(i) =~= seq![op[i]@] + pieces(op).skip(i + 1));
}

proof fn lemma_last_src_bound(ops: Seq<Piece<char>>)
    requires
        ops.len() > 0,
    ensures
        piece_src(ops.last()) <= src_len(ops),
{
    lemma_lengths_push(ops.drop_last(), ops.last());
    assert(ops.drop_last().push(ops.last()) =~= ops);
}

fn sub_string(s: &str, from: usize, to: usize) -> (r: String)
    requires
        from <= to <= s@.len(),
    ensures
        r@ == s@.subrange(from as int, to as int),
{
    String::from_str(s.substring_char(from, to))
}

fn copy_component(c: &StringIrrevComponent) -> (r: StringIrrevComponent)
    ensures
        r@ == c@,
{
    match c {
        StringIrrevComponent::Retain(n) => StringIrrevComponent::Retain(*n),
        StringIrrevComponent::Delete(n) => StringIrrevComponent::Delete(*n),
        StringIrrevComponent::Insert(b) => {
            let v = b.clone();
            StringIrrevComponent::Insert(v)
        },
    }
}

/// Append a component, merging with the last if same type.
fn append(op: &mut StringIrrevOp, comp: StringIrrevComponent)
    requires
        src_len(pieces(old(op)@)) + piece_src(comp@) <= usize::MAX,
    ensures
        pieces(final(op)@) == push_merge(pieces(old(op)@), comp@),
{
    let ghost before = pieces(op@);
    let last = op.pop();
    match last {
        None => {
            op.push(comp);
            proof {
                lemma_pieces_push(old(op)@, comp);
            }
        },
        Some(l) => {
            let ghost rest = op@;
            proof {
                assert(old(op)@ =~= rest.push(l));
                lemma_pieces_push(rest, l);
                lemma_last_src_bound(before);
                assert(before.last() == l@);
                assert(before.drop_last() =~= pieces(rest));
            }
            match (l, comp) {
                (StringIrrevComponent::Retain(n), StringIrrevComponent::Retain(m)) => {
                    op.push(StringIrrevComponent::Retain(n + m));
                    proof { lemma_pieces_push(rest, StringIrrevComponent::Retain((n + m) as usize)); }
                },
                (StringIrrevComponent::Delete(n), StringIrrevComponent::Delete(m)) => {
                    op.push(StringIrrevComponent::Delete(n + m));
                    proof { lemma_pieces_push(rest, StringIrrevComponent::Delete((n + m) as usize)); }
                },
                (StringIrrevComponent::Insert(s), StringIrrevComponent::Insert(t)) => {
                    let mut s = s;
                    s.append(t.as_str());
                    let ghost merged = s;
                    op.push(StringIrrevComponent::Insert(s));
                    proof { lemma_pieces_push(rest, StringIrrevComponent::Insert(merged)); }
                },
                (l, comp) => {
                    let ghost (gl, gc) = (l, comp);
                    op.push(l);
                    op.push(comp);
                    proof {
                        lemma_pieces_push(rest, gl);
                        lemma_pieces_push(rest.push(gl), gc);
                    }
                },
            }
        },
    }
}

/// Remove trailing Retain components.
pub fn trim(op: &mut StringIrrevOp)
    ensures
        pieces(final(op)@) == trim_ops(pieces(old(op)@)),
{
    loop
        invariant
            trim_ops(pieces(op@)) == trim_ops(pieces(old(op)@)),
        ensures
            pieces(op@) == trim_ops(pieces(old(op)@)),
        decreases op@.len(),
    {
        let n = op.len();
        if n == 0 {
            assert(pieces(op@) =~= Seq::<Piece<char>>::empty());
            break;
        }
        let is_retain = match &op[n - 1] {
            StringIrrevComponent::Retain(_) => true,
            _ => false,
        };
        if !is_retain {
            assert(pieces(op@).last() == op@[n - 1]@);
            break;
        }
        let ghost before = op@;
        op.pop();
        proof {
            assert(before =~= op@.push(before.last()));
            lemma_pieces_push(op@, before.last());
            assert(pieces(before).drop_last() =~= pieces(op@));
        }
    }
}

/// Normalize: coalesce adjacent same-type components and strip trailing retains.
pub fn normalize(op: StringIrrevOp) -> (r: StringIrrevOp)
    requires
        src_len(pieces(op@)) <= usize::MAX,
    ensures
        pieces(r@) == normalize_ops(pieces(op@)),
        is_normalized(pieces(r@)),
{
    let ghost p = pieces(op@);
    let mut result: StringIrrevOp = Vec::new();
    let mut i: usize = 0;
    while i < op.len()
        invariant
            i <= op@.len(),
            p == pieces(op@),
            src_len(p) <= usize::MAX,
            pieces(result@) == merge_all(drop_empty(p.take(i as int))),
        decreases op@.len() - i,
    {
        let comp = copy_component(&op[i]);
        proof {
            assert(p[i as int] == comp@);
            assert(p.take(i + 1) =~= p.take(i as int).push(comp@));
            assert(p.take(i + 1).drop_last() =~= p.take(i as int));
            lemma_lengths_concat(p.take(i + 1), p.skip(i + 1));
            assert(p.take(i + 1) + p.skip(i + 1) =~= p);
            lemma_lengths_push(p.take(i as int), comp@);
            lemma_drop_empty(Seq::<char>::empty(), p.take(i as int));
            lemma_merge_all(Seq::<char>::empty(), drop_empty(p.take(i as int)));
        }
        let skip = match &comp {
            StringIrrevComponent::Retain(n) => *n == 0,
            StringIrrevComponent::Delete(n) => *n == 0,
            StringIrrevComponent::Insert(b) => b.as_str().unicode_len() == 0,
        };
        proof {
            let z = drop_empty(p.take(i as int));
            assert(z.push(comp@).drop_last() =~= z);
            assert(skip == piece_is_empty(comp@));
        }
        if !skip {
            append(&mut result, comp);
        }
        i = i + 1;
    }
    assert(p.take(op@.len() as int) =~= p);
    trim(&mut result);
    proof {
        lemma_normalize(Seq::<char>::empty(), p);
    }
    result
}

/// Apply a `StringIrrevOp` to a string, returning the result.
pub fn apply(s: &str, op: &StringIrrevOp) -> (r: String)
    requires
        src_len(pieces(op@)) <= s@.len(),
    ensures
        r@ == apply_ops(s@, pieces(op@)),
{
    let ghost p = pieces(op@);
    let slen = s.unicode_len();
    let mut result = String::new();
    let mut idx: usize = 0;
    let mut i: usize = 0;
    assert(p.skip(0) =~= p);
    assert(s@.skip(0) =~= s@);
    assert(result@ + apply_ops(s@, p) =~= apply_ops(s@, p));
    while i < op.len()
        invariant
            i <= op@.len(),
            p == pieces(op@),
            slen == s@.len(),
            idx + src_len(p.skip(i as int)) <= s@.len(),
            result@ + apply_ops(s@.skip(idx as int), p.skip(i as int)) == apply_ops(s@, p),
        decreases op@.len() - i,
    {
        let ghost rest = p.skip(i + 1);
        let ghost e = s@.skip(idx as int);
        proof {
            lemma_pieces_skip(op@, i as int);
            lemma_apply_cons(e, op@[i as int]@, rest);
        }
        assert(src_len(p.skip(i as int)) == piece_src(op@[i as int]@) + src_len(rest));
        match &op[i] {
            StringIrrevComponent::Retain(n) => {
                assert(op@[i as int]@ == Piece::<char>::Retain(*n as nat));
                let ghost before = result@;
                result.append(s.substring_char(idx, idx + *n));
                proof {
                    assert(e.take(*n as int) =~= s@.subrange(idx as int, idx + *n));
                    assert(e.skip(*n as int) =~= s@.skip(idx + *n));
                    assert(result@ + apply_ops(s@.skip(idx + *n), rest) =~= before + (e.take(
                        *n as int,
                    ) + apply_ops(e.skip(*n as int), rest)));
                }
                idx = idx + *n;
            },
            StringIrrevComponent::Delete(n) => {
                proof {
                    assert(e.skip(*n as int) =~= s@.skip(idx + *n));
                }
                idx = idx + *n;
            },
            StringIrrevComponent::Insert(ins) => {
                let ghost before = result@;
                result.append(ins.as_str());
                proof {
                    assert(result@ + apply_ops(e, rest) =~= before + (ins@ + apply_ops(e, rest)));
                }
            },
        }
        i = i + 1;
    }
    result.append(s.substring_char(idx, slen));
    proof {
        assert(p.skip(op@.len() as int) =~= Seq::<Piece<char>>::empty());
        assert(s@.subrange(idx as int, s@.len() as int) =~= s@.skip(idx as int));
    }
    result
}

/// The split-off piece `rem`, if any, followed by `t`.
pub open spec fn rest_of(rem: Option<StringIrrevComponent>, t: Seq<Piece<char>>) -> Seq<Piece<char>> {
    match rem {
        Some(c) => seq![c@] + t,
        None => t,
    }
}

/// Takes the next component: the split-off one if there is one, else the
/// next one of `op`.
fn next_component(rem: &mut Option<StringIrrevComponent>, op: &StringIrrevOp, i: &mut usize) -> (c: Option<
    StringIrrevComponent,
>)
    requires
        *old(i) <= op@.len(),
    ensures
        *final(i) <= op@.len(),
        *final(rem) == None::<StringIrrevComponent>,
        match c {
            Some(c) => rest_of(*old(rem), pieces(op@).skip(*old(i) as int)) == seq![c@] + pieces(
                op@,
            ).skip(*final(i) as int),
            None => rest_of(*old(rem), pieces(op@).skip(*old(i) as int)).len() == 0 && *final(i)
                == op@.len(),
        },
{
    let taken = rem.take();
    match taken {
        Some(c) => Some(c),
        None => {
            if *i < op.len() {
                let c = copy_component(&op[*i]);
                proof {
                    lemma_pieces_skip(op@, *i as int);
                }
                *i = *i + 1;
                Some(c)
            } else {
                None
            }
        },
    }
}

proof fn lemma_merge_push(raw: Seq<Piece<char>>, x: Piece<char>)
    ensures
        merge_all(raw + seq![x]) == push_merge(merge_all(raw), x),
        raw + seq![x] == raw.push(x),
{
    assert(raw + seq![x] =~= raw.push(x));
    assert(raw.push(x).drop_last() =~= raw);
}

/// One step of composition on the current components `c1` of the first
/// operation and `c2` of the second.
fn compose_step(
    result: &mut StringIrrevOp,
    rem1: &mut Option<StringIrrevComponent>,
    rem2: &mut Option<StringIrrevComponent>,
    c1: StringIrrevComponent,
    c2: StringIrrevComponent,
    Ghost(raw): Ghost<Seq<Piece<char>>>,
    Ghost(ta): Ghost<Seq<Piece<char>>>,
    Ghost(tb): Ghost<Seq<Piece<char>>>,
) -> (emitted: Ghost<Seq<Piece<char>>>)
    requires
        *old(rem1) == None::<StringIrrevComponent>,
        *old(rem2) == None::<StringIrrevComponent>,
        pieces(old(result)@) == merge_all(raw),
        src_len(raw) + src_len(compose_pieces(seq![c1@] + ta, seq![c2@] + tb)) <= usize::MAX,
    ensures
        pieces(final(result)@) == merge_all(raw + emitted@),
        compose_pieces(seq![c1@] + ta, seq![c2@] + tb) == emitted@ + compose_pieces(
            rest_of(*final(rem1), ta),
            rest_of(*final(rem2), tb),
        ),
        rest_of(*final(rem1), ta).len() + rest_of(*final(rem2), tb).len() < ta.len() + tb.len()
            + 2,
{
    let ghost ga = seq![c1@] + ta;
    let ghost gb = seq![c2@] + tb;
    proof {
        assert(ga.drop_first() =~= ta);
        assert(gb.drop_first() =~= tb);
        assert(ga[0] == c1@);
        assert(gb[0] == c2@);
        lemma_merge_all(Seq::<char>::empty(), raw);
    }
    let ghost mut out: Seq<Piece<char>> = Seq::empty();
    match (c1, c2) {
        (StringIrrevComponent::Delete(n), c2) => {
            let ghost g2 = c2;
            proof {
                out = seq![Piece::Delete(n as nat)];
                lemma_lengths_concat(out, compose_pieces(ta, gb));
                lemma_merge_push(raw, out[0]);
                lemma_lengths_push(raw, out[0]);
            }
            append(result, StringIrrevComponent::Delete(n));
            *rem2 = Some(c2);
        },
        (c1, StringIrrevComponent::Insert(b)) => {
            let ghost g1 = c1;
            let ghost gbytes = b@;
            proof {
                out = seq![Piece::Insert(b@)];
                lemma_lengths_concat(out, compose_pieces(ga, tb));
                lemma_merge_push(raw, out[0]);
                lemma_lengths_push(raw, out[0]);
            }
            append(result, StringIrrevComponent::Insert(b));
            *rem1 = Some(c1);
        },
        (StringIrrevComponent::Retain(n), StringIrrevComponent::Retain(m)) => {
            let k = if n < m { n } else { m };
            proof {
                out = seq![Piece::Retain(k as nat)];
                if n > m {
                    lemma_lengths_concat(out, compose_pieces(seq![Piece::Retain((n - m) as nat)] + ta, tb));
                } else if m > n {
                    lemma_lengths_concat(out, compose_pieces(ta, seq![Piece::Retain((m - n) as nat)] + tb));
                } else {
                    lemma_lengths_concat(out, compose_pieces(ta, tb));
                }
                lemma_merge_push(raw, out[0]);
                lemma_lengths_push(raw, out[0]);
            }
            append(result, StringIrrevComponent::Retain(k));
            if n > m {
                *rem1 = Some(StringIrrevComponent::Retain(n - m));
            } else if m > n {
                *rem2 = Some(StringIrrevComponent::Retain(m - n));
            }
        },
        (StringIrrevComponent::Retain(n), StringIrrevComponent::Delete(m)) => {
            let k = if n < m { n } else { m };
            proof {
                out = seq![Piece::Delete(k as nat)];
                if n > m {
                    lemma_lengths_concat(out, compose_pieces(seq![Piece::Retain((n - m) as nat)] + ta, tb));
                } else if m > n {
                    lemma_lengths_concat(out, compose_pieces(ta, seq![Piece::Delete((m - n) as nat)] + tb));
                } else {
                    lemma_lengths_concat(out, compose_pieces(ta, tb));
                }
                lemma_merge_push(raw, out[0]);
                lemma_lengths_push(raw, out[0]);
            }
            append(result, StringIrrevComponent::Delete(k));
            if n > m {
                *rem1 = Some(StringIrrevComponent::Retain(n - m));
            } else if m > n {
                *rem2 = Some(StringIrrevComponent::Delete(m - n));
            }
        },
        (StringIrrevComponent::Insert(b), StringIrrevComponent::Retain(m)) => {
            let b_len = b.as_str().unicode_len();
            let k = if m < b_len { m } else { b_len };
            let kept = sub_string(b.as_str(), 0, k);
            proof {
                out = seq![Piece::Insert(kept@)];
                if b_len > m {
                    assert(kept@ =~= b@.take(m as int));
                    lemma_lengths_concat(out, compose_pieces(seq![Piece::Insert(b@.skip(m as int))] + ta, tb));
                } else if m > b_len {
                    assert(kept@ =~= b@);
                    lemma_lengths_concat(out, compose_pieces(ta, seq![Piece::Retain((m - b_len) as nat)] + tb));
                } else {
                    assert(kept@ =~= b@);
                    lemma_lengths_concat(out, compose_pieces(ta, tb));
                }
                lemma_merge_push(raw, out[0]);
                lemma_lengths_push(raw, out[0]);
            }
            append(result, StringIrrevComponent::Insert(kept));
            if b_len > m {
                let tail = sub_string(b.as_str(), m, b_len);
                assert(tail@ =~= b@.skip(m as int));
                *rem1 = Some(StringIrrevComponent::Insert(tail));
            } else if m > b_len {
                *rem2 = Some(StringIrrevComponent::Retain(m - b_len));
            }
        },
        (StringIrrevComponent::Insert(b), StringIrrevComponent::Delete(m)) => {
            let b_len = b.as_str().unicode_len();
            if b_len > m {
                let tail = sub_string(b.as_str(), m, b_len);
                assert(tail@ =~= b@.skip(m as int));
                *rem1 = Some(StringIrrevComponent::Insert(tail));
            } else if m > b_len {
                *rem2 = Some(StringIrrevComponent::Delete(m - b_len));
            }
            assert(raw + out =~= raw);
        },
    }
    assert(compose_pieces(ga, gb) =~= out + compose_pieces(rest_of(*rem1, ta), rest_of(*rem2, tb)));
    Ghost(out)
}

/// What the law of composition promises of `r`, the composition of `a` then `b`.
pub open spec fn composes(a: Seq<Piece<char>>, b: Seq<Piece<char>>, r: Seq<Piece<char>>) -> bool {
    forall|d: Seq<char>|
        src_len(a) <= d.len() && src_len(b) <= #[trigger] apply_ops(d, a).len() ==> src_len(r)
            <= d.len() && apply_ops(d, r) == apply_ops(apply_ops(d, a), b)
}

/// Compose two sequential string operations into one equivalent operation.
/// The composed operation must read at most `usize::MAX` items; it reads
/// at most the document's length whenever `op1` applies to a document and
/// `op2` to the result (`lemma_compose_pieces`).
pub fn compose(op1: &StringIrrevOp, op2: &StringIrrevOp) -> (r: StringIrrevOp)
    requires
        src_len(compose_pieces(pieces(op1@), pieces(op2@))) <= usize::MAX,
    ensures
        pieces(r@) == normalize_ops(merge_all(compose_pieces(pieces(op1@), pieces(op2@)))),
        is_normalized(pieces(r@)),
        composes(pieces(op1@), pieces(op2@), pieces(r@)),
{
    let ghost a = pieces(op1@);
    let ghost b = pieces(op2@);
    let ghost whole = compose_pieces(a, b);
    proof {
        lemma_compose_src_bound(a, b);
        assert(a.skip(0) =~= a);
        assert(b.skip(0) =~= b);
    }
    let mut result: StringIrrevOp = Vec::new();
    let mut i1: usize = 0;
    let mut i2: usize = 0;
    let mut rem1: Option<StringIrrevComponent> = None;
    let mut rem2: Option<StringIrrevComponent> = None;
    let ghost mut raw: Seq<Piece<char>> = Seq::empty();
    assert(raw + whole =~= whole);
    loop
        invariant
            i1 <= op1@.len(),
            i2 <= op2@.len(),
            a == pieces(op1@),
            b == pieces(op2@),
            whole == compose_pieces(a, b),
            src_len(whole) <= usize::MAX,
            raw + compose_pieces(rest_of(rem1, a.skip(i1 as int)), rest_of(rem2, b.skip(i2 as int)))
                == whole,
            pieces(result@) == merge_all(raw),
        ensures
            raw == whole,
            pieces(result@) == merge_all(raw),
        decreases rest_of(rem1, a.skip(i1 as int)).len() + rest_of(rem2, b.skip(i2 as int)).len(),
    {
        let ghost ra = rest_of(rem1, a.skip(i1 as int));
        let ghost rb = rest_of(rem2, b.skip(i2 as int));
        proof {
            lemma_merge_all(Seq::<char>::empty(), raw);
            lemma_lengths_concat(raw, compose_pieces(ra, rb));
        }
        let c1 = next_component(&mut rem1, op1, &mut i1);
        let c2 = next_component(&mut rem2, op2, &mut i2);
        let ghost ta = a.skip(i1 as int);
        let ghost tb = b.skip(i2 as int);
        match (c1, c2) {
            (None, None) => {
                assert(raw =~= whole);
                break;
            },
            (Some(c), None) => {
                proof {
                    assert(rb =~= Seq::<Piece<char>>::empty());
                    assert(compose_pieces(ra, rb) == ra);
                    assert(compose_pieces(ta, rb) == ta);
                    lemma_lengths_concat(seq![c@], ta);
                    lemma_merge_push(raw, c@);
                    lemma_lengths_push(raw, c@);
                    assert(raw + ra =~= raw.push(c@) + ta);
                }
                append(&mut result, c);
                proof {
                    raw = raw.push(c@);
                }
            },
            (None, Some(c)) => {
                proof {
                    assert(ra =~= Seq::<Piece<char>>::empty());
                    assert(compose_pieces(ra, rb) == rb);
                    assert(compose_pieces(ra, tb) == tb);
                    lemma_lengths_concat(seq![c@], tb);
                    lemma_merge_push(raw, c@);
                    lemma_lengths_push(raw, c@);
                    assert(raw + rb =~= raw.push(c@) + tb);
                }
                append(&mut result, c);
                proof {
                    raw = raw.push(c@);
                }
            },
            (Some(x1), Some(x2)) => {
                let Ghost(out) = compose_step(&mut result, &mut rem1, &mut rem2, x1, x2, Ghost(raw), Ghost(ta), Ghost(tb));
                proof {
                    assert(raw + compose_pieces(ra, rb) =~= (raw + out) + compose_pieces(
                        rest_of(rem1, ta),
                        rest_of(rem2, tb),
                    ));
                    raw = raw + out;
                }
            },
        }
    }
    proof {
        lemma_merge_all(Seq::<char>::empty(), raw);
    }
    let normalized = normalize(result);
    proof {
        assert forall|d: Seq<char>|
            src_len(a) <= d.len() && src_len(b) <= #[trigger] apply_ops(d, a).len() implies src_len(
                pieces(normalized@),
            ) <= d.len() && apply_ops(d, pieces(normalized@)) == apply_ops(apply_ops(d, a), b) by {
            lemma_compose_pieces(d, a, b);
            lemma_normalize(d, merge_all(whole));
            lemma_merge_all(d, whole);
        }
    }
    normalized
}


/// One step of transformation on the current component `o` of the
/// operation and `a` of the concurrent one.
fn transform_step(
    result: &mut StringIrrevOp,
    rem_op: &mut Option<StringIrrevComponent>,
    rem_ag: &mut Option<StringIrrevComponent>,
    o: StringIrrevComponent,
    a: StringIrrevComponent,
    left_wins: bool,
    Ghost(raw): Ghost<Seq<Piece<char>>>,
    Ghost(to): Ghost<Seq<Piece<char>>>,
    Ghost(ta): Ghost<Seq<Piece<char>>>,
) -> (emitted: Ghost<Seq<Piece<char>>>)
    requires
        *old(rem_op) == None::<StringIrrevComponent>,
        *old(rem_ag) == None::<StringIrrevComponent>,
        pieces(old(result)@) == merge_all(raw),
        src_len(raw) + src_len(transform_pieces(seq![o@] + to, seq![a@] + ta)) <= usize::MAX,
    ensures
        pieces(final(result)@) == merge_all(raw + emitted@),
        transform_pieces(seq![o@] + to, seq![a@] + ta) == emitted@ + transform_pieces(
            rest_of(*final(rem_op), to),
            rest_of(*final(rem_ag), ta),
        ),
        rest_of(*final(rem_op), to).len() + rest_of(*final(rem_ag), ta).len() < to.len() + ta.len()
            + 2,
{
    let ghost go = seq![o@] + to;
    let ghost ga = seq![a@] + ta;
    proof {
        assert(go.drop_first() =~= to);
        assert(ga.drop_first() =~= ta);
        assert(go[0] == o@);
        assert(ga[0] == a@);
        lemma_merge_all(Seq::<char>::empty(), raw);
    }
    let ghost mut out: Seq<Piece<char>> = Seq::empty();
    match (o, a) {
        (o, StringIrrevComponent::Insert(b)) => {
            let n = b.as_str().unicode_len();
            proof {
                out = seq![Piece::Retain(n as nat)];
                lemma_lengths_concat(out, transform_pieces(go, ta));
                lemma_merge_push(raw, out[0]);
                lemma_lengths_push(raw, out[0]);
            }
            if left_wins {
                *rem_op = Some(o);
                append(result, StringIrrevComponent::Retain(n));
            } else {
                append(result, StringIrrevComponent::Retain(n));
                *rem_op = Some(o);
            }
        },
        (StringIrrevComponent::Insert(b), a) => {
            proof {
                out = seq![Piece::Insert(b@)];
                lemma_lengths_concat(out, transform_pieces(to, ga));
                lemma_merge_push(raw, out[0]);
                lemma_lengths_push(raw, out[0]);
            }
            append(result, StringIrrevComponent::Insert(b));
            *rem_ag = Some(a);
        },
        (StringIrrevComponent::Retain(n), StringIrrevComponent::Retain(m)) => {
            let k = if n < m { n } else { m };
            proof {
                out = seq![Piece::Retain(k as nat)];
                if n > m {
                    lemma_lengths_concat(out, transform_pieces(seq![Piece::Retain((n - m) as nat)] + to, ta));
                } else if m > n {
                    lemma_lengths_concat(out, transform_pieces(to, seq![Piece::Retain((m - n) as nat)] + ta));
                } else {
                    lemma_lengths_concat(out, transform_pieces(to, ta));
                }
                lemma_merge_push(raw, out[0]);
                lemma_lengths_push(raw, out[0]);
            }
            append(result, StringIrrevComponent::Retain(k));
            if n > m {
                *rem_op = Some(StringIrrevComponent::Retain(n - m));
            } else if m > n {
                *rem_ag = Some(StringIrrevComponent::Retain(m - n));
            }
        },
        (StringIrrevComponent::Retain(n), StringIrrevComponent::Delete(m)) => {
            if n > m {
                *rem_op = Some(StringIrrevComponent::Retain(n - m));
            } else if m > n {
                *rem_ag = Some(StringIrrevComponent::Delete(m - n));
            }
            assert(raw + out =~= raw);
        },
        (StringIrrevComponent::Delete(n), StringIrrevComponent::Retain(m)) => {
            let k = if n < m { n } else { m };
            proof {
                out = seq![Piece::Delete(k as nat)];
                if n > m {
                    lemma_lengths_concat(out, transform_pieces(seq![Piece::Delete((n - m) as nat)] + to, ta));
                } else if m > n {
                    lemma_lengths_concat(out, transform_pieces(to, seq![Piece::Retain((m - n) as nat)] + ta));
                } else {
                    lemma_lengths_concat(out, transform_pieces(to, ta));
                }
                lemma_merge_push(raw, out[0]);
                lemma_lengths_push(raw, out[0]);
            }
            append(result, StringIrrevComponent::Delete(k));
            if n > m {
                *rem_op = Some(StringIrrevComponent::Delete(n - m));
            } else if m > n {
                *rem_ag = Some(StringIrrevComponent::Retain(m - n));
            }
        },
        (StringIrrevComponent::Delete(n), StringIrrevComponent::Delete(m)) => {
            if n > m {
                *rem_op = Some(StringIrrevComponent::Delete(n - m));
            } else if m > n {
                *rem_ag = Some(StringIrrevComponent::Delete(m - n));
            }
            assert(raw + out =~= raw);
        },
    }
    assert(transform_pieces(go, ga) =~= out + transform_pieces(rest_of(*rem_op, to), rest_of(*rem_ag, ta)));
    Ghost(out)
}

/// What transforming promises of `r`, the transform of `o` against `a`:
/// whenever both fit a document, `r` fits the document that `a` produces.
pub open spec fn fits_after(o: Seq<Piece<char>>, a: Seq<Piece<char>>, r: Seq<Piece<char>>) -> bool {
    forall|d: Seq<char>|
        src_len(o) <= d.len() && src_len(a) <= d.len() ==> src_len(r) <= #[trigger] apply_ops(
            d,
            a,
        ).len()
}

/// Transform `op` against `against`.  The transformed operation must read
/// at most `usize::MAX` items; when both operations apply to one document,
/// it reads at most the length of what `against` makes of it
/// (`lemma_transform_src`).
pub fn transform(op: &StringIrrevOp, against: &StringIrrevOp, left_wins: bool) -> (r: StringIrrevOp)
    requires
        src_len(transform_pieces(pieces(op@), pieces(against@))) <= usize::MAX,
    ensures
        pieces(r@) == normalize_ops(merge_all(transform_pieces(pieces(op@), pieces(against@)))),
        is_normalized(pieces(r@)),
        fits_after(pieces(op@), pieces(against@), pieces(r@)),
{
    let ghost o = pieces(op@);
    let ghost a = pieces(against@);
    let ghost whole = transform_pieces(o, a);
    proof {
        lemma_transform_src(o, a, 0);
        assert(o.skip(0) =~= o);
        assert(a.skip(0) =~= a);
    }
    let mut result: StringIrrevOp = Vec::new();
    let mut i1: usize = 0;
    let mut i2: usize = 0;
    let mut rem_op: Option<StringIrrevComponent> = None;
    let mut rem_ag: Option<StringIrrevComponent> = None;
    let ghost mut raw: Seq<Piece<char>> = Seq::empty();
    assert(raw + whole =~= whole);
    loop
        invariant
            i1 <= op@.len(),
            i2 <= against@.len(),
            o == pieces(op@),
            a == pieces(against@),
            whole == transform_pieces(o, a),
            src_len(whole) <= usize::MAX,
            raw + transform_pieces(rest_of(rem_op, o.skip(i1 as int)), rest_of(rem_ag, a.skip(i2 as int)))
                == whole,
            pieces(result@) == merge_all(raw),
        ensures
            raw == whole,
            pieces(result@) == merge_all(raw),
        decreases rest_of(rem_op, o.skip(i1 as int)).len() + rest_of(rem_ag, a.skip(i2 as int)).len(),
    {
        let ghost ro = rest_of(rem_op, o.skip(i1 as int));
        let ghost ra = rest_of(rem_ag, a.skip(i2 as int));
        proof {
            lemma_merge_all(Seq::<char>::empty(), raw);
            lemma_lengths_concat(raw, transform_pieces(ro, ra));
        }
        let c1 = next_component(&mut rem_op, op, &mut i1);
        let c2 = next_component(&mut rem_ag, against, &mut i2);
        let ghost to = o.skip(i1 as int);
        let ghost ta = a.skip(i2 as int);
        match (c1, c2) {
            (None, _) => {
                assert(ro =~= Seq::<Piece<char>>::empty());
                assert(raw =~= whole);
                break;
            },
            (Some(c), None) => {
                proof {
                    assert(ra =~= Seq::<Piece<char>>::empty());
                    assert(transform_pieces(ro, ra) == ro);
                    assert(transform_pieces(to, ra) == to);
                    lemma_lengths_concat(seq![c@], to);
                    lemma_merge_push(raw, c@);
                    lemma_lengths_push(raw, c@);
                    assert(raw + ro =~= raw.push(c@) + to);
                }
                append(&mut result, c);
                proof {
                    raw = raw.push(c@);
                }
            },
            (Some(x1), Some(x2)) => {
                let Ghost(out) = transform_step(&mut result, &mut rem_op, &mut rem_ag, x1, x2, left_wins, Ghost(raw), Ghost(to), Ghost(ta));
                proof {
                    assert(raw + transform_pieces(ro, ra) =~= (raw + out) + transform_pieces(
                        rest_of(rem_op, to),
                        rest_of(rem_ag, ta),
                    ));
                    raw = raw + out;
                }
            },
        }
    }
    proof {
        lemma_merge_all(Seq::<char>::empty(), raw);
    }
    let normalized = normalize(result);
    proof {
        assert forall|d: Seq<char>|
            src_len(o) <= d.len() && src_len(a) <= d.len() implies src_len(pieces(normalized@))
            <= #[trigger] apply_ops(d, a).len() by {
            lemma_transform_src(o, a, d.len());
            lemma_normalize(d, merge_all(whole));
            lemma_merge_all(d, whole);
            crate::ot_laws::lemma_apply_len(d, a);
        }
    }
    normalized
}

/// Convergence of `transform`: for two operations `a` and `b` on the same
/// text that never both insert at the same place, with `ta` what
/// `transform(a, b, _)` returns and `tb` what `transform(b, a, _)` returns,
/// applying `b` then `ta` gives what applying `a` then `tb` gives.
pub proof fn lemma_transform_convergence(
    d: Seq<char>,
    a: StringIrrevOp,
    b: StringIrrevOp,
    ta: StringIrrevOp,
    tb: StringIrrevOp,
)
    requires
        src_len(pieces(a@)) <= d.len(),
        src_len(pieces(b@)) <= d.len(),
        no_common_insert(pieces(a@), pieces(b@)),
        pieces(ta@) == normalize_ops(merge_all(transform_pieces(pieces(a@), pieces(b@)))),
        pieces(tb@) == normalize_ops(merge_all(transform_pieces(pieces(b@), pieces(a@)))),
    ensures
        apply_ops(apply_ops(d, pieces(b@)), pieces(ta@)) == apply_ops(
            apply_ops(d, pieces(a@)),
            pieces(tb@),
        ),
{
    lemma_transform_converges(d, pieces(a@), pieces(b@));
}

} // verus!
