//! Mathematical model shared by the irreversible operational-transformation
//! types: an operation is a sequence of retain / delete / insert pieces
//! over a document that is a sequence of items (bytes or characters).
use vstd::prelude::*;

verus! {

/// One piece of an operation, as a mathematical value.
pub ghost enum Piece<T> {
    Retain(nat),
    Delete(nat),
    Insert(Seq<T>),
}

/// Number of source items a piece consumes.
pub open spec fn piece_src<T>(c: Piece<T>) -> nat {
    match c {
        Piece::Retain(n) => n,
        Piece::Delete(n) => n,
        Piece::Insert(_) => 0,
    }
}

/// Number of items a piece produces.
pub open spec fn piece_dst<T>(c: Piece<T>) -> nat {
    match c {
        Piece::Retain(n) => n,
        Piece::Delete(_) => 0,
        Piece::Insert(s) => s.len(),
    }
}

/// Number of inserted items carried by a piece.
pub open spec fn piece_ins<T>(c: Piece<T>) -> nat {
    match c {
        Piece::Insert(s) => s.len(),
        _ => 0,
    }
}

/// A piece that has no effect: a zero retain, a zero delete or an empty insert.
pub open spec fn piece_is_empty<T>(c: Piece<T>) -> bool {
    match c {
        Piece::Retain(n) => n == 0,
        Piece::Delete(n) => n == 0,
        Piece::Insert(s) => s.len() == 0,
    }
}

/// Whether two pieces are of the same kind (and so can be merged).
pub open spec fn same_kind<T>(a: Piece<T>, b: Piece<T>) -> bool {
    match (a, b) {
        (Piece::Retain(_), Piece::Retain(_)) => true,
        (Piece::Delete(_), Piece::Delete(_)) => true,
        (Piece::Insert(_), Piece::Insert(_)) => true,
        _ => false,
    }
}

/// Total number of source items an operation consumes.
pub open spec fn src_len<T>(ops: Seq<Piece<T>>) -> nat
    decreases ops.len(),
{
    if ops.len() == 0 {
        0
    } else {
        piece_src(ops[0]) + src_len(ops.drop_first())
    }
}

/// Total number of items an operation produces from its consumed source.
pub open spec fn dst_len<T>(ops: Seq<Piece<T>>) -> nat
    decreases ops.len(),
{
    if ops.len() == 0 {
        0
    } else {
        piece_dst(ops[0]) + dst_len(ops.drop_first())
    }
}

/// Total number of items an operation inserts.
pub open spec fn ins_len<T>(ops: Seq<Piece<T>>) -> nat
    decreases ops.len(),
{
    if ops.len() == 0 {
        0
    } else {
        piece_ins(ops[0]) + ins_len(ops.drop_first())
    }
}

/// The document that results from applying `ops` to `d`; items past the
/// consumed source are kept unchanged.  Meaningful when `src_len(ops) <= d.len()`.
pub open spec fn apply_ops<T>(d: Seq<T>, ops: Seq<Piece<T>>) -> Seq<T>
    decreases ops.len(),
{
    if ops.len() == 0 {
        d
    } else {
        let rest = ops.drop_first();
        match ops[0] {
            Piece::Retain(n) => d.take(n as int) + apply_ops(d.skip(n as int), rest),
            Piece::Delete(n) => apply_ops(d.skip(n as int), rest),
            Piece::Insert(s) => s + apply_ops(d, rest),
        }
    }
}

/// Appends a piece, merging it into the last piece when both are of the same kind.
pub open spec fn push_merge<T>(r: Seq<Piece<T>>, c: Piece<T>) -> Seq<Piece<T>> {
    if r.len() > 0 && same_kind(r.last(), c) {
        r.drop_last().push(
            match (r.last(), c) {
                (Piece::Retain(n), Piece::Retain(m)) => Piece::Retain(n + m),
                (Piece::Delete(n), Piece::Delete(m)) => Piece::Delete(n + m),
                (Piece::Insert(s), Piece::Insert(t)) => Piece::Insert(s + t),
                _ => c,
            },
        )
    } else {
        r.push(c)
    }
}

/// Appends every piece of `raw` in order with `push_merge`.
pub open spec fn merge_all<T>(raw: Seq<Piece<T>>) -> Seq<Piece<T>>
    decreases raw.len(),
{
    if raw.len() == 0 {
        Seq::empty()
    } else {
        push_merge(merge_all(raw.drop_last()), raw.last())
    }
}

/// `ops` with its empty pieces left out.
pub open spec fn drop_empty<T>(ops: Seq<Piece<T>>) -> Seq<Piece<T>>
    decreases ops.len(),
{
    if ops.len() == 0 {
        Seq::empty()
    } else if piece_is_empty(ops.last()) {
        drop_empty(ops.drop_last())
    } else {
        drop_empty(ops.drop_last()).push(ops.last())
    }
}

/// `ops` with its trailing retains removed.
pub open spec fn trim_ops<T>(ops: Seq<Piece<T>>) -> Seq<Piece<T>>
    decreases ops.len(),
{
    if ops.len() > 0 && ops.last() is Retain {
        trim_ops(ops.drop_last())
    } else {
        ops
    }
}

/// The canonical form of an operation: empty pieces dropped, neighbours of
/// the same kind merged, trailing retains removed.
pub open spec fn normalize_ops<T>(ops: Seq<Piece<T>>) -> Seq<Piece<T>> {
    trim_ops(merge_all(drop_empty(ops)))
}

/// An operation in canonical form.
pub open spec fn is_normalized<T>(ops: Seq<Piece<T>>) -> bool {
    &&& forall|i: int| 0 <= i < ops.len() ==> !piece_is_empty(#[trigger] ops[i])
    &&& forall|i: int| 0 <= i < ops.len() - 1 ==> !same_kind(#[trigger] ops[i], ops[i + 1])
    &&& (ops.len() > 0 ==> !(ops.last() is Retain))
}

/// The pieces that composing `a` then `b` emits, one step at a time,
/// before neighbouring pieces are merged.
pub open spec fn compose_pieces<T>(a: Seq<Piece<T>>, b: Seq<Piece<T>>) -> Seq<Piece<T>>
    decreases a.len() + b.len(),
{
    if a.len() == 0 {
        b
    } else if b.len() == 0 {
        a
    } else {
        let a1 = a.drop_first();
        let b1 = b.drop_first();
        match (a[0], b[0]) {
            (Piece::Delete(n), _) => seq![Piece::Delete(n)] + compose_pieces(a1, b),
            (Piece::Retain(_), Piece::Insert(s)) => seq![Piece::Insert(s)] + compose_pieces(a, b1),
            (Piece::Insert(_), Piece::Insert(s)) => seq![Piece::Insert(s)] + compose_pieces(a, b1),
            (Piece::Retain(n), Piece::Retain(m)) => {
                if n > m {
                    seq![Piece::Retain(m)] + compose_pieces(seq![Piece::Retain((n - m) as nat)] + a1, b1)
                } else if m > n {
                    seq![Piece::Retain(n)] + compose_pieces(a1, seq![Piece::Retain((m - n) as nat)] + b1)
                } else {
                    seq![Piece::Retain(n)] + compose_pieces(a1, b1)
                }
            },
            (Piece::Retain(n), Piece::Delete(m)) => {
                if n > m {
                    seq![Piece::Delete(m)] + compose_pieces(seq![Piece::Retain((n - m) as nat)] + a1, b1)
                } else if m > n {
                    seq![Piece::Delete(n)] + compose_pieces(a1, seq![Piece::Delete((m - n) as nat)] + b1)
                } else {
                    seq![Piece::Delete(n)] + compose_pieces(a1, b1)
                }
            },
            (Piece::Insert(s), Piece::Retain(m)) => {
                if s.len() > m {
                    seq![Piece::Insert(s.take(m as int))] + compose_pieces(
                        seq![Piece::Insert(s.skip(m as int))] + a1,
                        b1,
                    )
                } else if m > s.len() {
                    seq![Piece::Insert(s)] + compose_pieces(
                        a1,
                        seq![Piece::Retain((m - s.len()) as nat)] + b1,
                    )
                } else {
                    seq![Piece::Insert(s)] + compose_pieces(a1, b1)
                }
            },
            (Piece::Insert(s), Piece::Delete(m)) => {
                if s.len() > m {
                    compose_pieces(seq![Piece::Insert(s.skip(m as int))] + a1, b1)
                } else if m > s.len() {
                    compose_pieces(a1, seq![Piece::Delete((m - s.len()) as nat)] + b1)
                } else {
                    compose_pieces(a1, b1)
                }
            },
        }
    }
}

/// The pieces that transforming `o` against a concurrent `a` emits, one step
/// at a time, before neighbouring pieces are merged.  Items inserted by `a`
/// are retained, items deleted by `a` are no longer retained or deleted.
pub open spec fn transform_pieces<T>(o: Seq<Piece<T>>, a: Seq<Piece<T>>) -> Seq<Piece<T>>
    decreases o.len() + a.len(),
{
    if o.len() == 0 {
        Seq::empty()
    } else if a.len() == 0 {
        o
    } else {
        let o1 = o.drop_first();
        let a1 = a.drop_first();
        match (o[0], a[0]) {
            (_, Piece::Insert(s)) => seq![Piece::Retain(s.len())] + transform_pieces(o, a1),
            (Piece::Insert(s), _) => seq![Piece::Insert(s)] + transform_pieces(o1, a),
            (Piece::Retain(n), Piece::Retain(m)) => {
                if n > m {
                    seq![Piece::Retain(m)] + transform_pieces(seq![Piece::Retain((n - m) as nat)] + o1, a1)
                } else if m > n {
                    seq![Piece::Retain(n)] + transform_pieces(o1, seq![Piece::Retain((m - n) as nat)] + a1)
                } else {
                    seq![Piece::Retain(n)] + transform_pieces(o1, a1)
                }
            },
            (Piece::Retain(n), Piece::Delete(m)) => {
                if n > m {
                    transform_pieces(seq![Piece::Retain((n - m) as nat)] + o1, a1)
                } else if m > n {
                    transform_pieces(o1, seq![Piece::Delete((m - n) as nat)] + a1)
                } else {
                    transform_pieces(o1, a1)
                }
            },
            (Piece::Delete(n), Piece::Retain(m)) => {
                if n > m {
                    seq![Piece::Delete(m)] + transform_pieces(seq![Piece::Delete((n - m) as nat)] + o1, a1)
                } else if m > n {
                    seq![Piece::Delete(n)] + transform_pieces(o1, seq![Piece::Retain((m - n) as nat)] + a1)
                } else {
                    seq![Piece::Delete(n)] + transform_pieces(o1, a1)
                }
            },
            (Piece::Delete(n), Piece::Delete(m)) => {
                if n > m {
                    transform_pieces(seq![Piece::Delete((n - m) as nat)] + o1, a1)
                } else if m > n {
                    transform_pieces(o1, seq![Piece::Delete((m - n) as nat)] + a1)
                } else {
                    transform_pieces(o1, a1)
                }
            },
        }
    }
}

} // verus!
