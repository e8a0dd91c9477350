//! Laws of the operation model: how lengths add up, how applying a
//! concatenation splits, and that merging, dropping empty pieces, trimming,
//! composing and transforming behave as documents expect.
use vstd::prelude::*;
use crate::ot_model::{
    Piece, piece_src, piece_dst, piece_ins, piece_is_empty, same_kind, src_len, dst_len, ins_len,
    apply_ops, push_merge, merge_all, drop_empty, trim_ops, normalize_ops, is_normalized,
    compose_pieces, transform_pieces,
};

verus! {

/// Source, produced and inserted lengths add up over a concatenation.
pub proof fn lemma_lengths_concat<T>(x: Seq<Piece<T>>, y: Seq<Piece<T>>)
    ensures
        src_len(x + y) == src_len(x) + src_len(y),
        dst_len(x + y) == dst_len(x) + dst_len(y),
        ins_len(x + y) == ins_len(x) + ins_len(y),
    decreases x.len(),
{
    if x.len() == 0 {
        assert(x + y =~= y);
    } else {
        lemma_lengths_concat(x.drop_first(), y);
        assert((x + y).drop_first() =~= x.drop_first() + y);
        assert((x + y)[0] == x[0]);
    }
}

/// Lengths of a single-piece operation.
pub proof fn lemma_lengths_single<T>(c: Piece<T>)
    ensures
        src_len(seq![c]) == piece_src(c),
        dst_len(seq![c]) == piece_dst(c),
        ins_len(seq![c]) == piece_ins(c),
{
    assert(seq![c].drop_first() =~= Seq::<Piece<T>>::empty());
    assert(src_len(Seq::<Piece<T>>::empty()) == 0);
    assert(dst_len(Seq::<Piece<T>>::empty()) == 0);
    assert(ins_len(Seq::<Piece<T>>::empty()) == 0);
}

/// Lengths of an operation with one piece added at its end.
pub proof fn lemma_lengths_push<T>(x: Seq<Piece<T>>, c: Piece<T>)
    ensures
        src_len(x.push(c)) == src_len(x) + piece_src(c),
        dst_len(x.push(c)) == dst_len(x) + piece_dst(c),
        ins_len(x.push(c)) == ins_len(x) + piece_ins(c),
{
    lemma_lengths_concat(x, seq![c]);
    lemma_lengths_single(c);
    assert(x + seq![c] =~= x.push(c));
}

/// Applying an operation changes the document length by what it consumes and produces.
pub proof fn lemma_apply_len<T>(d: Seq<T>, ops: Seq<Piece<T>>)
    requires
        src_len(ops) <= d.len(),
    ensures
        apply_ops(d, ops).len() == d.len() - src_len(ops) + dst_len(ops),
    decreases ops.len(),
{
    if ops.len() > 0 {
        match ops[0] {
            Piece::Retain(n) => lemma_apply_len(d.skip(n as int), ops.drop_first()),
            Piece::Delete(n) => lemma_apply_len(d.skip(n as int), ops.drop_first()),
            Piece::Insert(s) => lemma_apply_len(d, ops.drop_first()),
        }
    }
}

/// Unfolds `apply_ops` on an operation that starts with the given piece.
pub proof fn lemma_apply_cons<T>(d: Seq<T>, c: Piece<T>, rest: Seq<Piece<T>>)
    ensures
        apply_ops(d, seq![c] + rest) == match c {
            Piece::Retain(n) => d.take(n as int) + apply_ops(d.skip(n as int), rest),
            Piece::Delete(n) => apply_ops(d.skip(n as int), rest),
            Piece::Insert(s) => s + apply_ops(d, rest),
        },
        src_len(seq![c] + rest) == piece_src(c) + src_len(rest),
        dst_len(seq![c] + rest) == piece_dst(c) + dst_len(rest),
        ins_len(seq![c] + rest) == piece_ins(c) + ins_len(rest),
{
    assert((seq![c] + rest).drop_first() =~= rest);
    assert((seq![c] + rest)[0] == c);
}

/// Applying a concatenation applies the first part to the source it
/// consumes and the second part to what follows.
pub proof fn lemma_apply_concat<T>(d: Seq<T>, x: Seq<Piece<T>>, y: Seq<Piece<T>>)
    requires
        src_len(x) + src_len(y) <= d.len(),
    ensures
        apply_ops(d, x + y) == apply_ops(d.take(src_len(x) as int), x) + apply_ops(
            d.skip(src_len(x) as int),
            y,
        ),
    decreases x.len(),
{
    let sx = src_len(x) as int;
    if x.len() == 0 {
        assert(x + y =~= y);
        assert(d.take(0) =~= Seq::<T>::empty());
        assert(d.skip(0) =~= d);
        assert(apply_ops(d.take(0), x) + apply_ops(d, y) =~= apply_ops(d, y));
    } else {
        let x1 = x.drop_first();
        let s1 = src_len(x1) as int;
        assert((x + y).drop_first() =~= x1 + y);
        assert((x + y)[0] == x[0]);
        match x[0] {
            Piece::Retain(n) => {
                let n = n as int;
                lemma_apply_concat(d.skip(n), x1, y);
                assert(d.take(sx).take(n) =~= d.take(n));
                assert(d.take(sx).skip(n) =~= d.skip(n).take(s1));
                assert(d.skip(sx) =~= d.skip(n).skip(s1));
                assert(apply_ops(d, x + y) =~= d.take(n) + (apply_ops(d.skip(n).take(s1), x1)
                    + apply_ops(d.skip(n).skip(s1), y)));
            },
            Piece::Delete(n) => {
                let n = n as int;
                lemma_apply_concat(d.skip(n), x1, y);
                assert(d.take(sx).skip(n) =~= d.skip(n).take(s1));
                assert(d.skip(sx) =~= d.skip(n).skip(s1));
            },
            Piece::Insert(s) => {
                lemma_apply_concat(d, x1, y);
                assert(apply_ops(d, x + y) =~= s + (apply_ops(d.take(s1), x1) + apply_ops(
                    d.skip(s1),
                    y,
                )));
            },
        }
    }
}

/// Items past what an operation consumes come out unchanged at the end.
pub proof fn lemma_apply_tail<T>(d: Seq<T>, x: Seq<Piece<T>>)
    requires
        src_len(x) <= d.len(),
    ensures
        apply_ops(d, x) == apply_ops(d.take(src_len(x) as int), x) + d.skip(src_len(x) as int),
{
    assert(x + Seq::<Piece<T>>::empty() =~= x);
    lemma_apply_concat(d, x, Seq::empty());
}

/// Applying an operation that ends with one more piece.
pub proof fn lemma_apply_push<T>(d: Seq<T>, x: Seq<Piece<T>>, c: Piece<T>)
    requires
        src_len(x) + piece_src(c) <= d.len(),
    ensures
        apply_ops(d, x.push(c)) == apply_ops(d.take(src_len(x) as int), x) + apply_ops(
            d.skip(src_len(x) as int),
            seq![c],
        ),
{
    lemma_lengths_single(c);
    assert(x + seq![c] =~= x.push(c));
    lemma_apply_concat(d, x, seq![c]);
}

/// Applying a single piece.
pub proof fn lemma_apply_single<T>(e: Seq<T>, c: Piece<T>)
    requires
        piece_src(c) <= e.len(),
    ensures
        apply_ops(e, seq![c]) == match c {
            Piece::Retain(n) => e,
            Piece::Delete(n) => e.skip(n as int),
            Piece::Insert(s) => s + e,
        },
{
    assert(seq![c] =~= seq![c] + Seq::<Piece<T>>::empty());
    lemma_apply_cons(e, c, Seq::empty());
    match c {
        Piece::Retain(n) => {
            assert(e.take(n as int) + e.skip(n as int) =~= e);
        },
        _ => {},
    }
}

/// Merging a piece into the last one changes nothing that `apply_ops` sees.
pub proof fn lemma_push_merge<T>(d: Seq<T>, r: Seq<Piece<T>>, c: Piece<T>)
    ensures
        src_len(push_merge(r, c)) == src_len(r.push(c)),
        dst_len(push_merge(r, c)) == dst_len(r.push(c)),
        ins_len(push_merge(r, c)) == ins_len(r.push(c)),
        src_len(r.push(c)) <= d.len() ==> apply_ops(d, push_merge(r, c)) == apply_ops(
            d,
            r.push(c),
        ),
{
    lemma_lengths_push(r, c);
    if r.len() > 0 && same_kind(r.last(), c) {
        let r1 = r.drop_last();
        let l = r.last();
        assert(r1.push(l) =~= r);
        let m = match (l, c) {
            (Piece::Retain(n), Piece::Retain(k)) => Piece::Retain(n + k),
            (Piece::Delete(n), Piece::Delete(k)) => Piece::Delete(n + k),
            (Piece::Insert(s), Piece::Insert(t)) => Piece::Insert(s + t),
            _ => c,
        };
        assert(push_merge(r, c) == r1.push(m));
        lemma_lengths_push(r1, m);
        lemma_lengths_push(r1, l);
        assert(piece_src(m) == piece_src(l) + piece_src(c));
        assert(piece_dst(m) == piece_dst(l) + piece_dst(c));
        assert(piece_ins(m) == piece_ins(l) + piece_ins(c));
        if src_len(r.push(c)) <= d.len() {
            let s1 = src_len(r1) as int;
            let e = d.skip(s1);
            assert(r.push(c) =~= r1 + seq![l, c]);
            assert(seq![l, c] =~= seq![l] + seq![c]);
            lemma_lengths_single(l);
            lemma_lengths_single(c);
            lemma_lengths_concat(seq![l], seq![c]);
            lemma_apply_concat(d, r1, seq![l, c]);
            lemma_apply_push(d, r1, m);
            lemma_apply_cons(e, l, seq![c]);
            lemma_apply_single(e, m);
            match (l, c) {
                (Piece::Retain(n), Piece::Retain(k)) => {
                    lemma_apply_single(e.skip(n as int), c);
                    assert(e.take(n as int) + e.skip(n as int) =~= e);
                },
                (Piece::Delete(n), Piece::Delete(k)) => {
                    lemma_apply_single(e.skip(n as int), c);
                    assert(e.skip(n as int).skip(k as int) =~= e.skip((n + k) as int));
                },
                (Piece::Insert(s), Piece::Insert(t)) => {
                    lemma_apply_single(e, c);
                    assert(s + (t + e) =~= (s + t) + e);
                },
                _ => {},
            }
        }
    } else {
    }
}

/// Merging neighbours of the same kind changes nothing that `apply_ops` sees.
pub proof fn lemma_merge_all<T>(d: Seq<T>, raw: Seq<Piece<T>>)
    ensures
        src_len(merge_all(raw)) == src_len(raw),
        dst_len(merge_all(raw)) == dst_len(raw),
        ins_len(merge_all(raw)) == ins_len(raw),
        src_len(raw) <= d.len() ==> apply_ops(d, merge_all(raw)) == apply_ops(d, raw),
    decreases raw.len(),
{
    if raw.len() > 0 {
        let r1 = raw.drop_last();
        let c = raw.last();
        let m = merge_all(r1);
        assert(r1.push(c) =~= raw);
        lemma_lengths_push(r1, c);
        lemma_lengths_push(m, c);
        lemma_push_merge(d, m, c);
        if src_len(raw) <= d.len() {
            let s1 = src_len(r1) as int;
            lemma_merge_all(d.take(s1), r1);
            lemma_apply_push(d, m, c);
            lemma_apply_push(d, r1, c);
        } else {
            lemma_merge_all(d, r1);
        }
    }
}

/// An empty piece has no effect.
pub proof fn lemma_apply_empty_piece<T>(e: Seq<T>, c: Piece<T>)
    requires
        piece_is_empty(c),
    ensures
        apply_ops(e, seq![c]) == e,
        piece_src(c) == 0,
        piece_dst(c) == 0,
        piece_ins(c) == 0,
{
    lemma_apply_single(e, c);
    match c {
        Piece::Delete(n) => {
            assert(e.skip(0) =~= e);
        },
        Piece::Insert(s) => {
            assert(s + e =~= e);
        },
        _ => {},
    }
}

/// Leaving out empty pieces changes nothing that `apply_ops` sees.
pub proof fn lemma_drop_empty<T>(d: Seq<T>, ops: Seq<Piece<T>>)
    ensures
        src_len(drop_empty(ops)) == src_len(ops),
        dst_len(drop_empty(ops)) == dst_len(ops),
        ins_len(drop_empty(ops)) == ins_len(ops),
        forall|i: int|
            0 <= i < drop_empty(ops).len() ==> !piece_is_empty(#[trigger] drop_empty(ops)[i]),
        src_len(ops) <= d.len() ==> apply_ops(d, drop_empty(ops)) == apply_ops(d, ops),
    decreases ops.len(),
{
    if ops.len() > 0 {
        let o1 = ops.drop_last();
        let c = ops.last();
        assert(o1.push(c) =~= ops);
        lemma_lengths_push(o1, c);
        let s1 = src_len(o1) as int;
        if src_len(ops) <= d.len() {
            lemma_drop_empty(d.take(s1), o1);
            lemma_apply_push(d, o1, c);
        } else {
            lemma_drop_empty(d, o1);
        }
        let z = drop_empty(o1);
        if piece_is_empty(c) {
            lemma_apply_empty_piece(d.skip(s1), c);
            if src_len(ops) <= d.len() {
                lemma_apply_tail(d, z);
                lemma_apply_tail(d, o1);
            }
        } else {
            lemma_lengths_push(z, c);
            if src_len(ops) <= d.len() {
                lemma_apply_push(d, z, c);
            }
        }
    }
}

/// Removing trailing retains changes nothing that `apply_ops` sees.
pub proof fn lemma_trim<T>(d: Seq<T>, ops: Seq<Piece<T>>)
    ensures
        src_len(trim_ops(ops)) <= src_len(ops),
        ins_len(trim_ops(ops)) == ins_len(ops),
        trim_ops(ops).len() <= ops.len(),
        forall|i: int| 0 <= i < trim_ops(ops).len() ==> trim_ops(ops)[i] == ops[i],
        trim_ops(ops).len() > 0 ==> !(trim_ops(ops).last() is Retain),
        src_len(ops) <= d.len() ==> apply_ops(d, trim_ops(ops)) == apply_ops(d, ops),
    decreases ops.len(),
{
    if ops.len() > 0 && ops.last() is Retain {
        let o1 = ops.drop_last();
        let c = ops.last();
        assert(o1.push(c) =~= ops);
        lemma_lengths_push(o1, c);
        lemma_trim(d, o1);
        if src_len(ops) <= d.len() {
            let s1 = src_len(o1) as int;
            lemma_apply_push(d, o1, c);
            lemma_apply_single(d.skip(s1), c);
            lemma_apply_tail(d, o1);
        }
    }
}

/// Merging pieces that are all non-empty yields an operation with no empty
/// piece and no two neighbours of the same kind.
pub proof fn lemma_merge_all_shape<T>(raw: Seq<Piece<T>>)
    requires
        forall|i: int| 0 <= i < raw.len() ==> !piece_is_empty(#[trigger] raw[i]),
    ensures
        forall|i: int|
            0 <= i < merge_all(raw).len() ==> !piece_is_empty(#[trigger] merge_all(raw)[i]),
        forall|i: int|
            0 <= i < merge_all(raw).len() - 1 ==> !same_kind(
                #[trigger] merge_all(raw)[i],
                merge_all(raw)[i + 1],
            ),
        merge_all(raw).len() > 0 ==> raw.len() > 0 && same_kind(
            merge_all(raw).last(),
            raw.last(),
        ),
    decreases raw.len(),
{
    if raw.len() > 0 {
        let r1 = raw.drop_last();
        assert forall|i: int| 0 <= i < r1.len() implies !piece_is_empty(#[trigger] r1[i]) by {
            assert(r1[i] == raw[i]);
        }
        lemma_merge_all_shape(r1);
        assert(!piece_is_empty(raw[raw.len() - 1]));
    }
}

/// Normalizing yields an operation in canonical form that `apply_ops` cannot
/// tell from the operation it came from.
pub proof fn lemma_normalize<T>(d: Seq<T>, ops: Seq<Piece<T>>)
    ensures
        is_normalized(normalize_ops(ops)),
        src_len(normalize_ops(ops)) <= src_len(ops),
        ins_len(normalize_ops(ops)) == ins_len(ops),
        src_len(ops) <= d.len() ==> apply_ops(d, normalize_ops(ops)) == apply_ops(d, ops),
{
    let z = drop_empty(ops);
    let m = merge_all(z);
    lemma_drop_empty(d, ops);
    lemma_merge_all(d, z);
    lemma_merge_all_shape(z);
    lemma_trim(d, m);
    let t = trim_ops(m);
    assert forall|i: int| 0 <= i < t.len() implies !piece_is_empty(#[trigger] t[i]) by {
        assert(t[i] == m[i]);
    }
    assert forall|i: int| 0 <= i < t.len() - 1 implies !same_kind(#[trigger] t[i], t[i + 1]) by {
        assert(t[i] == m[i]);
        assert(t[i + 1] == m[i + 1]);
    }
}


/// The facts a step of the composition proof relies on for the remaining
/// operations `a2` and `b2` applied to `d2`.
pub open spec fn compose_holds<T>(d2: Seq<T>, a2: Seq<Piece<T>>, b2: Seq<Piece<T>>) -> bool {
    &&& src_len(compose_pieces(a2, b2)) <= d2.len()
    &&& apply_ops(d2, compose_pieces(a2, b2)) == apply_ops(apply_ops(d2, a2), b2)
}

proof fn compose_step_retain_retain<T>(d: Seq<T>, a: Seq<Piece<T>>, b: Seq<Piece<T>>)
    requires
        a.len() > 0,
        b.len() > 0,
        a[0] is Retain,
        b[0] is Retain,
        src_len(a) <= d.len(),
        src_len(b) <= apply_ops(d, a).len(),
        ({
            let (n, m) = (a[0]->Retain_0, b[0]->Retain_0);
            let a1 = a.drop_first();
            let b1 = b.drop_first();
            if n > m {
                compose_holds(d.skip(m as int), seq![Piece::Retain((n - m) as nat)] + a1, b1)
            } else if m > n {
                compose_holds(d.skip(n as int), a1, seq![Piece::Retain((m - n) as nat)] + b1)
            } else {
                compose_holds(d.skip(n as int), a1, b1)
            }
        }),
    ensures
        compose_holds(d, a, b),
{
    let n = a[0]->Retain_0;
    let m = b[0]->Retain_0;
    let a1 = a.drop_first();
    let b1 = b.drop_first();
    assert(seq![a[0]] + a1 =~= a);
    assert(seq![b[0]] + b1 =~= b);
    lemma_apply_cons(d, a[0], a1);
    let e = apply_ops(d, a);
    lemma_apply_cons(e, b[0], b1);
    let f = apply_ops(d.skip(n as int), a1);
    lemma_apply_len(d.skip(n as int), a1);
    assert(e == d.take(n as int) + f);
    if n > m {
        let a2 = seq![Piece::Retain((n - m) as nat)] + a1;
        let dm = d.skip(m as int);
        lemma_apply_cons(dm, Piece::Retain((n - m) as nat), a1);
        assert(dm.skip((n - m) as int) =~= d.skip(n as int));
        assert(dm.take((n - m) as int) =~= d.take(n as int).skip(m as int));
        assert(e.take(m as int) =~= d.take(m as int));
        assert(e.skip(m as int) =~= d.take(n as int).skip(m as int) + f);
        assert(apply_ops(dm, a2) == e.skip(m as int));
        assert(compose_pieces(a, b) == seq![Piece::Retain(m)] + compose_pieces(a2, b1));
        lemma_apply_cons(d, Piece::Retain(m), compose_pieces(a2, b1));
        assert(apply_ops(d, compose_pieces(a, b)) == d.take(m as int) + apply_ops(e.skip(m as int), b1));
        assert(compose_holds(d, a, b));
    } else if m > n {
        let b2 = seq![Piece::Retain((m - n) as nat)] + b1;
        lemma_apply_cons(f, Piece::Retain((m - n) as nat), b1);
        assert(e.take(m as int) =~= d.take(n as int) + f.take((m - n) as int));
        assert(e.skip(m as int) =~= f.skip((m - n) as int));
        lemma_apply_cons(d, Piece::Retain(n), compose_pieces(a1, b2));
        assert(apply_ops(d, compose_pieces(a, b)) == d.take(n as int) + (f.take((m - n) as int) + apply_ops(e.skip(m as int), b1)));
        assert(apply_ops(e, b) == (d.take(n as int) + f.take((m - n) as int)) + apply_ops(e.skip(m as int), b1));
        assert(d.take(n as int) + (f.take((m - n) as int) + apply_ops(e.skip(m as int), b1)) =~= (d.take(n as int) + f.take((m - n) as int)) + apply_ops(e.skip(m as int), b1));
        assert(compose_holds(d, a, b));
    } else {
        assert(e.take(m as int) =~= d.take(n as int));
        assert(e.skip(m as int) =~= f);
        lemma_apply_cons(d, Piece::Retain(n), compose_pieces(a1, b1));
    }
        
}

proof fn compose_step_retain_delete<T>(d: Seq<T>, a: Seq<Piece<T>>, b: Seq<Piece<T>>)
    requires
        a.len() > 0,
        b.len() > 0,
        a[0] is Retain,
        b[0] is Delete,
        src_len(a) <= d.len(),
        src_len(b) <= apply_ops(d, a).len(),
        ({
            let (n, m) = (a[0]->Retain_0, b[0]->Delete_0);
            let a1 = a.drop_first();
            let b1 = b.drop_first();
            if n > m {
                compose_holds(d.skip(m as int), seq![Piece::Retain((n - m) as nat)] + a1, b1)
            } else if m > n {
                compose_holds(d.skip(n as int), a1, seq![Piece::Delete((m - n) as nat)] + b1)
            } else {
                compose_holds(d.skip(n as int), a1, b1)
            }
        }),
    ensures
        compose_holds(d, a, b),
{
    let n = a[0]->Retain_0;
    let m = b[0]->Delete_0;
    let a1 = a.drop_first();
    let b1 = b.drop_first();
    assert(seq![a[0]] + a1 =~= a);
    assert(seq![b[0]] + b1 =~= b);
    lemma_apply_cons(d, a[0], a1);
    let e = apply_ops(d, a);
    lemma_apply_cons(e, b[0], b1);
    let f = apply_ops(d.skip(n as int), a1);
    lemma_apply_len(d.skip(n as int), a1);
    assert(e == d.take(n as int) + f);
    if n > m {
        let a2 = seq![Piece::Retain((n - m) as nat)] + a1;
        let dm = d.skip(m as int);
        lemma_apply_cons(dm, Piece::Retain((n - m) as nat), a1);
        assert(dm.skip((n - m) as int) =~= d.skip(n as int));
        assert(dm.take((n - m) as int) =~= d.take(n as int).skip(m as int));
        assert(e.skip(m as int) =~= d.take(n as int).skip(m as int) + f);
        lemma_apply_cons(d, Piece::Delete(m), compose_pieces(a2, b1));
    } else if m > n {
        let b2 = seq![Piece::Delete((m - n) as nat)] + b1;
        lemma_apply_cons(f, Piece::Delete((m - n) as nat), b1);
        assert(e.skip(m as int) =~= f.skip((m - n) as int));
        lemma_apply_cons(d, Piece::Delete(n), compose_pieces(a1, b2));
    } else {
        assert(e.skip(m as int) =~= f);
        lemma_apply_cons(d, Piece::Delete(n), compose_pieces(a1, b1));
    }
}

proof fn compose_step_insert_retain<T>(d: Seq<T>, a: Seq<Piece<T>>, b: Seq<Piece<T>>)
    requires
        a.len() > 0,
        b.len() > 0,
        a[0] is Insert,
        b[0] is Retain,
        src_len(a) <= d.len(),
        src_len(b) <= apply_ops(d, a).len(),
        ({
            let (s, m) = (a[0]->Insert_0, b[0]->Retain_0);
            let a1 = a.drop_first();
            let b1 = b.drop_first();
            if s.len() > m {
                compose_holds(d, seq![Piece::Insert(s.skip(m as int))] + a1, b1)
            } else if m > s.len() {
                compose_holds(d, a1, seq![Piece::Retain((m - s.len()) as nat)] + b1)
            } else {
                compose_holds(d, a1, b1)
            }
        }),
    ensures
        compose_holds(d, a, b),
{
    let s = a[0]->Insert_0;
    let m = b[0]->Retain_0;
    let a1 = a.drop_first();
    let b1 = b.drop_first();
    assert(seq![a[0]] + a1 =~= a);
    assert(seq![b[0]] + b1 =~= b);
    lemma_apply_cons(d, a[0], a1);
    let e = apply_ops(d, a);
    lemma_apply_cons(e, b[0], b1);
    let f = apply_ops(d, a1);
    lemma_apply_len(d, a1);
    assert(e == s + f);
    if s.len() > m {
        let a2 = seq![Piece::Insert(s.skip(m as int))] + a1;
        lemma_apply_cons(d, Piece::Insert(s.skip(m as int)), a1);
        assert(e.take(m as int) =~= s.take(m as int));
        assert(e.skip(m as int) =~= s.skip(m as int) + f);
        assert(apply_ops(d, a2) == e.skip(m as int));
        lemma_apply_cons(d, Piece::Insert(s.take(m as int)), compose_pieces(a2, b1));
        assert(compose_holds(d, a, b));
    } else if m > s.len() {
        let k = (m - s.len()) as nat;
        let b2 = seq![Piece::Retain(k)] + b1;
        lemma_apply_cons(f, Piece::Retain(k), b1);
        assert(e.take(m as int) =~= s + f.take(k as int));
        assert(e.skip(m as int) =~= f.skip(k as int));
        lemma_apply_cons(d, Piece::Insert(s), compose_pieces(a1, b2));
        assert(apply_ops(d, compose_pieces(a, b)) == s + (f.take(k as int) + apply_ops(e.skip(m as int), b1)));
        assert(apply_ops(e, b) == (s + f.take(k as int)) + apply_ops(e.skip(m as int), b1));
        assert(s + (f.take(k as int) + apply_ops(e.skip(m as int), b1)) =~= (s + f.take(k as int)) + apply_ops(e.skip(m as int), b1));
        assert(compose_holds(d, a, b));
    } else {
        assert(e.take(m as int) =~= s);
        assert(e.skip(m as int) =~= f);
        lemma_apply_cons(d, Piece::Insert(s), compose_pieces(a1, b1));
    }
        
}

proof fn compose_step_insert_delete<T>(d: Seq<T>, a: Seq<Piece<T>>, b: Seq<Piece<T>>)
    requires
        a.len() > 0,
        b.len() > 0,
        a[0] is Insert,
        b[0] is Delete,
        src_len(a) <= d.len(),
        src_len(b) <= apply_ops(d, a).len(),
        ({
            let (s, m) = (a[0]->Insert_0, b[0]->Delete_0);
            let a1 = a.drop_first();
            let b1 = b.drop_first();
            if s.len() > m {
                compose_holds(d, seq![Piece::Insert(s.skip(m as int))] + a1, b1)
            } else if m > s.len() {
                compose_holds(d, a1, seq![Piece::Delete((m - s.len()) as nat)] + b1)
            } else {
                compose_holds(d, a1, b1)
            }
        }),
    ensures
        compose_holds(d, a, b),
{
    let s = a[0]->Insert_0;
    let m = b[0]->Delete_0;
    let a1 = a.drop_first();
    let b1 = b.drop_first();
    assert(seq![a[0]] + a1 =~= a);
    assert(seq![b[0]] + b1 =~= b);
    lemma_apply_cons(d, a[0], a1);
    let e = apply_ops(d, a);
    lemma_apply_cons(e, b[0], b1);
    let f = apply_ops(d, a1);
    lemma_apply_len(d, a1);
    assert(e == s + f);
    if s.len() > m {
        lemma_apply_cons(d, Piece::Insert(s.skip(m as int)), a1);
        assert(e.skip(m as int) =~= s.skip(m as int) + f);
    } else if m > s.len() {
        let k = (m - s.len()) as nat;
        lemma_apply_cons(f, Piece::Delete(k), b1);
        assert(e.skip(m as int) =~= f.skip(k as int));
    } else {
        assert(e.skip(m as int) =~= f);
    }
}

/// Composing `a` then `b` yields a single operation with the same effect as
/// applying `a` and then `b`, whenever both applications are defined.
pub proof fn lemma_compose_pieces<T>(d: Seq<T>, a: Seq<Piece<T>>, b: Seq<Piece<T>>)
    requires
        src_len(a) <= d.len(),
        src_len(b) <= apply_ops(d, a).len(),
    ensures
        src_len(compose_pieces(a, b)) <= d.len(),
        apply_ops(d, compose_pieces(a, b)) == apply_ops(apply_ops(d, a), b),
    decreases a.len() + b.len(),
{
    lemma_apply_len(d, a);
    if a.len() > 0 && b.len() > 0 {
        let a1 = a.drop_first();
        let b1 = b.drop_first();
        assert(seq![a[0]] + a1 =~= a);
        assert(seq![b[0]] + b1 =~= b);
        lemma_apply_cons(d, a[0], a1);
        let e = apply_ops(d, a);
        lemma_apply_cons(e, b[0], b1);
        match (a[0], b[0]) {
            (Piece::Delete(n), _) => {
                lemma_apply_len(d.skip(n as int), a1);
                lemma_compose_pieces(d.skip(n as int), a1, b);
                lemma_apply_cons(d, Piece::Delete(n), compose_pieces(a1, b));
            },
            (Piece::Retain(_), Piece::Insert(s)) => {
                lemma_compose_pieces(d, a, b1);
                lemma_apply_cons(d, Piece::Insert(s), compose_pieces(a, b1));
            },
            (Piece::Insert(_), Piece::Insert(s)) => {
                lemma_compose_pieces(d, a, b1);
                lemma_apply_cons(d, Piece::Insert(s), compose_pieces(a, b1));
            },
            (Piece::Retain(n), Piece::Retain(m)) => {
                lemma_apply_len(d.skip(n as int), a1);
                if n > m {
                    let a2 = seq![Piece::Retain((n - m) as nat)] + a1;
                    lemma_apply_cons(d.skip(m as int), Piece::Retain((n - m) as nat), a1);
                    assert(d.skip(m as int).skip((n - m) as int) =~= d.skip(n as int));
                    lemma_apply_len(d.skip(m as int), a2);
                    lemma_compose_pieces(d.skip(m as int), a2, b1);
                } else if m > n {
                    let b2 = seq![Piece::Retain((m - n) as nat)] + b1;
                    lemma_apply_cons(e, Piece::Retain((m - n) as nat), b1);
                    lemma_compose_pieces(d.skip(n as int), a1, b2);
                } else {
                    lemma_compose_pieces(d.skip(n as int), a1, b1);
                }
                compose_step_retain_retain(d, a, b);
            },
            (Piece::Retain(n), Piece::Delete(m)) => {
                lemma_apply_len(d.skip(n as int), a1);
                if n > m {
                    let a2 = seq![Piece::Retain((n - m) as nat)] + a1;
                    lemma_apply_cons(d.skip(m as int), Piece::Retain((n - m) as nat), a1);
                    assert(d.skip(m as int).skip((n - m) as int) =~= d.skip(n as int));
                    lemma_apply_len(d.skip(m as int), a2);
                    lemma_compose_pieces(d.skip(m as int), a2, b1);
                } else if m > n {
                    let b2 = seq![Piece::Delete((m - n) as nat)] + b1;
                    lemma_apply_cons(e, Piece::Delete((m - n) as nat), b1);
                    lemma_compose_pieces(d.skip(n as int), a1, b2);
                } else {
                    lemma_compose_pieces(d.skip(n as int), a1, b1);
                }
                compose_step_retain_delete(d, a, b);
            },
            (Piece::Insert(s), Piece::Retain(m)) => {
                lemma_apply_len(d, a1);
                if s.len() > m {
                    let a2 = seq![Piece::Insert(s.skip(m as int))] + a1;
                    lemma_apply_cons(d, Piece::Insert(s.skip(m as int)), a1);
                    lemma_apply_len(d, a2);
                    lemma_compose_pieces(d, a2, b1);
                } else if m > s.len() {
                    let b2 = seq![Piece::Retain((m - s.len()) as nat)] + b1;
                    lemma_apply_cons(e, Piece::Retain((m - s.len()) as nat), b1);
                    lemma_compose_pieces(d, a1, b2);
                } else {
                    lemma_compose_pieces(d, a1, b1);
                }
                compose_step_insert_retain(d, a, b);
            },
            (Piece::Insert(s), Piece::Delete(m)) => {
                lemma_apply_len(d, a1);
                if s.len() > m {
                    let a2 = seq![Piece::Insert(s.skip(m as int))] + a1;
                    lemma_apply_cons(d, Piece::Insert(s.skip(m as int)), a1);
                    lemma_apply_len(d, a2);
                    lemma_compose_pieces(d, a2, b1);
                } else if m > s.len() {
                    let b2 = seq![Piece::Delete((m - s.len()) as nat)] + b1;
                    lemma_apply_cons(e, Piece::Delete((m - s.len()) as nat), b1);
                    lemma_compose_pieces(d, a1, b2);
                } else {
                    lemma_compose_pieces(d, a1, b1);
                }
                compose_step_insert_delete(d, a, b);
            },
        }
    }
}


/// Composition consumes no more source than both operations together.
pub proof fn lemma_compose_src_bound<T>(a: Seq<Piece<T>>, b: Seq<Piece<T>>)
    ensures
        src_len(compose_pieces(a, b)) <= src_len(a) + src_len(b),
    decreases a.len() + b.len(),
{
    if a.len() > 0 && b.len() > 0 {
        let a1 = a.drop_first();
        let b1 = b.drop_first();
        assert(seq![a[0]] + a1 =~= a);
        assert(seq![b[0]] + b1 =~= b);
        lemma_apply_cons(Seq::<T>::empty(), a[0], a1);
        lemma_apply_cons(Seq::<T>::empty(), b[0], b1);
        match (a[0], b[0]) {
            (Piece::Delete(n), _) => {
                lemma_compose_src_bound(a1, b);
                lemma_apply_cons(Seq::<T>::empty(), Piece::Delete(n), compose_pieces(a1, b));
            },
            (Piece::Retain(_), Piece::Insert(s)) => {
                lemma_compose_src_bound(a, b1);
                lemma_apply_cons(Seq::<T>::empty(), Piece::Insert(s), compose_pieces(a, b1));
            },
            (Piece::Insert(_), Piece::Insert(s)) => {
                lemma_compose_src_bound(a, b1);
                lemma_apply_cons(Seq::<T>::empty(), Piece::Insert(s), compose_pieces(a, b1));
            },
            (Piece::Retain(n), Piece::Retain(m)) => {
                if n > m {
                    let a2 = seq![Piece::Retain((n - m) as nat)] + a1;
                    lemma_apply_cons(Seq::<T>::empty(), Piece::Retain((n - m) as nat), a1);
                    lemma_compose_src_bound(a2, b1);
                    lemma_apply_cons(Seq::<T>::empty(), Piece::Retain(m), compose_pieces(a2, b1));
                } else if m > n {
                    let b2 = seq![Piece::Retain((m - n) as nat)] + b1;
                    lemma_apply_cons(Seq::<T>::empty(), Piece::Retain((m - n) as nat), b1);
                    lemma_compose_src_bound(a1, b2);
                    lemma_apply_cons(Seq::<T>::empty(), Piece::Retain(n), compose_pieces(a1, b2));
                } else {
                    lemma_compose_src_bound(a1, b1);
                    lemma_apply_cons(Seq::<T>::empty(), Piece::Retain(n), compose_pieces(a1, b1));
                }
            },
            (Piece::Retain(n), Piece::Delete(m)) => {
                if n > m {
                    let a2 = seq![Piece::Retain((n - m) as nat)] + a1;
                    lemma_apply_cons(Seq::<T>::empty(), Piece::Retain((n - m) as nat), a1);
                    lemma_compose_src_bound(a2, b1);
                    lemma_apply_cons(Seq::<T>::empty(), Piece::Delete(m), compose_pieces(a2, b1));
                } else if m > n {
                    let b2 = seq![Piece::Delete((m - n) as nat)] + b1;
                    lemma_apply_cons(Seq::<T>::empty(), Piece::Delete((m - n) as nat), b1);
                    lemma_compose_src_bound(a1, b2);
                    lemma_apply_cons(Seq::<T>::empty(), Piece::Delete(n), compose_pieces(a1, b2));
                } else {
                    lemma_compose_src_bound(a1, b1);
                    lemma_apply_cons(Seq::<T>::empty(), Piece::Delete(n), compose_pieces(a1, b1));
                }
            },
            (Piece::Insert(s), Piece::Retain(m)) => {
                if s.len() > m {
                    let a2 = seq![Piece::Insert(s.skip(m as int))] + a1;
                    lemma_apply_cons(Seq::<T>::empty(), Piece::Insert(s.skip(m as int)), a1);
                    lemma_compose_src_bound(a2, b1);
                    lemma_apply_cons(Seq::<T>::empty(), Piece::Insert(s.take(m as int)), compose_pieces(a2, b1));
                } else if m > s.len() {
                    let b2 = seq![Piece::Retain((m - s.len()) as nat)] + b1;
                    lemma_apply_cons(Seq::<T>::empty(), Piece::Retain((m - s.len()) as nat), b1);
                    lemma_compose_src_bound(a1, b2);
                    lemma_apply_cons(Seq::<T>::empty(), Piece::Insert(s), compose_pieces(a1, b2));
                } else {
                    lemma_compose_src_bound(a1, b1);
                    lemma_apply_cons(Seq::<T>::empty(), Piece::Insert(s), compose_pieces(a1, b1));
                }
            },
            (Piece::Insert(s), Piece::Delete(m)) => {
                if s.len() > m {
                    let a2 = seq![Piece::Insert(s.skip(m as int))] + a1;
                    lemma_apply_cons(Seq::<T>::empty(), Piece::Insert(s.skip(m as int)), a1);
                    lemma_compose_src_bound(a2, b1);
                } else if m > s.len() {
                    let b2 = seq![Piece::Delete((m - s.len()) as nat)] + b1;
                    lemma_apply_cons(Seq::<T>::empty(), Piece::Delete((m - s.len()) as nat), b1);
                    lemma_compose_src_bound(a1, b2);
                } else {
                    lemma_compose_src_bound(a1, b1);
                }
            },
        }
    }
}

/// Transforming `o` against `a` consumes no more source than `o` plus what `a`
/// inserts, and when `o` and `a` both fit a document of `n` items, the
/// result fits the document that `a` produces from it.
pub proof fn lemma_transform_src<T>(o: Seq<Piece<T>>, a: Seq<Piece<T>>, n: nat)
    ensures
        src_len(transform_pieces(o, a)) <= src_len(o) + ins_len(a),
        src_len(o) <= n && src_len(a) <= n ==> src_len(transform_pieces(o, a)) + src_len(a)
            <= n + dst_len(a),
    decreases o.len() + a.len(),
{
    let e = Seq::<T>::empty();
    if o.len() == 0 {
        assert(src_len(Seq::<Piece<T>>::empty()) == 0);
    } else if a.len() > 0 {
        let o1 = o.drop_first();
        let a1 = a.drop_first();
        assert(seq![o[0]] + o1 =~= o);
        assert(seq![a[0]] + a1 =~= a);
        lemma_apply_cons(e, o[0], o1);
        lemma_apply_cons(e, a[0], a1);
        match (o[0], a[0]) {
            (_, Piece::Insert(s)) => {
                lemma_transform_src(o, a1, n);
                lemma_apply_cons(e, Piece::Retain(s.len()), transform_pieces(o, a1));
            },
            (Piece::Insert(s), _) => {
                lemma_transform_src(o1, a, n);
                lemma_apply_cons(e, Piece::Insert(s), transform_pieces(o1, a));
            },
            (Piece::Retain(x), Piece::Retain(y)) => {
                if x > y {
                    let o2 = seq![Piece::Retain((x - y) as nat)] + o1;
                    lemma_apply_cons(e, Piece::Retain((x - y) as nat), o1);
                    if n >= y { lemma_transform_src(o2, a1, (n - y) as nat); } else { lemma_transform_src(o2, a1, 0); }
                    lemma_apply_cons(e, Piece::Retain(y), transform_pieces(o2, a1));
                } else if y > x {
                    let a2 = seq![Piece::Retain((y - x) as nat)] + a1;
                    lemma_apply_cons(e, Piece::Retain((y - x) as nat), a1);
                    if n >= x { lemma_transform_src(o1, a2, (n - x) as nat); } else { lemma_transform_src(o1, a2, 0); }
                    lemma_apply_cons(e, Piece::Retain(x), transform_pieces(o1, a2));
                } else {
                    if n >= x { lemma_transform_src(o1, a1, (n - x) as nat); } else { lemma_transform_src(o1, a1, 0); }
                    lemma_apply_cons(e, Piece::Retain(x), transform_pieces(o1, a1));
                }
            },
            (Piece::Retain(x), Piece::Delete(y)) => {
                if x > y {
                    let o2 = seq![Piece::Retain((x - y) as nat)] + o1;
                    lemma_apply_cons(e, Piece::Retain((x - y) as nat), o1);
                    if n >= y { lemma_transform_src(o2, a1, (n - y) as nat); } else { lemma_transform_src(o2, a1, 0); }
                } else if y > x {
                    let a2 = seq![Piece::Delete((y - x) as nat)] + a1;
                    lemma_apply_cons(e, Piece::Delete((y - x) as nat), a1);
                    if n >= x { lemma_transform_src(o1, a2, (n - x) as nat); } else { lemma_transform_src(o1, a2, 0); }
                } else {
                    if n >= x { lemma_transform_src(o1, a1, (n - x) as nat); } else { lemma_transform_src(o1, a1, 0); }
                }
            },
            (Piece::Delete(x), Piece::Retain(y)) => {
                if x > y {
                    let o2 = seq![Piece::Delete((x - y) as nat)] + o1;
                    lemma_apply_cons(e, Piece::Delete((x - y) as nat), o1);
                    if n >= y { lemma_transform_src(o2, a1, (n - y) as nat); } else { lemma_transform_src(o2, a1, 0); }
                    lemma_apply_cons(e, Piece::Delete(y), transform_pieces(o2, a1));
                } else if y > x {
                    let a2 = seq![Piece::Retain((y - x) as nat)] + a1;
                    lemma_apply_cons(e, Piece::Retain((y - x) as nat), a1);
                    if n >= x { lemma_transform_src(o1, a2, (n - x) as nat); } else { lemma_transform_src(o1, a2, 0); }
                    lemma_apply_cons(e, Piece::Delete(x), transform_pieces(o1, a2));
                } else {
                    if n >= x { lemma_transform_src(o1, a1, (n - x) as nat); } else { lemma_transform_src(o1, a1, 0); }
                    lemma_apply_cons(e, Piece::Delete(x), transform_pieces(o1, a1));
                }
            },
            (Piece::Delete(x), Piece::Delete(y)) => {
                if x > y {
                    let o2 = seq![Piece::Delete((x - y) as nat)] + o1;
                    lemma_apply_cons(e, Piece::Delete((x - y) as nat), o1);
                    if n >= y { lemma_transform_src(o2, a1, (n - y) as nat); } else { lemma_transform_src(o2, a1, 0); }
                } else if y > x {
                    let a2 = seq![Piece::Delete((y - x) as nat)] + a1;
                    lemma_apply_cons(e, Piece::Delete((y - x) as nat), a1);
                    if n >= x { lemma_transform_src(o1, a2, (n - x) as nat); } else { lemma_transform_src(o1, a2, 0); }
                } else {
                    if n >= x { lemma_transform_src(o1, a1, (n - x) as nat); } else { lemma_transform_src(o1, a1, 0); }
                }
            },
        }
    }
}


/// Whether `ops` inserts some text at source offset `k`: it has a non-empty
/// insert piece that comes after exactly `k` consumed items.
pub open spec fn inserts_at<T>(ops: Seq<Piece<T>>, k: int) -> bool
    decreases ops.len(),
{
    if ops.len() == 0 {
        false
    } else {
        match ops[0] {
            Piece::Insert(s) => (k == 0 && s.len() > 0) || inserts_at(ops.drop_first(), k),
            Piece::Retain(n) => k >= n && inserts_at(ops.drop_first(), k - n),
            Piece::Delete(n) => k >= n && inserts_at(ops.drop_first(), k - n),
        }
    }
}

/// No source offset where both operations insert.
pub open spec fn no_common_insert<T>(a: Seq<Piece<T>>, b: Seq<Piece<T>>) -> bool {
    forall|k: int| #![trigger inserts_at(a, k), inserts_at(b, k)] !(inserts_at(a, k) && inserts_at(b, k))
}

/// A retain or delete piece with `j` fewer items.
pub open spec fn shrink<T>(c: Piece<T>, j: nat) -> Piece<T> {
    match c {
        Piece::Retain(n) => Piece::Retain((n - j) as nat),
        Piece::Delete(n) => Piece::Delete((n - j) as nat),
        Piece::Insert(s) => Piece::Insert(s),
    }
}

/// `x` with `j` items of its first piece consumed.
pub open spec fn rest_after<T>(x: Seq<Piece<T>>, j: nat) -> Seq<Piece<T>> {
    if piece_src(x[0]) > j {
        seq![shrink(x[0], j)] + x.drop_first()
    } else {
        x.drop_first()
    }
}

/// What transforming a piece `oc` against a piece `ac` emits for their
/// first `j` common items: nothing if `ac` deletes them, else a retain or
/// a delete like `oc`.
pub open spec fn consume_prefix<T>(oc: Piece<T>, ac: Piece<T>, j: nat) -> Seq<Piece<T>> {
    if ac is Delete {
        Seq::empty()
    } else if oc is Retain {
        seq![Piece::Retain(j)]
    } else {
        seq![Piece::Delete(j)]
    }
}

/// The smaller of two numbers.
pub open spec fn min_nat(a: nat, b: nat) -> nat {
    if a <= b { a } else { b }
}

proof fn lemma_inserts_at_negative<T>(ops: Seq<Piece<T>>, k: int)
    requires
        k < 0,
    ensures
        !inserts_at(ops, k),
    decreases ops.len(),
{
    if ops.len() > 0 {
        lemma_inserts_at_negative(ops.drop_first(), k);
    }
}

/// Consuming `j` items of the first piece of `x` shifts its insert offsets
/// by `j`.
proof fn lemma_inserts_at_rest<T>(x: Seq<Piece<T>>, j: nat)
    requires
        x.len() > 0,
        !(x[0] is Insert),
        j <= piece_src(x[0]),
    ensures
        forall|k: int| k >= 0 ==> #[trigger] inserts_at(rest_after(x, j), k) == inserts_at(x, k + j),
        forall|k: int| k < 0 ==> !#[trigger] inserts_at(rest_after(x, j), k),
{
    let r = rest_after(x, j);
    let x1 = x.drop_first();
    if piece_src(x[0]) > j {
        assert(r.drop_first() =~= x1);
        assert(r[0] == shrink(x[0], j));
    }
    assert forall|k: int| k >= 0 implies #[trigger] inserts_at(rest_after(x, j), k) == inserts_at(
        x,
        k + j,
    ) by {
        if piece_src(x[0]) <= j {
            assert(piece_src(x[0]) == j);
        }
    }
    assert forall|k: int| k < 0 implies !#[trigger] inserts_at(rest_after(x, j), k) by {
        lemma_inserts_at_negative(rest_after(x, j), k);
    }
}

/// Transforming against a non-insert piece consumes the items both first
/// pieces cover.
proof fn lemma_transform_consume<T>(o: Seq<Piece<T>>, a: Seq<Piece<T>>)
    requires
        o.len() > 0,
        a.len() > 0,
        !(o[0] is Insert),
        !(a[0] is Insert),
    ensures
        ({
            let j = min_nat(piece_src(o[0]), piece_src(a[0]));
            transform_pieces(o, a) == consume_prefix(o[0], a[0], j) + transform_pieces(
                rest_after(o, j),
                rest_after(a, j),
            )
        }),
{
    let j = min_nat(piece_src(o[0]), piece_src(a[0]));
    let t = transform_pieces(rest_after(o, j), rest_after(a, j));
    assert(Seq::<Piece<T>>::empty() + t =~= t);
}

/// Applying the first piece of a non-insert-led operation for `j` of its items.
proof fn lemma_apply_consume<T>(d: Seq<T>, x: Seq<Piece<T>>, j: nat)
    requires
        x.len() > 0,
        !(x[0] is Insert),
        j <= piece_src(x[0]),
        src_len(x) <= d.len(),
    ensures
        apply_ops(d, x) == (if x[0] is Retain { d.take(j as int) } else { Seq::empty() }) + apply_ops(
            d.skip(j as int),
            rest_after(x, j),
        ),
        src_len(rest_after(x, j)) + j == src_len(x),
{
    let x1 = x.drop_first();
    assert(x =~= seq![x[0]] + x1);
    lemma_apply_cons(d, x[0], x1);
    let n = piece_src(x[0]);
    if n > j {
        lemma_apply_cons(d.skip(j as int), shrink(x[0], j), x1);
        assert(d.skip(j as int).skip(n - j) =~= d.skip(n as int));
        if x[0] is Retain {
            assert(d.take(n as int) =~= d.take(j as int) + d.skip(j as int).take(n - j));
        }
    }
    if x[0] is Retain {
        assert(d.take(j as int) + d.skip(j as int).take(n - j) + apply_ops(d.skip(n as int), x1)
            =~= d.take(j as int) + (d.skip(j as int).take(n - j) + apply_ops(d.skip(n as int), x1)));
    } else {
        assert(Seq::<T>::empty() + apply_ops(d.skip(n as int), x1) =~= apply_ops(
            d.skip(n as int),
            x1,
        ));
        assert(Seq::<T>::empty() + apply_ops(d.skip(j as int), rest_after(x, j)) =~= apply_ops(
            d.skip(j as int),
            rest_after(x, j),
        ));
    }
}


/// Applying a retain or a delete of `p`'s length to `p + x`.
proof fn lemma_apply_over_prefix<T>(p: Seq<T>, x: Seq<T>, c: Piece<T>, t: Seq<Piece<T>>)
    requires
        !(c is Insert),
        piece_src(c) == p.len(),
    ensures
        apply_ops(p + x, seq![c] + t) == if c is Retain { p + apply_ops(x, t) } else { apply_ops(x, t) },
{
    lemma_apply_cons(p + x, c, t);
    assert((p + x).take(p.len() as int) =~= p);
    assert((p + x).skip(p.len() as int) =~= x);
}

/// The convergence step when `a` starts with an insert and `b` does not.
proof fn tp1_insert_left<T>(d: Seq<T>, a: Seq<Piece<T>>, b: Seq<Piece<T>>)
    requires
        a.len() > 0,
        b.len() > 0,
        a[0] is Insert,
        !(b[0] is Insert),
        apply_ops(apply_ops(d, a.drop_first()), transform_pieces(b, a.drop_first())) == apply_ops(
            apply_ops(d, b),
            transform_pieces(a.drop_first(), b),
        ),
    ensures
        apply_ops(apply_ops(d, a), transform_pieces(b, a)) == apply_ops(
            apply_ops(d, b),
            transform_pieces(a, b),
        ),
{
    let a1 = a.drop_first();
    let sa = a[0]->Insert_0;
    let x = apply_ops(d, a1);
    assert(apply_ops(d, a) == sa + x);
    assert(transform_pieces(b, a) == seq![Piece::<T>::Retain(sa.len())] + transform_pieces(b, a1));
    assert(transform_pieces(a, b) == seq![Piece::Insert(sa)] + transform_pieces(a1, b));
    lemma_apply_over_prefix(sa, x, Piece::<T>::Retain(sa.len()), transform_pieces(b, a1));
    lemma_apply_cons(apply_ops(d, b), Piece::Insert(sa), transform_pieces(a1, b));
}

/// The convergence step when `b` starts with an insert and `a` does not.
proof fn tp1_insert_right<T>(d: Seq<T>, a: Seq<Piece<T>>, b: Seq<Piece<T>>)
    requires
        a.len() > 0,
        b.len() > 0,
        !(a[0] is Insert),
        b[0] is Insert,
        apply_ops(apply_ops(d, a), transform_pieces(b.drop_first(), a)) == apply_ops(
            apply_ops(d, b.drop_first()),
            transform_pieces(a, b.drop_first()),
        ),
    ensures
        apply_ops(apply_ops(d, a), transform_pieces(b, a)) == apply_ops(
            apply_ops(d, b),
            transform_pieces(a, b),
        ),
{
    let b1 = b.drop_first();
    let sb = b[0]->Insert_0;
    let y = apply_ops(d, b1);
    assert(apply_ops(d, b) == sb + y);
    assert(transform_pieces(b, a) == seq![Piece::Insert(sb)] + transform_pieces(b1, a));
    assert(transform_pieces(a, b) == seq![Piece::<T>::Retain(sb.len())] + transform_pieces(a, b1));
    lemma_apply_over_prefix(sb, y, Piece::<T>::Retain(sb.len()), transform_pieces(a, b1));
    lemma_apply_cons(apply_ops(d, a), Piece::Insert(sb), transform_pieces(b1, a));
}

/// The convergence step when neither starts with an insert: both consume
/// the items their first pieces have in common.
proof fn tp1_consume<T>(d: Seq<T>, a: Seq<Piece<T>>, b: Seq<Piece<T>>)
    requires
        a.len() > 0,
        b.len() > 0,
        !(a[0] is Insert),
        !(b[0] is Insert),
        src_len(a) <= d.len(),
        src_len(b) <= d.len(),
        ({
            let j = min_nat(piece_src(a[0]), piece_src(b[0]));
            let ds = d.skip(j as int);
            apply_ops(apply_ops(ds, rest_after(a, j)), transform_pieces(rest_after(b, j), rest_after(a, j)))
                == apply_ops(
                apply_ops(ds, rest_after(b, j)),
                transform_pieces(rest_after(a, j), rest_after(b, j)),
            )
        }),
    ensures
        apply_ops(apply_ops(d, a), transform_pieces(b, a)) == apply_ops(
            apply_ops(d, b),
            transform_pieces(a, b),
        ),
{
    let j = min_nat(piece_src(a[0]), piece_src(b[0]));
    let ds = d.skip(j as int);
    let a2 = rest_after(a, j);
    let b2 = rest_after(b, j);
    let xa = apply_ops(ds, a2);
    let xb = apply_ops(ds, b2);
    let tba = transform_pieces(b2, a2);
    let tab = transform_pieces(a2, b2);
    lemma_transform_consume(b, a);
    lemma_transform_consume(a, b);
    lemma_apply_consume(d, a, j);
    lemma_apply_consume(d, b, j);
    let pre = d.take(j as int);
    assert(pre.len() == j);
    let e = Seq::<T>::empty();
    assert(e + xa =~= xa);
    assert(e + xb =~= xb);
    let ep = Seq::<Piece<T>>::empty();
    assert(ep + tba =~= tba);
    assert(ep + tab =~= tab);
    if a[0] is Retain {
        if b[0] is Retain {
            lemma_apply_over_prefix(pre, xa, Piece::<T>::Retain(j), tba);
            lemma_apply_over_prefix(pre, xb, Piece::<T>::Retain(j), tab);
        } else {
            lemma_apply_over_prefix(pre, xa, Piece::<T>::Delete(j), tba);
        }
    } else {
        if b[0] is Retain {
            lemma_apply_over_prefix(pre, xb, Piece::<T>::Delete(j), tab);
        }
    }
}

/// An empty insert in front of `o` changes nothing that transforming `o`
/// against `x` does to a document.
proof fn lemma_transform_empty_insert<T>(y: Seq<T>, o1: Seq<Piece<T>>, x: Seq<Piece<T>>)
    requires
        src_len(transform_pieces(seq![Piece::Insert(Seq::<T>::empty())] + o1, x)) <= y.len(),
    ensures
        apply_ops(y, transform_pieces(seq![Piece::Insert(Seq::<T>::empty())] + o1, x)) == apply_ops(
            y,
            transform_pieces(o1, x),
        ),
    decreases x.len(),
{
    let ei = Piece::Insert(Seq::<T>::empty());
    let o = seq![ei] + o1;
    assert(o[0] == ei);
    assert(o.drop_first() =~= o1);
    if x.len() == 0 {
        assert(transform_pieces(o, x) == o);
        lemma_apply_cons(y, ei, o1);
        assert(Seq::<T>::empty() + apply_ops(y, o1) =~= apply_ops(y, o1));
        if o1.len() == 0 {
            assert(transform_pieces(o1, x) =~= Seq::<Piece<T>>::empty());
        } else {
            assert(transform_pieces(o1, x) == o1);
        }
    } else if x[0] is Insert {
        let s = x[0]->Insert_0;
        let x1 = x.drop_first();
        let r = Piece::<T>::Retain(s.len());
        assert(transform_pieces(o, x) == seq![r] + transform_pieces(o, x1));
        lemma_apply_cons(y, r, transform_pieces(o, x1));
        lemma_apply_cons(y, r, Seq::<Piece<T>>::empty());
        assert(src_len(seq![r] + transform_pieces(o, x1)) == s.len() + src_len(transform_pieces(o, x1)));
        let y1 = y.skip(s.len() as int);
        lemma_transform_empty_insert(y1, o1, x1);
        if o1.len() == 0 {
            assert(transform_pieces(o1, x) =~= Seq::<Piece<T>>::empty());
            assert(transform_pieces(o1, x1) =~= Seq::<Piece<T>>::empty());
            assert(y.take(s.len() as int) + y1 =~= y);
        } else {
            assert(transform_pieces(o1, x) == seq![r] + transform_pieces(o1, x1));
            lemma_apply_cons(y, r, transform_pieces(o1, x1));
        }
    } else {
        assert(transform_pieces(o, x) == seq![ei] + transform_pieces(o1, x));
        lemma_apply_cons(y, ei, transform_pieces(o1, x));
        assert(Seq::<T>::empty() + apply_ops(y, transform_pieces(o1, x)) =~= apply_ops(
            y,
            transform_pieces(o1, x),
        ));
    }
}

/// The convergence step when both start with an insert and `a`'s is empty.
proof fn tp1_empty_left<T>(d: Seq<T>, a: Seq<Piece<T>>, b: Seq<Piece<T>>)
    requires
        a.len() > 0,
        b.len() > 0,
        a[0] == Piece::Insert(Seq::<T>::empty()),
        b[0] is Insert,
        src_len(a) <= d.len(),
        src_len(b) <= d.len(),
        apply_ops(apply_ops(d, a.drop_first()), transform_pieces(b, a.drop_first())) == apply_ops(
            apply_ops(d, b),
            transform_pieces(a.drop_first(), b),
        ),
    ensures
        apply_ops(apply_ops(d, a), transform_pieces(b, a)) == apply_ops(
            apply_ops(d, b),
            transform_pieces(a, b),
        ),
{
    let a1 = a.drop_first();
    let b1 = b.drop_first();
    let sb = b[0]->Insert_0;
    let e = Seq::<T>::empty();
    let x1 = apply_ops(d, a1);
    let y1 = apply_ops(d, b1);
    let r0 = Piece::<T>::Retain(0);
    let rb = Piece::<T>::Retain(sb.len());
    assert(a =~= seq![a[0]] + a1);
    assert(apply_ops(d, a) == e + x1);
    assert(e + x1 =~= x1);
    assert(apply_ops(d, b) == sb + y1);
    assert(transform_pieces(b, a) == seq![r0] + transform_pieces(b, a1));
    lemma_apply_over_prefix(e, x1, r0, transform_pieces(b, a1));
    assert(e + x1 =~= x1);
    if a1.len() > 0 {
        assert(transform_pieces(a1, b) == seq![rb] + transform_pieces(a1, b1));
        lemma_apply_over_prefix(sb, y1, rb, transform_pieces(a1, b1));
    } else {
        assert(transform_pieces(a1, b) =~= Seq::<Piece<T>>::empty());
        assert(transform_pieces(a1, b1) =~= Seq::<Piece<T>>::empty());
    }
    assert(transform_pieces(a, b) == seq![rb] + transform_pieces(a, b1));
    lemma_apply_over_prefix(sb, y1, rb, transform_pieces(a, b1));
    lemma_apply_len(d, b1);
    assert(src_len(b1) == src_len(b));
    lemma_transform_src(a, b1, d.len());
    lemma_transform_empty_insert(y1, a1, b1);
}

/// The convergence step when both start with an insert, `b`'s is empty and
/// `a`'s is not.
proof fn tp1_empty_right<T>(d: Seq<T>, a: Seq<Piece<T>>, b: Seq<Piece<T>>)
    requires
        a.len() > 0,
        b.len() > 0,
        a[0] is Insert,
        b[0] == Piece::Insert(Seq::<T>::empty()),
        src_len(a) <= d.len(),
        src_len(b) <= d.len(),
        apply_ops(apply_ops(d, a), transform_pieces(b.drop_first(), a)) == apply_ops(
            apply_ops(d, b.drop_first()),
            transform_pieces(a, b.drop_first()),
        ),
    ensures
        apply_ops(apply_ops(d, a), transform_pieces(b, a)) == apply_ops(
            apply_ops(d, b),
            transform_pieces(a, b),
        ),
{
    let a1 = a.drop_first();
    let b1 = b.drop_first();
    let sa = a[0]->Insert_0;
    let e = Seq::<T>::empty();
    let x1 = apply_ops(d, a1);
    let y1 = apply_ops(d, b1);
    let r0 = Piece::<T>::Retain(0);
    let ra = Piece::<T>::Retain(sa.len());
    assert(b =~= seq![b[0]] + b1);
    assert(apply_ops(d, b) == e + y1);
    assert(e + y1 =~= y1);
    assert(apply_ops(d, a) == sa + x1);
    assert(transform_pieces(a, b) == seq![r0] + transform_pieces(a, b1));
    lemma_apply_over_prefix(e, y1, r0, transform_pieces(a, b1));
    assert(transform_pieces(b, a) == seq![ra] + transform_pieces(b, a1));
    lemma_apply_over_prefix(sa, x1, ra, transform_pieces(b, a1));
    if b1.len() > 0 {
        assert(transform_pieces(b1, a) == seq![ra] + transform_pieces(b1, a1));
        lemma_apply_over_prefix(sa, x1, ra, transform_pieces(b1, a1));
    } else {
        assert(transform_pieces(b1, a) =~= Seq::<Piece<T>>::empty());
        assert(transform_pieces(b1, a1) =~= Seq::<Piece<T>>::empty());
    }
    lemma_apply_len(d, a1);
    assert(src_len(a1) == src_len(a));
    lemma_transform_src(b, a1, d.len());
    lemma_transform_empty_insert(x1, b1, a1);
}

/// Transformed against each other, two operations on the same document
/// converge: applying `a` then `b` transformed against `a` gives what
/// applying `b` then `a` transformed against `b` gives, as long as the two
/// never both insert text at the same place (there the insertion applied
/// first comes first, so the order depends on which went first).
pub proof fn lemma_transform_converges_pieces<T>(d: Seq<T>, a: Seq<Piece<T>>, b: Seq<Piece<T>>)
    requires
        src_len(a) <= d.len(),
        src_len(b) <= d.len(),
        no_common_insert(a, b),
    ensures
        apply_ops(apply_ops(d, a), transform_pieces(b, a)) == apply_ops(
            apply_ops(d, b),
            transform_pieces(a, b),
        ),
    decreases a.len() + b.len(),
{
    if a.len() == 0 {
        assert(transform_pieces(a, b) =~= Seq::<Piece<T>>::empty());
        if b.len() > 0 {
            assert(transform_pieces(b, a) == b);
        } else {
            assert(transform_pieces(b, a) =~= Seq::<Piece<T>>::empty());
        }
    } else if b.len() == 0 {
        assert(transform_pieces(b, a) =~= Seq::<Piece<T>>::empty());
        assert(transform_pieces(a, b) == a);
    } else if a[0] is Insert && b[0] is Insert && a[0]->Insert_0.len() > 0 && b[0]->Insert_0.len()
        > 0 {
        assert(inserts_at(a, 0) && inserts_at(b, 0));
    } else if a[0] is Insert && b[0] is Insert && a[0]->Insert_0.len() == 0 {
        let a1 = a.drop_first();
        assert(a[0]->Insert_0 =~= Seq::<T>::empty());
        assert(a[0] == Piece::Insert(Seq::<T>::empty()));
        assert(src_len(a1) == src_len(a));
        assert forall|k: int| #![trigger inserts_at(a1, k), inserts_at(b, k)]
            !(inserts_at(a1, k) && inserts_at(b, k)) by {
            if inserts_at(a1, k) {
                assert(inserts_at(a, k));
            }
        }
        lemma_transform_converges_pieces(d, a1, b);
        tp1_empty_left(d, a, b);
    } else if a[0] is Insert && b[0] is Insert {
        let b1 = b.drop_first();
        assert(b[0]->Insert_0 =~= Seq::<T>::empty());
        assert(b[0] == Piece::Insert(Seq::<T>::empty()));
        assert(src_len(b1) == src_len(b));
        assert forall|k: int| #![trigger inserts_at(a, k), inserts_at(b1, k)]
            !(inserts_at(a, k) && inserts_at(b1, k)) by {
            if inserts_at(b1, k) {
                assert(inserts_at(b, k));
            }
        }
        lemma_transform_converges_pieces(d, a, b1);
        tp1_empty_right(d, a, b);
    } else if a[0] is Insert {
        let a1 = a.drop_first();
        assert(src_len(a1) == src_len(a));
        assert forall|k: int| #![trigger inserts_at(a1, k), inserts_at(b, k)]
            !(inserts_at(a1, k) && inserts_at(b, k)) by {
            if inserts_at(a1, k) {
                assert(inserts_at(a, k));
            }
        }
        lemma_transform_converges_pieces(d, a1, b);
        tp1_insert_left(d, a, b);
    } else if b[0] is Insert {
        let b1 = b.drop_first();
        assert(src_len(b1) == src_len(b));
        assert forall|k: int| #![trigger inserts_at(a, k), inserts_at(b1, k)]
            !(inserts_at(a, k) && inserts_at(b1, k)) by {
            if inserts_at(b1, k) {
                assert(inserts_at(b, k));
            }
        }
        lemma_transform_converges_pieces(d, a, b1);
        tp1_insert_right(d, a, b);
    } else {
        let j = min_nat(piece_src(a[0]), piece_src(b[0]));
        let a2 = rest_after(a, j);
        let b2 = rest_after(b, j);
        lemma_inserts_at_rest(a, j);
        lemma_inserts_at_rest(b, j);
        lemma_apply_consume(d, a, j);
        lemma_apply_consume(d, b, j);
        assert forall|k: int| #![trigger inserts_at(a2, k), inserts_at(b2, k)]
            !(inserts_at(a2, k) && inserts_at(b2, k)) by {
            if k >= 0 && inserts_at(a2, k) && inserts_at(b2, k) {
                assert(inserts_at(a, k + j) && inserts_at(b, k + j));
            }
        }
        assert(a2.len() + b2.len() < a.len() + b.len());
        lemma_transform_converges_pieces(d.skip(j as int), a2, b2);
        tp1_consume(d, a, b);
    }
}


/// Convergence for the operations `transform` returns (normalized): two
/// operations on the same document that never both insert text at the same
/// place,
/// each applied after the other transformed against it, give the same
/// document.
pub proof fn lemma_transform_converges<T>(d: Seq<T>, a: Seq<Piece<T>>, b: Seq<Piece<T>>)
    requires
        src_len(a) <= d.len(),
        src_len(b) <= d.len(),
        no_common_insert(a, b),
    ensures
        apply_ops(apply_ops(d, a), normalize_ops(merge_all(transform_pieces(b, a)))) == apply_ops(
            apply_ops(d, b),
            normalize_ops(merge_all(transform_pieces(a, b))),
        ),
{
    let n = d.len();
    let da = apply_ops(d, a);
    let db = apply_ops(d, b);
    let tba = transform_pieces(b, a);
    let tab = transform_pieces(a, b);
    lemma_apply_len(d, a);
    lemma_apply_len(d, b);
    lemma_transform_src(b, a, n);
    lemma_transform_src(a, b, n);
    lemma_merge_all(da, tba);
    lemma_merge_all(db, tab);
    lemma_normalize(da, merge_all(tba));
    lemma_normalize(db, merge_all(tab));
    lemma_transform_converges_pieces(d, a, b);
}

/// An operation without empty pieces keeps all its pieces.
proof fn lemma_drop_empty_kept<T>(ops: Seq<Piece<T>>)
    requires
        forall|i: int| 0 <= i < ops.len() ==> !piece_is_empty(#[trigger] ops[i]),
    ensures
        drop_empty(ops) == ops,
    decreases ops.len(),
{
    if ops.len() > 0 {
        let d = ops.drop_last();
        assert forall|i: int| 0 <= i < d.len() implies !piece_is_empty(#[trigger] d[i]) by {
            assert(d[i] == ops[i]);
        }
        lemma_drop_empty_kept(d);
        assert(d.push(ops.last()) =~= ops);
    }
}

/// An operation without neighbours of one kind has nothing to merge.
proof fn lemma_merge_all_kept<T>(ops: Seq<Piece<T>>)
    requires
        forall|i: int| 0 <= i < ops.len() - 1 ==> !same_kind(#[trigger] ops[i], ops[i + 1]),
    ensures
        merge_all(ops) == ops,
    decreases ops.len(),
{
    if ops.len() > 0 {
        let d = ops.drop_last();
        assert forall|i: int| 0 <= i < d.len() - 1 implies !same_kind(#[trigger] d[i], d[i + 1]) by {
            assert(d[i] == ops[i] && d[i + 1] == ops[i + 1]);
        }
        lemma_merge_all_kept(d);
        if d.len() > 0 {
            assert(!same_kind(ops[d.len() - 1], ops[d.len() as int]));
        }
        assert(d.push(ops.last()) =~= ops);
    }
}

/// A normalized operation is its own normal form.
proof fn lemma_normalized_fixed<T>(ops: Seq<Piece<T>>)
    requires
        is_normalized(ops),
    ensures
        normalize_ops(ops) == ops,
{
    lemma_drop_empty_kept(ops);
    lemma_merge_all_kept(ops);
}

/// Normalizing twice gives what normalizing once gives.
pub proof fn lemma_normalize_idempotent<T>(ops: Seq<Piece<T>>)
    ensures
        normalize_ops(normalize_ops(ops)) == normalize_ops(ops),
{
    lemma_normalize(Seq::<T>::empty(), ops);
    lemma_normalized_fixed(normalize_ops(ops));
}

} // verus!
