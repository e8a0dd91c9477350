//! Cleanup of text diff patches.
//!
//! A patch is a list of operations, each deleting, keeping or inserting a
//! text.  Applied to its source text (the deleted and kept parts, in order)
//! it gives its destination text (the kept and inserted parts).  The cleanups
//! here rearrange a patch for readability and keep both texts.
use vstd::prelude::*;

verus! {

/// Kind of a patch operation.
#[derive(Clone, Copy, Debug, PartialEq, Eq, Structural)]
pub enum PatchOpType {
    Del,
    Eql,
    Ins,
}

/// A text diff: operations in order.
pub type Patch = Vec<(PatchOpType, String)>;

/// What an operation contributes to the source text.
pub open spec fn src_part(op: (PatchOpType, String)) -> Seq<char> {
    if op.0 == PatchOpType::Ins {
        Seq::empty()
    } else {
        op.1@
    }
}

/// What an operation contributes to the destination text.
pub open spec fn dst_part(op: (PatchOpType, String)) -> Seq<char> {
    if op.0 == PatchOpType::Del {
        Seq::empty()
    } else {
        op.1@
    }
}

/// The source text of a patch: its deleted and kept texts, in order.
pub open spec fn src_text(p: Seq<(PatchOpType, String)>) -> Seq<char>
    decreases p.len(),
{
    if p.len() == 0 {
        Seq::empty()
    } else {
        src_text(p.drop_last()) + src_part(p.last())
    }
}

/// The destination text of a patch: its kept and inserted texts, in order.
pub open spec fn dst_text(p: Seq<(PatchOpType, String)>) -> Seq<char>
    decreases p.len(),
{
    if p.len() == 0 {
        Seq::empty()
    } else {
        dst_text(p.drop_last()) + dst_part(p.last())
    }
}

/// The texts of two patches one after the other are the texts of each.
pub proof fn lemma_texts_concat(p: Seq<(PatchOpType, String)>, q: Seq<(PatchOpType, String)>)
    ensures
        src_text(p + q) == src_text(p) + src_text(q),
        dst_text(p + q) == dst_text(p) + dst_text(q),
    decreases q.len(),
{
    if q.len() == 0 {
        assert(p + q =~= p);
        assert(src_text(p) + src_text(q) =~= src_text(p));
        assert(dst_text(p) + dst_text(q) =~= dst_text(p));
    } else {
        lemma_texts_concat(p, q.drop_last());
        assert((p + q).drop_last() =~= p + q.drop_last());
        assert((p + q).last() == q.last());
        assert(src_text(p) + src_text(q.drop_last()) + src_part(q.last()) =~= src_text(p) + (src_text(
            q.drop_last(),
        ) + src_part(q.last())));
        assert(dst_text(p) + dst_text(q.drop_last()) + dst_part(q.last()) =~= dst_text(p) + (dst_text(
            q.drop_last(),
        ) + dst_part(q.last())));
    }
}

/// The texts of a patch split around operation `i`.
pub proof fn lemma_texts_split(p: Seq<(PatchOpType, String)>, i: int)
    requires
        0 <= i < p.len(),
    ensures
        src_text(p) == src_text(p.take(i)) + src_part(p[i]) + src_text(p.skip(i + 1)),
        dst_text(p) == dst_text(p.take(i)) + dst_part(p[i]) + dst_text(p.skip(i + 1)),
{
    assert(p =~= p.take(i) + (seq![p[i]] + p.skip(i + 1)));
    lemma_texts_concat(p.take(i), seq![p[i]] + p.skip(i + 1));
    lemma_texts_concat(seq![p[i]], p.skip(i + 1));
    lemma_texts_one(p[i]);
    assert(src_text(p.take(i)) + (src_part(p[i]) + src_text(p.skip(i + 1))) =~= src_text(p.take(i))
        + src_part(p[i]) + src_text(p.skip(i + 1)));
    assert(dst_text(p.take(i)) + (dst_part(p[i]) + dst_text(p.skip(i + 1))) =~= dst_text(p.take(i))
        + dst_part(p[i]) + dst_text(p.skip(i + 1)));
}

/// Replacing the operations `i .. j` by `mid` keeps both texts when `mid`
/// has the same texts as what it replaces.
pub proof fn lemma_texts_replace(
    p: Seq<(PatchOpType, String)>,
    i: int,
    j: int,
    mid: Seq<(PatchOpType, String)>,
)
    requires
        0 <= i <= j <= p.len(),
        src_text(mid) == src_text(p.subrange(i, j)),
        dst_text(mid) == dst_text(p.subrange(i, j)),
    ensures
        src_text(p.take(i) + mid + p.skip(j)) == src_text(p),
        dst_text(p.take(i) + mid + p.skip(j)) == dst_text(p),
{
    assert(p =~= p.take(i) + p.subrange(i, j) + p.skip(j));
    lemma_texts_concat(p.take(i) + mid, p.skip(j));
    lemma_texts_concat(p.take(i), mid);
    lemma_texts_concat(p.take(i) + p.subrange(i, j), p.skip(j));
    lemma_texts_concat(p.take(i), p.subrange(i, j));
}

/// The texts of a patch of one operation.
pub proof fn lemma_texts_one(x: (PatchOpType, String))
    ensures
        src_text(seq![x]) == src_part(x),
        dst_text(seq![x]) == dst_part(x),
{
    let e = Seq::<(PatchOpType, String)>::empty();
    assert(seq![x].drop_last() =~= e);
    assert(seq![x].last() == x);
    assert(src_text(e) == Seq::<char>::empty());
    assert(dst_text(e) == Seq::<char>::empty());
    assert(src_text(seq![x]) == src_text(e) + src_part(x));
    assert(dst_text(seq![x]) == dst_text(e) + dst_part(x));
    assert(src_text(e) + src_part(x) =~= src_part(x));
    assert(dst_text(e) + dst_part(x) =~= dst_part(x));
}

/// The texts of a patch of two operations.
pub proof fn lemma_texts_two(x: (PatchOpType, String), y: (PatchOpType, String))
    ensures
        src_text(seq![x, y]) == src_part(x) + src_part(y),
        dst_text(seq![x, y]) == dst_part(x) + dst_part(y),
{
    assert(seq![x, y] =~= seq![x] + seq![y]);
    lemma_texts_concat(seq![x], seq![y]);
    lemma_texts_one(x);
    lemma_texts_one(y);
}

/// The texts of a patch of three operations.
pub proof fn lemma_texts_three(x: (PatchOpType, String), y: (PatchOpType, String), z: (PatchOpType, String))
    ensures
        src_text(seq![x, y, z]) == src_part(x) + src_part(y) + src_part(z),
        dst_text(seq![x, y, z]) == dst_part(x) + dst_part(y) + dst_part(z),
{
    assert(seq![x, y, z] =~= seq![x, y] + seq![z]);
    lemma_texts_concat(seq![x, y], seq![z]);
    lemma_texts_two(x, y);
    lemma_texts_one(z);
}

/// The source text of a patch: its deleted and kept texts, in order.
pub fn patch_src(patch: &Patch) -> (r: String)
    ensures
        r@ == src_text(patch@),
{
    let mut out = String::new();
    let mut i: usize = 0;
    while i < patch.len()
        invariant
            i <= patch@.len(),
            out@ == src_text(patch@.take(i as int)),
        decreases patch@.len() - i,
    {
        if patch[i].0 != PatchOpType::Ins {
            out.append(patch[i].1.as_str());
        }
        proof {
            assert(patch@.take(i + 1).drop_last() =~= patch@.take(i as int));
        }
        i = i + 1;
    }
    assert(patch@.take(patch@.len() as int) =~= patch@);
    out
}

/// The destination text of a patch: its kept and inserted texts, in order.
pub fn patch_dst(patch: &Patch) -> (r: String)
    ensures
        r@ == dst_text(patch@),
{
    let mut out = String::new();
    let mut i: usize = 0;
    while i < patch.len()
        invariant
            i <= patch@.len(),
            out@ == dst_text(patch@.take(i as int)),
        decreases patch@.len() - i,
    {
        if patch[i].0 != PatchOpType::Del {
            out.append(patch[i].1.as_str());
        }
        proof {
            assert(patch@.take(i + 1).drop_last() =~= patch@.take(i as int));
        }
        i = i + 1;
    }
    assert(patch@.take(patch@.len() as int) =~= patch@);
    out
}

/// Whether the character is alphanumeric in Unicode's sense.
pub uninterp spec fn char_is_alphanumeric(c: char) -> bool;

/// Whether the character is white space in Unicode's sense.
pub uninterp spec fn char_is_whitespace(c: char) -> bool;

/// `char::is_alphanumeric`.
#[verifier::external_body]
fn is_alphanumeric(c: char) -> (r: bool)
    ensures
        r == char_is_alphanumeric(c),
{
    c.is_alphanumeric()
}

/// `char::is_whitespace`.
#[verifier::external_body]
fn is_whitespace(c: char) -> (r: bool)
    ensures
        r == char_is_whitespace(c),
{
    c.is_whitespace()
}

/// Whether `s` ends with `t`.
pub open spec fn ends_with(s: Seq<char>, t: Seq<char>) -> bool {
    t.len() <= s.len() && s.skip(s.len() - t.len()) == t
}

/// Whether `s` starts with `t`.
pub open spec fn starts_with(s: Seq<char>, t: Seq<char>) -> bool {
    t.len() <= s.len() && s.take(t.len() as int) == t
}

fn str_ends_with(s: &str, t: &str) -> (r: bool)
    ensures
        r == ends_with(s@, t@),
{
    let n = s.unicode_len();
    let m = t.unicode_len();
    if m > n {
        return false;
    }
    let mut i: usize = 0;
    while i < m
        invariant
            n == s@.len(),
            m == t@.len(),
            m <= n,
            i <= m,
            forall|k: int| 0 <= k < i ==> s@[n - m + k] == t@[k],
        decreases m - i,
    {
        if s.get_char(n - m + i) != t.get_char(i) {
            assert(s@.skip(n - m)[i as int] != t@[i as int]);
            return false;
        }
        i = i + 1;
    }
    assert(s@.skip(n - m) =~= t@);
    true
}

fn str_starts_with(s: &str, t: &str) -> (r: bool)
    ensures
        r == starts_with(s@, t@),
{
    let n = s.unicode_len();
    let m = t.unicode_len();
    if m > n {
        return false;
    }
    let mut i: usize = 0;
    while i < m
        invariant
            n == s@.len(),
            m == t@.len(),
            m <= n,
            i <= m,
            forall|k: int| 0 <= k < i ==> s@[k] == t@[k],
        decreases m - i,
    {
        if s.get_char(i) != t.get_char(i) {
            assert(s@.take(m as int)[i as int] != t@[i as int]);
            return false;
        }
        i = i + 1;
    }
    assert(s@.take(m as int) =~= t@);
    true
}

/// How good a boundary between `one` and `two` is for an edit: 6 at the
/// start or end of the text, 5 at a blank line, 4 at a line break, 3 after
/// punctuation followed by space, 2 at space, 1 at other non-alphanumeric
/// characters, 0 inside a word.
pub open spec fn score(one: Seq<char>, two: Seq<char>) -> u8 {
    if one.len() == 0 || two.len() == 0 {
        6
    } else {
        let c1 = one.last();
        let c2 = two[0];
        let na1 = !char_is_alphanumeric(c1);
        let na2 = !char_is_alphanumeric(c2);
        let ws1 = na1 && char_is_whitespace(c1);
        let ws2 = na2 && char_is_whitespace(c2);
        let lb1 = ws1 && (c1 == '\r' || c1 == '\n');
        let lb2 = ws2 && (c2 == '\r' || c2 == '\n');
        let bl1 = lb1 && (ends_with(one, "\n\r\n"@) || ends_with(one, "\n\n"@));
        let bl2 = lb2 && (starts_with(two, "\r\n\r\n"@) || starts_with(two, "\n\n"@));
        if bl1 || bl2 {
            5
        } else if lb1 || lb2 {
            4
        } else if na1 && !ws1 && ws2 {
            3
        } else if ws1 || ws2 {
            2
        } else if na1 || na2 {
            1
        } else {
            0
        }
    }
}

/// Scores the boundary between `one` and `two`.
pub fn semantic_score(one: &str, two: &str) -> (r: u8)
    ensures
        r == score(one@, two@),
{
    let n1 = one.unicode_len();
    let n2 = two.unicode_len();
    if n1 == 0 || n2 == 0 {
        return 6;
    }
    let char1 = one.get_char(n1 - 1);
    let char2 = two.get_char(0);
    let non_alnum1 = !is_alphanumeric(char1);
    let non_alnum2 = !is_alphanumeric(char2);
    let ws1 = non_alnum1 && is_whitespace(char1);
    let ws2 = non_alnum2 && is_whitespace(char2);
    let lb1 = ws1 && (char1 == '\r' || char1 == '\n');
    let lb2 = ws2 && (char2 == '\r' || char2 == '\n');
    let bl1 = lb1 && (str_ends_with(one, "\n\r\n") || str_ends_with(one, "\n\n"));
    let bl2 = lb2 && (str_starts_with(two, "\r\n\r\n") || str_starts_with(two, "\n\n"));
    if bl1 || bl2 {
        return 5;
    }
    if lb1 || lb2 {
        return 4;
    }
    if non_alnum1 && !ws1 && ws2 {
        return 3;
    }
    if ws1 || ws2 {
        return 2;
    }
    if non_alnum1 || non_alnum2 {
        return 1;
    }
    0
}

/// `k` characters end both `a` and `b`.
pub open spec fn common_suffix(a: Seq<char>, b: Seq<char>, k: int) -> bool {
    0 <= k <= a.len() && k <= b.len() && a.skip(a.len() - k) == b.skip(b.len() - k)
}

/// Length of the longest common suffix of `a` and `b`.
pub open spec fn suffix_len(a: Seq<char>, b: Seq<char>) -> nat
    decreases a.len(),
{
    if a.len() > 0 && b.len() > 0 && a.last() == b.last() {
        1 + suffix_len(a.drop_last(), b.drop_last())
    } else {
        0
    }
}

/// `suffix_len` is the largest `k` with `common_suffix`.
pub proof fn lemma_suffix_len(a: Seq<char>, b: Seq<char>)
    ensures
        common_suffix(a, b, suffix_len(a, b) as int),
        forall|k: int| suffix_len(a, b) < k ==> !common_suffix(a, b, k),
    decreases a.len(),
{
    if a.len() > 0 && b.len() > 0 && a.last() == b.last() {
        let a1 = a.drop_last();
        let b1 = b.drop_last();
        lemma_suffix_len(a1, b1);
        let c = suffix_len(a1, b1) as int;
        assert(a.skip(a.len() - (c + 1)) =~= a1.skip(a1.len() - c).push(a.last()));
        assert(b.skip(b.len() - (c + 1)) =~= b1.skip(b1.len() - c).push(b.last()));
        assert forall|k: int| suffix_len(a, b) < k implies !common_suffix(a, b, k) by {
            if common_suffix(a, b, k) {
                assert(a.skip(a.len() - k).drop_last() =~= a1.skip(a1.len() - (k - 1)));
                assert(b.skip(b.len() - k).drop_last() =~= b1.skip(b1.len() - (k - 1)));
                assert(common_suffix(a1, b1, k - 1));
            }
        }
    } else {
        assert(a.skip(a.len() as int) =~= b.skip(b.len() as int));
        assert forall|k: int| 0 < k implies !common_suffix(a, b, k) by {
            if common_suffix(a, b, k) {
                assert(a.skip(a.len() - k).last() == a.last());
                assert(b.skip(b.len() - k).last() == b.last());
            }
        }
    }
}

/// Length of the common suffix of `a` and `b`, in characters.
pub fn sfx(a: &str, b: &str) -> (r: usize)
    ensures
        r == suffix_len(a@, b@),
        common_suffix(a@, b@, r as int),
        forall|k: int| r < k ==> !common_suffix(a@, b@, k),
{
    let la = a.unicode_len();
    let lb = b.unicode_len();
    let mut i: usize = 0;
    while i < la && i < lb && a.get_char(la - 1 - i) == b.get_char(lb - 1 - i)
        invariant
            la == a@.len(),
            lb == b@.len(),
            i <= la,
            i <= lb,
            forall|k: int| la - i <= k < la ==> #[trigger] a@[k] == b@[k + lb - la],
        decreases la - i,
    {
        i = i + 1;
    }
    proof {
        assert(a@.skip(la - i) =~= b@.skip(lb - i)) by {
            assert forall|k: int| 0 <= k < i implies #[trigger] a@.skip(la - i)[k] == b@.skip(lb - i)[k] by {
                assert(a@[la - i + k] == b@[la - i + k + lb - la]);
            }
        }
        assert forall|k: int| i < k implies !common_suffix(a@, b@, k) by {
            if common_suffix(a@, b@, k) {
                assert(a@.skip(la - k)[k - 1 - i] == b@.skip(lb - k)[k - 1 - i]);
                assert(a@[la - 1 - i] == b@[lb - 1 - i]);
            }
        }
        lemma_suffix_len(a@, b@);
        if (i as int) < suffix_len(a@, b@) {
            assert(common_suffix(a@, b@, suffix_len(a@, b@) as int));
        }
        if (i as int) > suffix_len(a@, b@) {
            assert(common_suffix(a@, b@, i as int));
        }
    }
    i
}

/// The last `k` characters of `a` are the first `k` of `b`.
pub open spec fn overlaps(a: Seq<char>, b: Seq<char>, k: int) -> bool {
    0 <= k <= a.len() && k <= b.len() && a.skip(a.len() - k) == b.take(k)
}

fn chars_match(a: &str, from: usize, b: &str, k: usize) -> (r: bool)
    requires
        from + k <= a@.len(),
        k <= b@.len(),
    ensures
        r == (a@.subrange(from as int, from + k) == b@.take(k as int)),
{
    let n = a.unicode_len();
    let mut i: usize = 0;
    while i < k
        invariant
            n == a@.len(),
            from + k <= a@.len(),
            k <= b@.len(),
            i <= k,
            forall|j: int| 0 <= j < i ==> a@[from + j] == b@[j],
        decreases k - i,
    {
        if a.get_char(from + i) != b.get_char(i) {
            assert(a@.subrange(from as int, from + k)[i as int] != b@.take(k as int)[i as int]);
            return false;
        }
        i = i + 1;
    }
    assert(a@.subrange(from as int, from + k) =~= b@.take(k as int));
    true
}

/// The largest `k` up to `m` with `overlaps(a, b, k)`, or 0.
pub open spec fn overlap_upto(a: Seq<char>, b: Seq<char>, m: int) -> int
    decreases m,
{
    if m <= 0 {
        0
    } else if overlaps(a, b, m) {
        m
    } else {
        overlap_upto(a, b, m - 1)
    }
}

/// The largest number of characters that end `a` and start `b`.
pub open spec fn overlap_len(a: Seq<char>, b: Seq<char>) -> int {
    overlap_upto(a, b, if a.len() < b.len() { a.len() as int } else { b.len() as int })
}

proof fn lemma_overlap_upto(a: Seq<char>, b: Seq<char>, r: int, m: int)
    requires
        0 <= r <= m,
        overlaps(a, b, r),
        forall|k: int| r < k ==> !overlaps(a, b, k),
    ensures
        overlap_upto(a, b, m) == r,
    decreases m,
{
    if m > r {
        lemma_overlap_upto(a, b, r, m - 1);
    }
}

/// The largest number of characters that end `a` and start `b`.
pub fn overlap(a: &str, b: &str) -> (r: usize)
    ensures
        r == overlap_len(a@, b@),
        overlaps(a@, b@, r as int),
        forall|k: int| r < k ==> !overlaps(a@, b@, k),
{
    let la = a.unicode_len();
    let lb = b.unicode_len();
    let mut k: usize = if la < lb { la } else { lb };
    while k > 0
        invariant
            la == a@.len(),
            lb == b@.len(),
            k <= la,
            k <= lb,
            forall|j: int| k < j ==> !overlaps(a@, b@, j),
        decreases k,
    {
        if chars_match(a, la - k, b, k) {
            assert(a@.skip(la - k) =~= a@.subrange(la - k, la as int));
            proof {
                lemma_overlap_upto(a@, b@, k as int, if la < lb { la as int } else { lb as int });
            }
            return k;
        }
        proof {
            assert(a@.skip(la - k) =~= a@.subrange(la - k, la as int));
        }
        k = k - 1;
    }
    assert(a@.skip(la as int) =~= b@.take(0));
    proof {
        lemma_overlap_upto(a@, b@, 0, if la < lb { la as int } else { lb as int });
    }
    0
}

/// The characters `from .. to` of `s`, as a new string.
fn chars_between(s: &String, from: usize, to: usize) -> (r: String)
    requires
        from <= to <= s@.len(),
    ensures
        r@ == s@.subrange(from as int, to as int),
{
    String::from_str(s.as_str().substring_char(from, to))
}

/// `a` followed by `b`, as a new string.
fn cat(a: &String, b: &String) -> (r: String)
    ensures
        r@ == a@ + b@,
{
    let mut out = a.clone();
    out.append(b.as_str());
    out
}

/// Number of characters of `s`.
fn nchars(s: &String) -> (r: usize)
    ensures
        r == s@.len(),
{
    s.as_str().unicode_len()
}

/// Whether both strings are non-empty and start with the same character.
fn same_first(a: &String, b: &String) -> (r: bool)
    ensures
        r == (a@.len() > 0 && b@.len() > 0 && a@[0] == b@[0]),
{
    if nchars(a) == 0 || nchars(b) == 0 {
        false
    } else {
        a.as_str().get_char(0) == b.as_str().get_char(0)
    }
}

/// Texts of an edit between two equalities: what the source and the
/// destination read there.
pub open spec fn triple_src(e1: Seq<char>, t: PatchOpType, ed: Seq<char>, e2: Seq<char>) -> Seq<char> {
    if t == PatchOpType::Ins { e1 + e2 } else { e1 + ed + e2 }
}

pub open spec fn triple_dst(e1: Seq<char>, t: PatchOpType, ed: Seq<char>, e2: Seq<char>) -> Seq<char> {
    if t == PatchOpType::Del { e1 + e2 } else { e1 + ed + e2 }
}

/// An equality, an edit and an equality, by their texts.
pub type Split = (Seq<char>, Seq<char>, Seq<char>);

/// The edit moved left by the common suffix of the equality before it and
/// the edit: that suffix leaves the first equality and starts the second.
pub open spec fn shift_left(e1: Seq<char>, ed: Seq<char>, e2: Seq<char>) -> Split {
    let k = suffix_len(e1, ed) as int;
    let tail = ed.skip(ed.len() - k);
    (e1.take(e1.len() - k), tail + ed.take(ed.len() - k), tail + e2)
}

/// The edit can move one character right: it starts with the character
/// that starts the second equality.
pub open spec fn can_step(t: Split) -> bool {
    t.1.len() > 0 && t.2.len() > 0 && t.1[0] == t.2[0]
}

/// The edit moved one character right.
pub open spec fn step(t: Split) -> Split {
    (t.0.push(t.1[0]), t.1.drop_first().push(t.1[0]), t.2.drop_first())
}

/// The score of the two boundaries of a split.
pub open spec fn split_score(t: Split) -> int {
    score(t.0, t.1) + score(t.1, t.2)
}

/// Moving right from `cur` as long as possible, the last split scoring at
/// least as well as the best so far (`best`, scoring `best_score`).
pub open spec fn best_from(cur: Split, best: Split, best_score: int) -> Split
    decreases cur.2.len(),
{
    if can_step(cur) {
        let nxt = step(cur);
        if split_score(nxt) >= best_score {
            best_from(nxt, nxt, split_score(nxt))
        } else {
            best_from(nxt, best, best_score)
        }
    } else {
        best
    }
}

/// Where an edit between two equalities goes: shifted left, then the best
/// scoring of the splits reached moving right (the rightmost among equals).
pub open spec fn best_split(e1: Seq<char>, ed: Seq<char>, e2: Seq<char>) -> Split {
    let s = shift_left(e1, ed, e2);
    best_from(s, s, split_score(s))
}

/// Shifts the edit `e0` between the equalities `e1` and `e2`: first as far
/// left as their common suffix allows, then right step by step, keeping the
/// best scoring split (the rightmost among equals).  The three texts read
/// together, and the two equalities read together, stay the same.
fn best_shift(e1: &String, e0: &String, e2: &String) -> (r: (String, String, String))
    ensures
        (r.0@, r.1@, r.2@) == best_split(e1@, e0@, e2@),
        r.0@ + r.1@ + r.2@ == e1@ + e0@ + e2@,
        r.0@ + r.2@ == e1@ + e2@,
        r.1@.len() == e0@.len(),
{
    let mut equality1 = e1.clone();
    let mut edit = e0.clone();
    let mut equality2 = e2.clone();
    let common = sfx(equality1.as_str(), edit.as_str());
    proof {
        lemma_suffix_len(e1@, e0@);
        if common == 0 {
            assert(e1@.take(e1@.len() as int) =~= e1@);
            assert(e0@.skip(e0@.len() as int) =~= Seq::<char>::empty());
            assert(Seq::<char>::empty() + e0@.take(e0@.len() as int) =~= e0@);
            assert(Seq::<char>::empty() + e2@ =~= e2@);
        }
    }
    if common > 0 {
        let n1 = nchars(&equality1);
        let ne = nchars(&edit);
        let common_str = chars_between(&edit, ne - common, ne);
        let head = chars_between(&edit, 0, ne - common);
        let new_eq1 = chars_between(&equality1, 0, n1 - common);
        let new_edit = cat(&common_str, &head);
        let new_eq2 = cat(&common_str, &equality2);
        proof {
            assert(e1@ =~= new_eq1@ + common_str@);
            assert(e0@ =~= head@ + common_str@);
            assert(new_eq1@ + new_edit@ + new_eq2@ =~= e1@ + e0@ + e2@);
            assert(new_eq1@ + new_eq2@ =~= e1@ + e2@);
        }
        equality1 = new_eq1;
        edit = new_edit;
        equality2 = new_eq2;
    }
    assert((equality1@, edit@, equality2@) == shift_left(e1@, e0@, e2@));
    let mut best_eq1 = equality1.clone();
    let mut best_edit = edit.clone();
    let mut best_eq2 = equality2.clone();
    let mut best_score: u8 = semantic_score(equality1.as_str(), edit.as_str()) + semantic_score(
        edit.as_str(),
        equality2.as_str(),
    );
    let mut eq1 = equality1.clone();
    let mut ed = edit.clone();
    let mut eq2 = equality2.clone();
    while same_first(&ed, &eq2)
        invariant
            eq1@ + ed@ + eq2@ == e1@ + e0@ + e2@,
            eq1@ + eq2@ == e1@ + e2@,
            ed@.len() == e0@.len(),
            best_eq1@ + best_edit@ + best_eq2@ == e1@ + e0@ + e2@,
            best_eq1@ + best_eq2@ == e1@ + e2@,
            best_edit@.len() == e0@.len(),
            best_score <= 12,
            best_from((eq1@, ed@, eq2@), (best_eq1@, best_edit@, best_eq2@), best_score as int)
                == best_split(e1@, e0@, e2@),
        decreases eq2@.len(),
    {
        let ghost cur: Split = (eq1@, ed@, eq2@);
        let c = chars_between(&ed, 0, 1);
        let ned = nchars(&ed);
        let neq2 = nchars(&eq2);
        let ed_tail = chars_between(&ed, 1, ned);
        let new_eq1 = cat(&eq1, &c);
        let new_ed = cat(&ed_tail, &c);
        let new_eq2 = chars_between(&eq2, 1, neq2);
        proof {
            assert(ed@ =~= c@ + ed_tail@);
            assert(eq2@ =~= c@ + new_eq2@);
            assert(new_eq1@ + new_ed@ + new_eq2@ =~= eq1@ + ed@ + eq2@);
            assert(new_eq1@ + new_eq2@ =~= eq1@ + eq2@);
        }
        eq1 = new_eq1;
        ed = new_ed;
        eq2 = new_eq2;
        assert((eq1@, ed@, eq2@) =~= step(cur));
        let sc = semantic_score(eq1.as_str(), ed.as_str()) + semantic_score(ed.as_str(), eq2.as_str());
        if sc >= best_score {
            best_score = sc;
            best_eq1 = eq1.clone();
            best_edit = ed.clone();
            best_eq2 = eq2.clone();
        }
    }
    (best_eq1, best_edit, best_eq2)
}

/// A patch by the texts of its operations.
pub type PatchView = Seq<(PatchOpType, Seq<char>)>;

/// The view of a patch: each operation's kind and characters.
pub open spec fn view_of(p: Seq<(PatchOpType, String)>) -> PatchView {
    p.map_values(|op: (PatchOpType, String)| (op.0, op.1@))
}

/// The edit at `ptr`, between two equalities, moved to `best_split`; when
/// that changes the first equality, the three operations are rewritten and
/// equalities left empty dropped.  Also gives the position that now
/// precedes the next one to look at.
pub open spec fn slide_spec(v: PatchView, ptr: int) -> (PatchView, int) {
    let b = best_split(v[ptr - 1].1, v[ptr].1, v[ptr + 1].1);
    if v[ptr - 1].1 == b.0 {
        (v, ptr)
    } else {
        let v1 = v.update(ptr - 1, (PatchOpType::Eql, b.0)).update(ptr, (v[ptr].0, b.1)).update(
            ptr + 1,
            (PatchOpType::Eql, b.2),
        );
        let v2 = if b.2.len() == 0 { v1.remove(ptr + 1) } else { v1 };
        let v3 = if b.0.len() == 0 { v2.remove(ptr - 1) } else { v2 };
        let n1 = if b.0.len() == 0 { ptr - 1 } else { ptr };
        let n2 = if b.2.len() == 0 { if n1 > 0 { n1 - 1 } else { 0 } } else { n1 };
        (v3, n2)
    }
}

/// A slide keeps the position in range and never lets the pass go back.
pub proof fn lemma_slide_measure(v: PatchView, ptr: int)
    requires
        1 <= ptr,
        ptr + 1 < v.len(),
    ensures
        0 <= slide_spec(v, ptr).1 < slide_spec(v, ptr).0.len(),
        3 * slide_spec(v, ptr).0.len() - slide_spec(v, ptr).1 <= 3 * v.len() - ptr,
{
}

/// The pass of `cleanup_semantic_lossless` from position `ptr` on: each edit
/// between two equalities slides to its best place.
pub open spec fn lossless_from(v: PatchView, ptr: int) -> PatchView
    decreases 3 * v.len() + 1 - ptr,
{
    if 1 <= ptr && ptr + 1 < v.len() {
        if v[ptr - 1].0 == PatchOpType::Eql && v[ptr + 1].0 == PatchOpType::Eql {
            let w = slide_spec(v, ptr);
            proof {
                lemma_slide_measure(v, ptr);
            }
            lossless_from(w.0, w.1 + 1)
        } else {
            lossless_from(v, ptr + 1)
        }
    } else {
        v
    }
}

/// Whether the operation at `i` sits between two equalities.
pub open spec fn between_equalities(v: PatchView, i: int) -> bool {
    1 <= i && i + 1 < v.len() && v[i - 1].0 == PatchOpType::Eql && v[i + 1].0 == PatchOpType::Eql
}

/// With no operation between two equalities from `ptr` on, the pass changes
/// nothing: a patch without such an operation is left as it is.
pub proof fn lemma_lossless_without_triples(v: PatchView, ptr: int)
    requires
        forall|i: int| ptr <= i ==> !#[trigger] between_equalities(v, i),
    ensures
        lossless_from(v, ptr) == v,
    decreases 3 * v.len() + 1 - ptr,
{
    if 1 <= ptr && ptr + 1 < v.len() {
        assert(!between_equalities(v, ptr));
        lemma_lossless_without_triples(v, ptr + 1);
    }
}

/// Slides the edit at `pointer`, which sits between two equalities, to its
/// best place; returns the position of the operation that now precedes
/// the next one to look at.
fn slide_edit(patch: &mut Patch, pointer: usize) -> (next: usize)
    requires
        1 <= pointer,
        pointer + 1 < old(patch)@.len(),
        old(patch)@[pointer - 1].0 == PatchOpType::Eql,
        old(patch)@[pointer + 1].0 == PatchOpType::Eql,
    ensures
        src_text(final(patch)@) == src_text(old(patch)@),
        dst_text(final(patch)@) == dst_text(old(patch)@),
        (view_of(final(patch)@), next as int) == slide_spec(view_of(old(patch)@), pointer as int),
        next < final(patch)@.len(),
        3 * final(patch)@.len() - next <= 3 * old(patch)@.len() - pointer,
{
    let _ = patch.len();
    let ghost p0 = patch@;
    let ghost e1 = p0[pointer - 1].1@;
    let ghost e0 = p0[pointer as int].1@;
    let ghost e2 = p0[pointer + 1].1@;
    let edit_type = patch[pointer].0;
    let (best_eq1, best_edit, best_eq2) = best_shift(&patch[pointer - 1].1, &patch[pointer].1, &patch[pointer + 1].1);
    if patch[pointer - 1].1 == best_eq1 {
        return pointer;
    }
    let ghost mid = seq![(PatchOpType::Eql, best_eq1), (edit_type, best_edit), (PatchOpType::Eql, best_eq2)];
    proof {
        lemma_texts_three(p0[pointer - 1], p0[pointer as int], p0[pointer + 1]);
        lemma_texts_three(mid[0], mid[1], mid[2]);
        assert(p0.subrange(pointer - 1, pointer + 2) =~= seq![p0[pointer - 1], p0[pointer as int], p0[pointer + 1]]);
        assert(src_text(mid) == triple_src(best_eq1@, edit_type, best_edit@, best_eq2@));
        assert(triple_src(best_eq1@, edit_type, best_edit@, best_eq2@) =~= triple_src(e1, edit_type, e0, e2));
        assert(triple_dst(best_eq1@, edit_type, best_edit@, best_eq2@) =~= triple_dst(e1, edit_type, e0, e2));
        lemma_texts_replace(p0, pointer - 1, pointer + 2, mid);
        assert(p0.take(pointer - 1) + mid + p0.skip(pointer + 2) =~= p0.update(pointer - 1, mid[0]).update(pointer as int, mid[1]).update(pointer + 1, mid[2]));
    }
    let b2_empty = nchars(&best_eq2) == 0;
    let b1_empty = nchars(&best_eq1) == 0;
    patch.set(pointer - 1, (PatchOpType::Eql, best_eq1));
    patch.set(pointer, (edit_type, best_edit));
    patch.set(pointer + 1, (PatchOpType::Eql, best_eq2));
    let mut next = pointer;
    if b2_empty {
        let ghost p1 = patch@;
        proof {
            lemma_drop_empty(p1, pointer + 1);
        }
        patch.remove(pointer + 1);
    }
    if b1_empty {
        let ghost p2 = patch@;
        proof {
            lemma_drop_empty(p2, pointer - 1);
        }
        patch.remove(pointer - 1);
        next = next - 1;
    }
    if b2_empty {
        next = next.saturating_sub(1);
    }
    next
}

/// Slides each edit that sits between two equalities along them to where
/// the boundaries score best; equalities left empty are dropped.  Both
/// texts of the patch stay the same.
pub fn cleanup_semantic_lossless(patch: &mut Patch)
    ensures
        view_of(final(patch)@) == lossless_from(view_of(old(patch)@), 1),
        src_text(final(patch)@) == src_text(old(patch)@),
        dst_text(final(patch)@) == dst_text(old(patch)@),
{
    let mut pointer: usize = 1;
    while pointer < patch.len() && pointer + 1 < patch.len()
        invariant
            1 <= pointer,
            pointer <= patch@.len() + 1,
            src_text(patch@) == src_text(old(patch)@),
            dst_text(patch@) == dst_text(old(patch)@),
            lossless_from(view_of(patch@), pointer as int) == lossless_from(view_of(old(patch)@), 1),
        decreases 3 * patch@.len() + 1 - pointer,
    {
        if patch[pointer - 1].0 == PatchOpType::Eql && patch[pointer + 1].0 == PatchOpType::Eql {
            pointer = slide_edit(patch, pointer);
        }
        let _ = patch.len();
        pointer = pointer + 1;
    }
}

/// Dropping an empty equality keeps both texts.
proof fn lemma_drop_empty(p: Seq<(PatchOpType, String)>, i: int)
    requires
        0 <= i < p.len(),
        p[i].0 == PatchOpType::Eql,
        p[i].1@.len() == 0,
    ensures
        src_text(p.remove(i)) == src_text(p),
        dst_text(p.remove(i)) == dst_text(p),
{
    lemma_texts_split(p, i);
    let q = p.remove(i);
    assert(q =~= p.take(i) + p.skip(i + 1));
    lemma_texts_concat(p.take(i), p.skip(i + 1));
    assert(src_part(p[i]) =~= Seq::<char>::empty());
    assert(dst_part(p[i]) =~= Seq::<char>::empty());
    assert(src_text(p.take(i)) + src_part(p[i]) + src_text(p.skip(i + 1)) =~= src_text(p.take(i)) + src_text(p.skip(i + 1)));
    assert(dst_text(p.take(i)) + dst_part(p[i]) + dst_text(p.skip(i + 1)) =~= dst_text(p.take(i)) + dst_text(p.skip(i + 1)));
}

/// Number of equalities in a patch.
pub open spec fn eql_count<S>(p: Seq<(PatchOpType, S)>) -> nat
    decreases p.len(),
{
    if p.len() == 0 {
        0
    } else {
        eql_count(p.drop_last()) + if p.last().0 == PatchOpType::Eql { 1nat } else { 0nat }
    }
}

pub proof fn lemma_eql_count_concat<S>(p: Seq<(PatchOpType, S)>, q: Seq<(PatchOpType, S)>)
    ensures
        eql_count(p + q) == eql_count(p) + eql_count(q),
    decreases q.len(),
{
    if q.len() == 0 {
        assert(p + q =~= p);
    } else {
        lemma_eql_count_concat(p, q.drop_last());
        assert((p + q).drop_last() =~= p + q.drop_last());
    }
}

/// Turning the equality at `i` into a deletion and an insertion of its
/// text keeps both texts and removes one equality.
proof fn lemma_split_equality(p: Seq<(PatchOpType, String)>, i: int, t: String)
    requires
        0 <= i < p.len(),
        p[i] == (PatchOpType::Eql, t),
    ensures
        ({
            let q = p.insert(i, (PatchOpType::Del, t)).update(i + 1, (PatchOpType::Ins, t));
            &&& src_text(q) == src_text(p)
            &&& dst_text(q) == dst_text(p)
            &&& eql_count(q) + 1 == eql_count(p)
        }),
{
    let mid = seq![(PatchOpType::Del, t), (PatchOpType::Ins, t)];
    let q = p.insert(i, (PatchOpType::Del, t)).update(i + 1, (PatchOpType::Ins, t));
    assert(q =~= p.take(i) + mid + p.skip(i + 1));
    assert(p.subrange(i, i + 1) =~= seq![p[i]]);
    assert(src_text(mid) == src_text(p.subrange(i, i + 1))) by {
        lemma_texts_two(mid[0], mid[1]);
        lemma_texts_one(p[i]);
        assert(src_part(mid[0]) + src_part(mid[1]) =~= src_part(p[i]));
    }
    assert(dst_text(mid) == dst_text(p.subrange(i, i + 1))) by {
        lemma_texts_two(mid[0], mid[1]);
        lemma_texts_one(p[i]);
        assert(dst_part(mid[0]) + dst_part(mid[1]) =~= dst_part(p[i]));
    }
    lemma_texts_replace(p, i, i + 1, mid);
    assert(eql_count(mid) == 0) by {
        let e = Seq::<(PatchOpType, String)>::empty();
        assert(mid.drop_last() =~= seq![mid[0]]);
        assert(seq![mid[0]].drop_last() =~= e);
        assert(eql_count(e) == 0);
        assert(eql_count(seq![mid[0]]) == eql_count(e) + 0);
        assert(eql_count(mid) == eql_count(seq![mid[0]]) + 0);
    }
    assert(eql_count(seq![p[i]]) == 1) by {
        let e = Seq::<(PatchOpType, String)>::empty();
        assert(seq![p[i]].drop_last() =~= e);
        assert(eql_count(e) == 0);
        assert(eql_count(seq![p[i]]) == eql_count(e) + 1);
    }
    assert(p =~= p.take(i) + seq![p[i]] + p.skip(i + 1));
    lemma_eql_count_concat(p.take(i) + mid, p.skip(i + 1));
    lemma_eql_count_concat(p.take(i), mid);
    lemma_eql_count_concat(p.take(i) + seq![p[i]], p.skip(i + 1));
    lemma_eql_count_concat(p.take(i), seq![p[i]]);
}

/// Turning the equality at `i` into a deletion and an insertion removes one
/// equality.
pub proof fn lemma_split_count<S>(p: Seq<(PatchOpType, S)>, i: int, a: S, b: S)
    requires
        0 <= i < p.len(),
        p[i].0 == PatchOpType::Eql,
    ensures
        eql_count(p.insert(i, (PatchOpType::Del, a)).update(i + 1, (PatchOpType::Ins, b))) + 1
            == eql_count(p),
{
    let mid = seq![(PatchOpType::Del, a), (PatchOpType::Ins, b)];
    let q = p.insert(i, (PatchOpType::Del, a)).update(i + 1, (PatchOpType::Ins, b));
    assert(q =~= p.take(i) + mid + p.skip(i + 1));
    assert(eql_count(mid) == 0) by {
        let e = Seq::<(PatchOpType, S)>::empty();
        assert(mid.drop_last() =~= seq![mid[0]]);
        assert(seq![mid[0]].drop_last() =~= e);
        assert(eql_count(e) == 0);
        assert(eql_count(seq![mid[0]]) == eql_count(e) + 0);
        assert(eql_count(mid) == eql_count(seq![mid[0]]) + 0);
    }
    assert(eql_count(seq![p[i]]) == 1) by {
        let e = Seq::<(PatchOpType, S)>::empty();
        assert(seq![p[i]].drop_last() =~= e);
        assert(eql_count(e) == 0);
        assert(eql_count(seq![p[i]]) == eql_count(e) + 1);
    }
    assert(p =~= p.take(i) + seq![p[i]] + p.skip(i + 1));
    lemma_eql_count_concat(p.take(i) + mid, p.skip(i + 1));
    lemma_eql_count_concat(p.take(i), mid);
    lemma_eql_count_concat(p.take(i) + seq![p[i]], p.skip(i + 1));
    lemma_eql_count_concat(p.take(i), seq![p[i]]);
}

/// `a + b`, or `usize::MAX` when that is smaller.
pub open spec fn sat_add(a: nat, b: nat) -> nat {
    if a + b > usize::MAX { usize::MAX as nat } else { a + b }
}

/// The larger of two numbers.
pub open spec fn max_nat(a: nat, b: nat) -> nat {
    if a >= b { a } else { b }
}

/// The state of the scan for equalities to remove: the patch, the positions
/// of the equalities seen, the text of the last one if it is still a
/// candidate, the position, the lengths inserted and deleted before and after
/// that equality, and whether anything changed.
pub ghost struct EqScan {
    pub v: PatchView,
    pub eqs: Seq<int>,
    pub last: Option<Seq<char>>,
    pub ptr: int,
    pub ins1: nat,
    pub del1: nat,
    pub ins2: nat,
    pub del2: nat,
    pub changes: bool,
}

/// The scan at its start.
pub open spec fn scan_start(v: PatchView) -> EqScan {
    EqScan {
        v,
        eqs: Seq::empty(),
        last: None,
        ptr: 0,
        ins1: 0,
        del1: 0,
        ins2: 0,
        del2: 0,
        changes: false,
    }
}

/// The scan moved past an edit, counting its length.
pub open spec fn scan_past_edit(st: EqScan) -> EqScan {
    let op = st.v[st.ptr];
    let n = op.1.len();
    EqScan {
        v: st.v,
        eqs: st.eqs,
        last: st.last,
        ptr: st.ptr + 1,
        ins1: st.ins1,
        del1: st.del1,
        ins2: if op.0 == PatchOpType::Ins { sat_add(st.ins2, n) } else { st.ins2 },
        del2: if op.0 == PatchOpType::Ins { st.del2 } else { sat_add(st.del2, n) },
        changes: st.changes,
    }
}

/// Whether the last equality, `le`, is no longer than the edits on either
/// side of it (as counted in `st`) and is where the scan recorded it.
pub open spec fn removable(st: EqScan, le: Seq<char>) -> bool {
    let idx = st.eqs.last();
    &&& st.eqs.len() > 0
    &&& 0 <= idx < st.v.len()
    &&& st.v[idx] == (PatchOpType::Eql, le)
    &&& le.len() <= max_nat(st.ins1, st.del1)
    &&& le.len() <= max_nat(st.ins2, st.del2)
}

/// The scan after turning the last equality, `le`, into a deletion and an
/// insertion: it resumes just after the equality before the one dropped.
pub open spec fn scan_after_removal(st: EqScan, le: Seq<char>) -> EqScan {
    let idx = st.eqs.last();
    let e1 = st.eqs.drop_last();
    let e2 = if e1.len() > 0 { e1.drop_last() } else { e1 };
    let p = if e2.len() > 0 { e2.last() } else { 0 };
    EqScan {
        v: st.v.insert(idx, (PatchOpType::Del, le)).update(idx + 1, (PatchOpType::Ins, le)),
        eqs: e2,
        last: None,
        ptr: (if p > 0 { p - 1 } else { 0 }) + 1,
        ins1: 0,
        del1: 0,
        ins2: 0,
        del2: 0,
        changes: true,
    }
}

/// The scan of `cleanup_patch` for equalities to remove, run to its end:
/// the patch it leaves and whether it changed anything.
pub open spec fn scan_eqs(st: EqScan) -> (PatchView, bool)
    decreases eql_count(st.v), st.v.len() - st.ptr,
{
    if 0 <= st.ptr < st.v.len() {
        let op = st.v[st.ptr];
        if op.0 == PatchOpType::Eql {
            scan_eqs(
                EqScan {
                    v: st.v,
                    eqs: st.eqs.push(st.ptr),
                    last: Some(op.1),
                    ptr: st.ptr + 1,
                    ins1: st.ins2,
                    del1: st.del2,
                    ins2: 0,
                    del2: 0,
                    changes: st.changes,
                },
            )
        } else {
            let moved = scan_past_edit(st);
            match st.last {
                Some(le) => if removable(moved, le) {
                    proof {
                        lemma_split_count(st.v, st.eqs.last(), le, le);
                    }
                    scan_eqs(scan_after_removal(moved, le))
                } else {
                    scan_eqs(moved)
                },
                None => scan_eqs(moved),
            }
        }
    } else {
        (st.v, st.changes)
    }
}

/// The scan never adds equalities, and if it changes anything it removes
/// at least one.
pub proof fn lemma_scan_count(st: EqScan)
    ensures
        eql_count(scan_eqs(st).0) <= eql_count(st.v),
        scan_eqs(st).1 ==> st.changes || eql_count(scan_eqs(st).0) < eql_count(st.v),
    decreases eql_count(st.v), st.v.len() - st.ptr,
{
    if 0 <= st.ptr < st.v.len() {
        let op = st.v[st.ptr];
        if op.0 == PatchOpType::Eql {
            lemma_scan_count(
                EqScan {
                    v: st.v,
                    eqs: st.eqs.push(st.ptr),
                    last: Some(op.1),
                    ptr: st.ptr + 1,
                    ins1: st.ins2,
                    del1: st.del2,
                    ins2: 0,
                    del2: 0,
                    changes: st.changes,
                },
            );
        } else {
            let moved = scan_past_edit(st);
            match st.last {
                Some(le) => if removable(moved, le) {
                    lemma_split_count(st.v, st.eqs.last(), le, le);
                    lemma_scan_count(scan_after_removal(moved, le));
                } else {
                    lemma_scan_count(moved);
                },
                None => lemma_scan_count(moved),
            }
        }
    }
}

/// One step of the overlap pass at `ptr`: a deletion at `ptr - 1` followed
/// by an insertion at `ptr` whose overlap (either way round, the first when
/// equal) is at least half of one of them is split into the rest of one,
/// the overlap as an equality, and the rest of the other.  Gives the patch
/// and the position of the next step.
pub open spec fn overlap_step(v: PatchView, ptr: int) -> (PatchView, int) {
    if v[ptr - 1].0 == PatchOpType::Del && v[ptr].0 == PatchOpType::Ins {
        let del = v[ptr - 1].1;
        let ins = v[ptr].1;
        let ov1 = overlap_len(del, ins);
        let ov2 = overlap_len(ins, del);
        if ov1 >= ov2 {
            if ov1 >= del.len() - ov1 || ov1 >= ins.len() - ov1 {
                (
                    v.update(ptr - 1, (PatchOpType::Del, del.take(del.len() - ov1))).insert(
                        ptr,
                        (PatchOpType::Eql, ins.take(ov1)),
                    ).update(ptr + 1, (PatchOpType::Ins, ins.skip(ov1))),
                    ptr + 3,
                )
            } else {
                (v, ptr + 2)
            }
        } else if ov2 >= del.len() - ov2 || ov2 >= ins.len() - ov2 {
            (
                v.insert(ptr, (PatchOpType::Eql, del.take(ov2))).update(
                    ptr - 1,
                    (PatchOpType::Ins, ins.take(ins.len() - ov2)),
                ).update(ptr + 1, (PatchOpType::Del, del.skip(ov2))),
                ptr + 3,
            )
        } else {
            (v, ptr + 2)
        }
    } else {
        (v, ptr + 1)
    }
}

/// The overlap pass of `cleanup_patch` from position `ptr` on.
pub open spec fn overlap_from(v: PatchView, ptr: int) -> PatchView
    decreases 2 * v.len() + 1 - ptr,
{
    if 1 <= ptr && ptr < v.len() {
        let w = overlap_step(v, ptr);
        overlap_from(w.0, w.1)
    } else {
        v
    }
}

/// What `cleanup_patch` makes of a patch: the scan for equalities to
/// remove, repeated on its result while it changes something, then the
/// lossless pass and the overlap pass.
pub open spec fn cleanup_spec(v: PatchView) -> PatchView
    decreases eql_count(v),
{
    let r = scan_eqs(scan_start(v));
    let q = if r.1 {
        proof {
            lemma_scan_count(scan_start(v));
        }
        cleanup_spec(r.0)
    } else {
        r.0
    };
    overlap_from(lossless_from(q, 1), 1)
}

/// One step of the overlap pass of `cleanup_patch` at `pi`
/// (`overlap_step`); both texts stay the same.
#[verifier::rlimit(40)]
fn split_overlap(patch: &mut Patch, pi: usize) -> (next: u128)
    requires
        1 <= pi < old(patch)@.len(),
    ensures
        (view_of(final(patch)@), next as int) == overlap_step(view_of(old(patch)@), pi as int),
        src_text(final(patch)@) == src_text(old(patch)@),
        dst_text(final(patch)@) == dst_text(old(patch)@),
        1 <= next <= final(patch)@.len() + 1,
        2 * final(patch)@.len() - next < 2 * old(patch)@.len() - pi,
{
    let _ = patch.len();
    let ghost v0 = view_of(patch@);
    let ghost ptr0 = pi as int;
    let mut next: u128 = pi as u128;
    if patch[pi - 1].0 == PatchOpType::Del && patch[pi].0 == PatchOpType::Ins {
        let deletion = patch[pi - 1].1.clone();
        let insertion = patch[pi].1.clone();
        let del_chars = nchars(&deletion);
        let ins_chars = nchars(&insertion);
        let ov1 = overlap(deletion.as_str(), insertion.as_str());
        let ov2 = overlap(insertion.as_str(), deletion.as_str());
        let ghost p0 = patch@;
        assert(v0[pi - 1] == (PatchOpType::Del, deletion@));
        assert(v0[pi as int] == (PatchOpType::Ins, insertion@));
        if ov1 >= ov2 {
            if ov1 >= del_chars - ov1 || ov1 >= ins_chars - ov1 {
                let eq_str = chars_between(&insertion, 0, ov1);
                let del_str = chars_between(&deletion, 0, del_chars - ov1);
                let ins_str = chars_between(&insertion, ov1, ins_chars);
                let ghost mid = seq![(PatchOpType::Del, del_str), (PatchOpType::Eql, eq_str), (PatchOpType::Ins, ins_str)];
                proof {
                    lemma_texts_three(mid[0], mid[1], mid[2]);
                    lemma_texts_two(p0[pi - 1], p0[pi as int]);
                    assert(p0.subrange(pi - 1, pi + 1) =~= seq![p0[pi - 1], p0[pi as int]]);
                    assert(deletion@ =~= del_str@ + eq_str@);
                    assert(insertion@ =~= eq_str@ + ins_str@);
                    assert(src_text(mid) =~= src_text(p0.subrange(pi - 1, pi + 1)));
                    assert(dst_text(mid) =~= dst_text(p0.subrange(pi - 1, pi + 1)));
                    lemma_texts_replace(p0, pi - 1, pi + 1, mid);
                }
                patch.set(pi - 1, (PatchOpType::Del, del_str));
                patch.insert(pi, (PatchOpType::Eql, eq_str));
                patch.set(pi + 1, (PatchOpType::Ins, ins_str));
                proof {
                    assert(patch@ =~= p0.take(pi - 1) + mid + p0.skip(pi + 1));
                    assert(view_of(patch@) =~= v0.update(
                        ptr0 - 1,
                        (PatchOpType::Del, deletion@.take(deletion@.len() - ov1)),
                    ).insert(ptr0, (PatchOpType::Eql, insertion@.take(ov1 as int))).update(
                        ptr0 + 1,
                        (PatchOpType::Ins, insertion@.skip(ov1 as int)),
                    ));
                }
                next = next + 1;
            }
        } else if ov2 >= del_chars - ov2 || ov2 >= ins_chars - ov2 {
            let eq_str = chars_between(&deletion, 0, ov2);
            let ins_str = chars_between(&insertion, 0, ins_chars - ov2);
            let del_str = chars_between(&deletion, ov2, del_chars);
            let ghost mid = seq![(PatchOpType::Ins, ins_str), (PatchOpType::Eql, eq_str), (PatchOpType::Del, del_str)];
            proof {
                lemma_texts_three(mid[0], mid[1], mid[2]);
                lemma_texts_two(p0[pi - 1], p0[pi as int]);
                assert(p0.subrange(pi - 1, pi + 1) =~= seq![p0[pi - 1], p0[pi as int]]);
                assert(deletion@ =~= eq_str@ + del_str@);
                assert(insertion@ =~= ins_str@ + eq_str@);
                assert(src_text(mid) =~= src_text(p0.subrange(pi - 1, pi + 1)));
                assert(dst_text(mid) =~= dst_text(p0.subrange(pi - 1, pi + 1)));
                lemma_texts_replace(p0, pi - 1, pi + 1, mid);
            }
            patch.insert(pi, (PatchOpType::Eql, eq_str));
            patch.set(pi - 1, (PatchOpType::Ins, ins_str));
            patch.set(pi + 1, (PatchOpType::Del, del_str));
            proof {
                assert(patch@ =~= p0.take(pi - 1) + mid + p0.skip(pi + 1));
                assert(view_of(patch@) =~= v0.insert(
                    ptr0,
                    (PatchOpType::Eql, deletion@.take(ov2 as int)),
                ).update(ptr0 - 1, (PatchOpType::Ins, insertion@.take(insertion@.len() - ov2))).update(
                    ptr0 + 1,
                    (PatchOpType::Del, deletion@.skip(ov2 as int)),
                ));
            }
            next = next + 1;
        }
        next = next + 1;
    }
    next = next + 1;
    next
}

/// The scan state held by the variables of `cleanup_patch`.
pub open spec fn scan_state(
    p: Seq<(PatchOpType, String)>,
    eqs: Seq<usize>,
    last: Option<String>,
    ptr: int,
    ins1: usize,
    del1: usize,
    ins2: usize,
    del2: usize,
    changes: bool,
) -> EqScan {
    EqScan {
        v: view_of(p),
        eqs: eqs.map_values(|x: usize| x as int),
        last: match last {
            Some(t) => Some(t@),
            None => None,
        },
        ptr,
        ins1: ins1 as nat,
        del1: del1 as nat,
        ins2: ins2 as nat,
        del2: del2 as nat,
        changes,
    }
}

/// Removes equalities no longer than the edits on both sides of them (each
/// becomes a deletion and an insertion of its text), slides edits to
/// better boundaries, and splits a deletion followed by an insertion around
/// the text they overlap in.  Both texts of the patch stay the same.
pub fn cleanup_patch(patch: &mut Patch)
    ensures
        view_of(final(patch)@) == cleanup_spec(view_of(old(patch)@)),
        src_text(final(patch)@) == src_text(old(patch)@),
        dst_text(final(patch)@) == dst_text(old(patch)@),
    decreases eql_count(old(patch)@),
{
    let mut changes = false;
    let mut equalities: Vec<usize> = Vec::new();
    let mut last_equality: Option<String> = None;
    let mut pointer: u128 = 0;
    let mut len_ins1: usize = 0;
    let mut len_del1: usize = 0;
    let mut len_ins2: usize = 0;
    let mut len_del2: usize = 0;
    assert(equalities@.map_values(|x: usize| x as int) =~= Seq::<int>::empty());
    while pointer < patch.len() as u128
        invariant
            src_text(patch@) == src_text(old(patch)@),
            dst_text(patch@) == dst_text(old(patch)@),
            eql_count(patch@) + (if changes { 1int } else { 0int }) <= eql_count(old(patch)@),
            pointer <= patch@.len(),
            last_equality matches Some(t) ==> {
                &&& equalities@.len() > 0
                &&& equalities@.last() < patch@.len()
                &&& patch@[equalities@.last() as int] == (PatchOpType::Eql, t)
            },
            forall|k: int| 0 <= k < equalities@.len() ==> #[trigger] equalities@[k] < patch@.len(),
            scan_eqs(
                scan_state(
                    patch@,
                    equalities@,
                    last_equality,
                    pointer as int,
                    len_ins1,
                    len_del1,
                    len_ins2,
                    len_del2,
                    changes,
                ),
            ) == scan_eqs(scan_start(view_of(old(patch)@))),
        decreases eql_count(patch@), patch@.len() - pointer,
    {
        let pi = pointer as usize;
        let ghost st = scan_state(
            patch@,
            equalities@,
            last_equality,
            pointer as int,
            len_ins1,
            len_del1,
            len_ins2,
            len_del2,
            changes,
        );
        assert(view_of(patch@)[pi as int] == (patch@[pi as int].0, patch@[pi as int].1@));
        if patch[pi].0 == PatchOpType::Eql {
            equalities.push(pi);
            len_ins1 = len_ins2;
            len_del1 = len_del2;
            len_ins2 = 0;
            len_del2 = 0;
            last_equality = Some(patch[pi].1.clone());
            proof {
                let nxt = EqScan {
                    v: st.v,
                    eqs: st.eqs.push(st.ptr),
                    last: Some(st.v[st.ptr].1),
                    ptr: st.ptr + 1,
                    ins1: st.ins2,
                    del1: st.del2,
                    ins2: 0,
                    del2: 0,
                    changes: st.changes,
                };
                assert(scan_eqs(st) == scan_eqs(nxt));
                assert(equalities@.map_values(|x: usize| x as int) =~= st.eqs.push(st.ptr));
                assert(scan_state(
                    patch@,
                    equalities@,
                    last_equality,
                    pointer + 1,
                    len_ins1,
                    len_del1,
                    len_ins2,
                    len_del2,
                    changes,
                ) == nxt);
            }
        } else {
            let n = nchars(&patch[pi].1);
            if patch[pi].0 == PatchOpType::Ins {
                len_ins2 = len_ins2.saturating_add(n);
            } else {
                len_del2 = len_del2.saturating_add(n);
            }
            let ghost moved = scan_past_edit(st);
            assert(scan_state(
                patch@,
                equalities@,
                last_equality,
                pointer + 1,
                len_ins1,
                len_del1,
                len_ins2,
                len_del2,
                changes,
            ) == moved);
            let mut changed_here = false;
            match &last_equality {
                Some(le) => {
                    let le_len = nchars(le);
                    let m1 = if len_ins1 > len_del1 { len_ins1 } else { len_del1 };
                    let m2 = if len_ins2 > len_del2 { len_ins2 } else { len_del2 };
                    if le_len <= m1 && le_len <= m2 {
                        let eq_idx = equalities[equalities.len() - 1];
                        let le_text = le.clone();
                        let le_text2 = le.clone();
                        let ghost p0 = patch@;
                        proof {
                            lemma_split_equality(patch@, eq_idx as int, le_text);
                            assert(moved.eqs.last() == eq_idx as int);
                            assert(view_of(p0)[eq_idx as int] == (p0[eq_idx as int].0, p0[eq_idx as int].1@));
                            assert(removable(moved, le@));
                        }
                        patch.insert(eq_idx, (PatchOpType::Del, le_text));
                        patch.set(eq_idx + 1, (PatchOpType::Ins, le_text2));
                        let ghost e0 = equalities@;
                        equalities.pop();
                        if equalities.len() > 0 {
                            equalities.pop();
                        }
                        pointer = if equalities.len() > 0 {
                            equalities[equalities.len() - 1] as u128
                        } else {
                            0
                        };
                        if pointer > 0 {
                            pointer = pointer - 1;
                        }
                        changed_here = true;
                        proof {
                            let after = scan_after_removal(moved, le@);
                            assert(scan_eqs(st) == scan_eqs(after));
                            assert(view_of(patch@) =~= moved.v.insert(
                                eq_idx as int,
                                (PatchOpType::Del, le@),
                            ).update(eq_idx + 1, (PatchOpType::Ins, le@)));
                            let me = e0.map_values(|x: usize| x as int);
                            assert(me =~= moved.eqs);
                            let m1s = me.drop_last();
                            assert(e0.drop_last().map_values(|x: usize| x as int) =~= m1s);
                            if m1s.len() > 0 {
                                assert(equalities@ =~= e0.drop_last().drop_last());
                                assert(equalities@.map_values(|x: usize| x as int) =~= m1s.drop_last());
                            } else {
                                assert(equalities@ =~= e0.drop_last());
                                assert(equalities@.map_values(|x: usize| x as int) =~= m1s);
                            }
                            assert(after.ptr == pointer + 1);
                        }
                    }
                },
                None => {},
            }
            if changed_here {
                len_ins1 = 0;
                len_del1 = 0;
                len_ins2 = 0;
                len_del2 = 0;
                last_equality = None;
                changes = true;
                proof {
                    assert(scan_state(
                        patch@,
                        equalities@,
                        last_equality,
                        pointer + 1,
                        len_ins1,
                        len_del1,
                        len_ins2,
                        len_del2,
                        changes,
                    ) == scan_after_removal(moved, st.last->0));
                }
            } else {
                proof {
                    assert(scan_eqs(st) == scan_eqs(moved));
                }
            }
        }
        pointer = pointer + 1;
    }
    proof {
        let st = scan_state(
            patch@,
            equalities@,
            last_equality,
            pointer as int,
            len_ins1,
            len_del1,
            len_ins2,
            len_del2,
            changes,
        );
        assert(scan_eqs(st) == (view_of(patch@), changes));
    }
    let ghost scanned = view_of(patch@);
    if changes {
        cleanup_patch(patch);
    }
    cleanup_semantic_lossless(patch);
    let ghost smoothed = view_of(patch@);
    proof {
        let r = scan_eqs(scan_start(view_of(old(patch)@)));
        assert(r == (scanned, changes));
        assert(cleanup_spec(view_of(old(patch)@)) == overlap_from(smoothed, 1));
    }
    pointer = 1;
    while pointer < patch.len() as u128
        invariant
            src_text(patch@) == src_text(old(patch)@),
            dst_text(patch@) == dst_text(old(patch)@),
            1 <= pointer <= patch@.len() + 1,
            overlap_from(view_of(patch@), pointer as int) == overlap_from(smoothed, 1),
        decreases 2 * patch@.len() + 1 - pointer,
    {
        pointer = split_overlap(patch, pointer as usize);
    }
    proof {
        assert(overlap_from(view_of(patch@), pointer as int) == view_of(patch@));
    }
}

} // verus!
