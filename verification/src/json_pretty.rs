//! Single-line pretty printing of JSON: one space after every `{`, `[`,
//! `:` and `,`, and one before every `}` and `]`.
use vstd::prelude::*;
use crate::diff_bin::push_char;

verus! {

/// A JSON value as `serde_json` holds it.
#[verifier::external_type_specification]
#[verifier::external_body]
pub struct ExValue(serde_json::Value);

/// The compact JSON text `serde_json` writes for a value.
pub uninterp spec fn json_text(v: serde_json::Value) -> Seq<char>;

/// `serde_json::to_string` on a value; the empty string should it fail.
/// Its result is named `json_text(value)`: the text depends on the value
/// alone.
#[verifier::external_body]
fn to_json_text(value: &serde_json::Value) -> (r: String)
    ensures
        r@ == json_text(*value),
{
    serde_json::to_string(value).unwrap_or_default()
}

/// Whether a space goes after the character.
pub open spec fn opens(c: char) -> bool {
    c == '{' || c == '[' || c == ':' || c == ','
}

/// Whether a space goes before the character.
pub open spec fn closes(c: char) -> bool {
    c == '}' || c == ']'
}

/// `s` with a space after each character that `opens`.
pub open spec fn spaced_after(s: Seq<char>) -> Seq<char>
    decreases s.len(),
{
    if s.len() == 0 {
        Seq::empty()
    } else {
        spaced_after(s.drop_last()) + if opens(s.last()) {
            seq![s.last(), ' ']
        } else {
            seq![s.last()]
        }
    }
}

/// `s` with a space before each character that `closes`.
pub open spec fn spaced_before(s: Seq<char>) -> Seq<char>
    decreases s.len(),
{
    if s.len() == 0 {
        Seq::empty()
    } else {
        spaced_before(s.drop_last()) + if closes(s.last()) {
            seq![' ', s.last()]
        } else {
            seq![s.last()]
        }
    }
}

/// Inserts a space after every `{`, `[`, `:` and `,`.
pub fn insert_space_after(s: &str) -> (r: String)
    ensures
        r@ == spaced_after(s@),
{
    let n = s.unicode_len();
    let mut out = String::new();
    let mut i: usize = 0;
    while i < n
        invariant
            n == s@.len(),
            i <= n,
            out@ == spaced_after(s@.take(i as int)),
        decreases n - i,
    {
        let ch = s.get_char(i);
        push_char(&mut out, ch);
        if ch == '{' || ch == '[' || ch == ':' || ch == ',' {
            push_char(&mut out, ' ');
        }
        proof {
            assert(s@.take(i + 1).drop_last() =~= s@.take(i as int));
            assert(s@.take(i + 1).last() == ch);
        }
        i = i + 1;
        assert(out@ =~= spaced_after(s@.take(i as int)));
    }
    assert(s@.take(n as int) =~= s@);
    out
}

/// Inserts a space before every `}` and `]`.
pub fn insert_space_before(s: &str) -> (r: String)
    ensures
        r@ == spaced_before(s@),
{
    let n = s.unicode_len();
    let mut out = String::new();
    let mut i: usize = 0;
    while i < n
        invariant
            n == s@.len(),
            i <= n,
            out@ == spaced_before(s@.take(i as int)),
        decreases n - i,
    {
        let ch = s.get_char(i);
        if ch == '}' || ch == ']' {
            push_char(&mut out, ' ');
        }
        push_char(&mut out, ch);
        proof {
            assert(s@.take(i + 1).drop_last() =~= s@.take(i as int));
            assert(s@.take(i + 1).last() == ch);
        }
        i = i + 1;
        assert(out@ =~= spaced_before(s@.take(i as int)));
    }
    assert(s@.take(n as int) =~= s@);
    out
}

/// The compact JSON text of `value`, with a space after every `{`, `[`, `:`
/// and `,` and before every `}` and `]` (inside strings too).
pub fn pretty_one_line(value: &serde_json::Value) -> (r: String)
    ensures
        r@ == spaced_before(spaced_after(json_text(*value))),
{
    let json = to_json_text(value);
    let step1 = insert_space_after(json.as_str());
    insert_space_before(step1.as_str())
}

} // verus!
