//! Byte strings as character strings, one character per byte.
use vstd::prelude::*;
use crate::str_utils::{Patch, src_text, dst_text};

verus! {

/// Appends one character (`String::push`).
#[verifier::external_body]
pub(crate) fn push_char(s: &mut String, c: char)
    ensures
        final(s)@ == old(s)@.push(c),
{
    s.push(c);
}

/// The characters with the code points of the bytes.
pub open spec fn chars_of_bytes(b: Seq<u8>) -> Seq<char> {
    b.map_values(|x: u8| x as char)
}

/// The low byte of each character's code point.
pub open spec fn bytes_of_chars(s: Seq<char>) -> Seq<u8> {
    s.map_values(|c: char| c as u8)
}

/// Encodes bytes as a string with one character per byte (code points
/// 0 to 255).
pub fn to_str(buf: &[u8]) -> (r: String)
    ensures
        r@ == chars_of_bytes(buf@),
{
    let mut out = String::new();
    let mut i: usize = 0;
    while i < buf.len()
        invariant
            i <= buf@.len(),
            out@ == chars_of_bytes(buf@.take(i as int)),
        decreases buf@.len() - i,
    {
        let b = buf[i];
        push_char(&mut out, b as char);
        i = i + 1;
        assert(out@ =~= chars_of_bytes(buf@.take(i as int)));
    }
    assert(buf@.take(buf@.len() as int) =~= buf@);
    out
}

/// Decodes a string of one character per byte back to bytes, keeping the
/// low byte of each code point.
pub fn to_bin(s: &str) -> (r: Vec<u8>)
    ensures
        r@ == bytes_of_chars(s@),
{
    let n = s.unicode_len();
    let mut out: Vec<u8> = Vec::new();
    let mut i: usize = 0;
    while i < n
        invariant
            n == s@.len(),
            i <= n,
            out@ == bytes_of_chars(s@.take(i as int)),
        decreases n - i,
    {
        let c = s.get_char(i);
        out.push(c as u8);
        i = i + 1;
        assert(out@ =~= bytes_of_chars(s@.take(i as int)));
    }
    assert(s@.take(n as int) =~= s@);
    out
}

/// The source bytes of a patch over byte strings.
pub fn patch_src(patch: &Patch) -> (r: Vec<u8>)
    ensures
        r@ == bytes_of_chars(src_text(patch@)),
{
    let s = crate::str_utils::patch_src(patch);
    to_bin(s.as_str())
}

/// The destination bytes of a patch over byte strings.
pub fn patch_dst(patch: &Patch) -> (r: Vec<u8>)
    ensures
        r@ == bytes_of_chars(dst_text(patch@)),
{
    let s = crate::str_utils::patch_dst(patch);
    to_bin(s.as_str())
}

/// Decoding an encoded byte string gives the bytes back.
pub proof fn lemma_bin_roundtrip(b: Seq<u8>)
    ensures
        bytes_of_chars(chars_of_bytes(b)) == b,
{
    assert forall|i: int| 0 <= i < b.len() implies #[trigger] bytes_of_chars(chars_of_bytes(b))[i]
        == b[i] by {
        let x = b[i];
        assert((x as char) as u8 == x);
    }
    assert(bytes_of_chars(chars_of_bytes(b)) =~= b);
}

} // verus!
