use vstd::prelude::*;
use vstd::utf8::*;

verus! {

/// Relies on `String::from_utf8_lossy`: bytes that are valid UTF-8 come back
/// as the string they encode, unchanged.
#[verifier::external_body]
pub(crate) fn decode_text(b: &[u8]) -> (r: String)
    requires
        valid_utf8(b@),
    ensures
        r@ == decode_utf8(b@),
{
    String::from_utf8_lossy(b).into_owned()
}

/// Copies the bytes `b[start..end]` into a new vector.
pub(crate) fn copy_range(b: &[u8], start: usize, end: usize) -> (r: Vec<u8>)
    requires
        start <= end <= b@.len(),
    ensures
        r@ == b@.subrange(start as int, end as int),
{
    let mut out: Vec<u8> = Vec::new();
    let mut k: usize = start;
    while k < end
        invariant
            start <= k <= end <= b@.len(),
            out@ == b@.subrange(start as int, k as int),
        decreases end - k,
    {
        out.push(b[k]);
        k += 1;
        assert(out@ =~= b@.subrange(start as int, k as int));
    }
    out
}

/// An ASCII byte in valid UTF-8 begins a character.
pub proof fn lemma_ascii_boundary(b: Seq<u8>, i: int)
    requires
        valid_utf8(b),
        0 <= i < b.len(),
        b[i] < 128,
    ensures
        is_char_boundary(b, i),
{
    is_char_boundary_iff_not_is_continuation_byte(b, i);
}

/// The byte after an ASCII character in valid UTF-8 begins a character, or is
/// the end of the text.
pub proof fn lemma_after_ascii_boundary(b: Seq<u8>, i: int)
    requires
        valid_utf8(b),
        0 <= i < b.len(),
        b[i] < 128,
    ensures
        is_char_boundary(b, i + 1),
    decreases b.len(),
{
    lemma_ascii_boundary(b, i);
    let tail = pop_first_scalar(b);
    let first = length_of_first_scalar(b);
    if i == 0 {
        assert(first == 1);
        assert(is_char_boundary(tail, 0));
    } else {
        assert(valid_utf8(tail));
        assert(is_char_boundary(tail, i - first));
        assert(tail[i - first] == b[i]);
        lemma_after_ascii_boundary(tail, i - first);
    }
}

/// The bytes between two character boundaries of valid UTF-8 are valid UTF-8.
pub proof fn lemma_valid_slice(b: Seq<u8>, s: int, e: int)
    requires
        valid_utf8(b),
        0 <= s <= e <= b.len(),
        is_char_boundary(b, s),
        is_char_boundary(b, e),
    ensures
        valid_utf8(b.subrange(s, e)),
{
    valid_utf8_split(b, e);
    let p = b.subrange(0, e);
    if s == e {
        is_char_boundary_start_end_of_seq(p);
    } else {
        is_char_boundary_iff_not_is_continuation_byte(b, s);
        is_char_boundary_iff_not_is_continuation_byte(p, s);
    }
    valid_utf8_split(p, s);
    assert(p.subrange(s, p.len() as int) =~= b.subrange(s, e));
}

} // verus!
