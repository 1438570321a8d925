//! Facts about UTF-8 text: where a `str` may be cut, and how the bytes of
//! joined strings relate.

use vstd::prelude::*;
use vstd::string::StringSliceAdditionalSpecFns;
use vstd::utf8::{
    encode_utf8, is_char_boundary, is_continuation_byte, length_of_first_scalar,
    pop_first_scalar, valid_utf8,
};

verus! {

broadcast use vstd::utf8::group_utf8_lib;

/// The byte offset `i` starts a character of `bytes`, or is its end.
pub open spec fn char_boundary(bytes: Seq<u8>, i: int) -> bool {
    0 <= i <= bytes.len() && (i == bytes.len() || !is_continuation_byte(bytes[i]))
}

/// In valid UTF-8, a byte offset is a boundary exactly when it does not point
/// at a continuation byte.
pub proof fn lemma_char_boundary(bytes: Seq<u8>, i: int)
    requires
        valid_utf8(bytes),
        0 <= i <= bytes.len(),
    ensures
        is_char_boundary(bytes, i) <==> char_boundary(bytes, i),
{
}

proof fn lemma_boundary_after_ascii_rec(bytes: Seq<u8>, i: int)
    requires
        valid_utf8(bytes),
        is_char_boundary(bytes, i),
        0 <= i < bytes.len(),
        bytes[i] < 0x80,
    ensures
        is_char_boundary(bytes, i + 1),
    decreases bytes.len(),
{
    let rest = pop_first_scalar(bytes);
    let n = length_of_first_scalar(bytes);
    if i == 0 {
        assert(n == 1);
        assert(is_char_boundary(rest, 0));
    } else {
        assert(is_char_boundary(rest, i - n));
        assert(rest[i - n] == bytes[i]);
        lemma_boundary_after_ascii_rec(rest, i - n);
    }
}

/// The offset after an ASCII character is a boundary.
pub proof fn lemma_boundary_after_ascii(bytes: Seq<u8>, i: int)
    requires
        valid_utf8(bytes),
        0 <= i < bytes.len(),
        bytes[i] < 0x80,
    ensures
        char_boundary(bytes, i + 1),
{
    lemma_char_boundary(bytes, i);
    lemma_boundary_after_ascii_rec(bytes, i);
    lemma_char_boundary(bytes, i + 1);
}

/// The UTF-8 encoding of two joined character sequences is the join of
/// their encodings.
pub proof fn lemma_encode_utf8_concat(a: Seq<char>, b: Seq<char>)
    ensures
        encode_utf8(a + b) == encode_utf8(a) + encode_utf8(b),
    decreases a.len(),
{
    if a.len() == 0 {
        assert(a + b =~= b);
    } else {
        assert((a + b).drop_first() =~= a.drop_first() + b);
        lemma_encode_utf8_concat(a.drop_first(), b);
    }
}

/// The bytes of `s` from offset `start` to offset `end`, both of them
/// boundaries.
pub fn substring<'a>(s: &'a str, start: usize, end: usize) -> (r: &'a str)
    requires
        start <= end,
        char_boundary(s.spec_bytes(), start as int),
        char_boundary(s.spec_bytes(), end as int),
    ensures
        r.spec_bytes() == s.spec_bytes().subrange(start as int, end as int),
{
    let ghost bytes = s.spec_bytes();
    proof {
        lemma_char_boundary(bytes, start as int);
    }
    let (_, rest) = s.split_at(start);
    let ghost rb = rest.spec_bytes();
    proof {
        assert(rb == bytes.subrange(start as int, bytes.len() as int));
        let k = end - start;
        if k < rb.len() {
            assert(rb[k] == bytes[end as int]);
        }
        lemma_char_boundary(rb, k as int);
    }
    let (mid, _) = rest.split_at(end - start);
    proof {
        assert(mid.spec_bytes() =~= bytes.subrange(start as int, end as int));
    }
    mid
}

} // verus!
