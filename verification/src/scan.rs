//! Byte-level scanning over a name, and the UTF-8 facts that let the
//! scanning positions be used as string-slicing positions.

use vstd::prelude::*;
use vstd::utf8::encode_utf8;
use vstd::utf8::is_char_boundary;
use vstd::utf8::is_leading_byte_width_1;
use vstd::utf8::length_of_first_scalar;
use vstd::utf8::pop_first_scalar;
use vstd::utf8::valid_utf8;

use crate::model::dot;

verus! {

/// The position of the first `.` byte of `b`, or `b.len()` when there is
/// none. Since every byte before it is no dot, this is also the byte length
/// of the first label.
pub fn find_dot(b: &[u8]) -> (i: usize)
    ensures
        0 <= i <= b@.len(),
        forall|k: int| 0 <= k < i ==> b@[k] != dot(),
        i < b@.len() ==> b@[i as int] == dot(),
{
    let n = b.len();
    let mut i: usize = 0;
    while i < n
        invariant
            n == b@.len(),
            0 <= i <= n,
            forall|k: int| 0 <= k < i ==> b@[k] != dot(),
        decreases n - i,
    {
        if b[i] == 46u8 {
            return i;
        }
        i = i + 1;
    }
    i
}

/// In a valid UTF-8 byte sequence, the position after a one-byte character
/// that starts at a character boundary is itself a character boundary.
pub proof fn lemma_boundary_after_ascii(bytes: Seq<u8>, i: int)
    requires
        valid_utf8(bytes),
        0 <= i < bytes.len(),
        is_char_boundary(bytes, i),
        is_leading_byte_width_1(bytes[i]),
    ensures
        is_char_boundary(bytes, i + 1),
    decreases bytes.len(),
{
    let rest = pop_first_scalar(bytes);
    let width = length_of_first_scalar(bytes);
    if i == 0 {
        assert(width == 1);
        assert(is_char_boundary(rest, 0));
        assert(is_char_boundary(bytes, 1));
    } else {
        assert(is_char_boundary(rest, i - width));
        assert(i - width >= 0);
        assert(rest[i - width] == bytes[i]);
        lemma_boundary_after_ascii(rest, i - width);
        assert(is_char_boundary(bytes, i + 1));
    }
}

/// The UTF-8 encoding of a concatenation is the concatenation of the
/// encodings.
pub proof fn lemma_encode_utf8_concat(a: Seq<char>, b: Seq<char>)
    ensures
        encode_utf8(a + b) == encode_utf8(a) + encode_utf8(b),
    decreases a.len(),
{
    if a.len() == 0 {
        assert(a + b =~= b);
        assert(encode_utf8(a + b) =~= encode_utf8(a) + encode_utf8(b));
    } else {
        assert((a + b).drop_first() =~= a.drop_first() + b);
        lemma_encode_utf8_concat(a.drop_first(), b);
        assert((a + b)[0] == a[0]);
        assert(encode_utf8(a + b) =~= encode_utf8(a) + encode_utf8(b));
    }
}

} // verus!
