//! Byte-level facts about UTF-8 text and the few std calls on text that the
//! parser makes.
use vstd::prelude::*;
use vstd::string::StringSliceAdditionalSpecFns;
use vstd::utf8::*;

use crate::semantics::scalar_char;

verus! {

broadcast use vstd::utf8::group_utf8_lib;

/// In valid UTF-8, a continuation byte follows a non-ASCII byte.
pub proof fn lemma_continuation_follows_non_ascii(b: Seq<u8>, j: int)
    requires
        valid_utf8(b),
        0 < j < b.len(),
        is_continuation_byte(b[j]),
    ensures
        b[j - 1] >= 0x80,
    decreases b.len(),
{
    let w = length_of_first_scalar(b);
    let tail = pop_first_scalar(b);
    assert(valid_first_scalar(b) && valid_utf8(tail));
    if j < w {
        // j - 1 is the leading byte or an earlier continuation byte of the first scalar
    } else if j == w {
        assert(tail[0] == b[j]);
        assert(tail.len() > 0);
        assert(valid_first_scalar(tail));
    } else {
        assert(tail[j - w] == b[j]);
        assert(tail[j - w - 1] == b[j - 1]);
        lemma_continuation_follows_non_ascii(tail, j - w);
    }
}

/// A position of valid UTF-8 text is a character boundary exactly when it is
/// the end or does not hold a continuation byte.
pub proof fn lemma_boundary(b: Seq<u8>, i: int)
    requires
        valid_utf8(b),
        0 <= i <= b.len(),
    ensures
        is_char_boundary(b, i) <==> (i == b.len() || !is_continuation_byte(b[i])),
{
    if i == b.len() {
        is_char_boundary_start_end_of_seq(b);
    } else {
        is_char_boundary_iff_not_is_continuation_byte(b, i);
    }
}

/// The position after an ASCII byte of valid UTF-8 text is a character boundary.
pub proof fn lemma_boundary_after_ascii(b: Seq<u8>, i: int)
    requires
        valid_utf8(b),
        0 <= i < b.len(),
        b[i] < 0x80,
    ensures
        is_char_boundary(b, i + 1),
{
    lemma_boundary(b, i + 1);
    if i + 1 < b.len() && is_continuation_byte(b[i + 1]) {
        lemma_continuation_follows_non_ascii(b, i + 1);
    }
}

/// A byte is a UTF-8 continuation byte exactly when its top two bits are `10`.
pub proof fn lemma_continuation_mask(x: u8)
    ensures
        (x & 0xC0 == 0x80) <==> is_continuation_byte(x),
{
    assert((x & 0xC0 == 0x80) <==> (0x80 <= x && x <= 0xbf)) by (bit_vector);
}

/// The text of `s` between the byte offsets `start` and `end`.
pub fn slice_str<'s>(s: &'s str, start: usize, end: usize) -> (r: &'s str)
    requires
        start <= end <= s.spec_bytes().len(),
        is_char_boundary(s.spec_bytes(), start as int),
        is_char_boundary(s.spec_bytes(), end as int),
    ensures
        r.spec_bytes() == s.spec_bytes().subrange(start as int, end as int),
        r@ == decode_utf8(s.spec_bytes().subrange(start as int, end as int)),
{
    let ghost b = s.spec_bytes();
    proof {
        encode_utf8_valid_utf8(s@);
        valid_utf8_split(b, start as int);
        let rest = b.subrange(start as int, b.len() as int);
        lemma_boundary(b, end as int);
        lemma_boundary(rest, end - start);
        if end < b.len() {
            assert(rest[end - start] == b[end as int]);
        }
    }
    let (_, rest) = s.split_at(start);
    let (mid, _) = rest.split_at(end - start);
    proof {
        assert(mid.spec_bytes() =~= b.subrange(start as int, end as int));
        encode_utf8_decode_utf8(mid@);
    }
    mid
}

/// Whether two strings hold the same text.
pub fn str_eq(a: &str, b: &str) -> (r: bool)
    ensures
        r == (a@ == b@),
{
    let x = a.as_bytes();
    let y = b.as_bytes();
    proof {
        encode_utf8_decode_utf8(a@);
        encode_utf8_decode_utf8(b@);
    }
    if x.len() != y.len() {
        return false;
    }
    let mut i: usize = 0;
    while i < x.len()
        invariant
            x@.len() == y@.len(),
            x@ == a.spec_bytes(),
            y@ == b.spec_bytes(),
            0 <= i <= x@.len(),
            forall|k: int| 0 <= k < i ==> x@[k] == y@[k],
        decreases x@.len() - i,
    {
        if x[i] != y[i] {
            assert(x@[i as int] != y@[i as int]);
            assert(x@ != y@);
            return false;
        }
        i = i + 1;
    }
    assert(x@ =~= y@);
    true
}

/// `char::from_u32`: the character whose scalar value is `v`, or `None` when
/// `v` is a surrogate or above `0x10FFFF`, as std documents it.
#[verifier::external_body]
pub(crate) fn char_from_u32(v: u32) -> (r: Option<char>)
    ensures
        r == scalar_char(v as int),
{
    char::from_u32(v)
}

/// `String::push`: appends one character, as std documents it.
#[verifier::external_body]
pub(crate) fn push_char(s: &mut String, c: char)
    ensures
        final(s)@ == old(s)@.push(c),
{
    s.push(c)
}

} // verus!
