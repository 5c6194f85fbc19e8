//! Source text as UTF-8: comparing strings and cutting a byte range out of a
//! source unit.

use vstd::prelude::*;
use vstd::string::StringSliceAdditionalSpecFns;
use vstd::utf8::{
    decode_utf8, encode_utf8, encode_utf8_decode_utf8, encode_utf8_valid_utf8, is_char_boundary,
    is_char_boundary_iff_not_is_continuation_byte, is_char_boundary_start_end_of_seq,
};

verus! {

/// Whether the byte range `start..end` can be cut out of `src`: it lies inside
/// the UTF-8 encoding of `src` and both ends fall between characters.
pub open spec fn locates_text(src: Seq<char>, start: int, end: int) -> bool {
    &&& 0 <= start <= end <= encode_utf8(src).len()
    &&& is_char_boundary(encode_utf8(src), start)
    &&& is_char_boundary(encode_utf8(src), end)
}

/// The characters that the bytes `start..end` of the UTF-8 encoding of `src`
/// spell out.
pub open spec fn text_at(src: Seq<char>, start: int, end: int) -> Seq<char> {
    decode_utf8(encode_utf8(src).subrange(start, end))
}

/// Two character sequences with the same UTF-8 encoding are the same sequence.
pub proof fn lemma_encoding_is_injective(a: Seq<char>, b: Seq<char>)
    requires
        encode_utf8(a) == encode_utf8(b),
    ensures
        a == b,
{
    encode_utf8_decode_utf8(a);
    encode_utf8_decode_utf8(b);
}

/// String equality, decided on the encoded bytes.
pub fn same_text(a: &str, b: &str) -> (same: bool)
    ensures
        same == (a@ == b@),
{
    let x = a.as_bytes();
    let y = b.as_bytes();
    if x.len() != y.len() {
        return false;
    }
    let mut i: usize = 0;
    while i < x.len()
        invariant
            i <= x.len(),
            x.len() == y.len(),
            x@ == a.spec_bytes(),
            y@ == b.spec_bytes(),
            forall|j: int| 0 <= j < i ==> x@[j] == y@[j],
        decreases x.len() - i,
    {
        if x[i] != y[i] {
            return false;
        }
        i += 1;
    }
    proof {
        assert(x@ =~= y@);
        lemma_encoding_is_injective(a@, b@);
    }
    true
}

/// The part of `src` that the byte range `start..end` locates, or `None` where
/// the range does not locate text.
pub fn slice_text<'a>(src: &'a str, start: usize, end: usize) -> (out: Option<&'a str>)
    ensures
        out is Some <==> locates_text(src@, start as int, end as int),
        out matches Some(s) ==> s@ == text_at(src@, start as int, end as int),
{
    let len = src.as_bytes().len();
    if start <= end && end <= len && src.is_char_boundary(start) && src.is_char_boundary(end) {
        let (head, _) = src.split_at(end);
        proof {
            let bytes = src.spec_bytes();
            let head_bytes = head.spec_bytes();
            encode_utf8_valid_utf8(src@);
            encode_utf8_valid_utf8(head@);
            assert(head_bytes.len() == end);
            if start < end {
                is_char_boundary_iff_not_is_continuation_byte(bytes, start as int);
                is_char_boundary_iff_not_is_continuation_byte(head_bytes, start as int);
                assert(head_bytes[start as int] == bytes[start as int]);
            } else {
                is_char_boundary_start_end_of_seq(head_bytes);
            }
        }
        let (_, part) = head.split_at(start);
        proof {
            assert(part.spec_bytes() =~= src.spec_bytes().subrange(start as int, end as int));
            encode_utf8_decode_utf8(part@);
        }
        Some(part)
    } else {
        None
    }
}

} // verus!
