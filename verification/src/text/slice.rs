//! Pieces of a text that are given by byte positions.

use vstd::prelude::*;
use vstd::string::*;
use vstd::utf8::*;

verus! {

/// Whether the byte positions `from` and `to` cut a text between characters.
pub open spec fn cuts(s: Seq<char>, from: int, to: int) -> bool {
    &&& 0 <= from <= to <= encode_utf8(s).len()
    &&& is_char_boundary(encode_utf8(s), from)
    &&& is_char_boundary(encode_utf8(s), to)
}

/// The characters from byte position `from` up to byte position `to`; nothing where these do not
/// cut the text between characters.
pub open spec fn byte_slice(s: Seq<char>, from: int, to: int) -> Seq<char> {
    if cuts(s, from, to) {
        decode_utf8(encode_utf8(s).subrange(from, to))
    } else {
        Seq::empty()
    }
}

/// The characters from byte position `from` up to byte position `to`.
pub fn slice_of(s: &str, from: usize, to: usize) -> (r: &str)
    ensures
        r@ == byte_slice(s@, from as int, to as int),
{
    let ghost bytes = encode_utf8(s@);
    proof {
        encode_utf8_valid_utf8(s@);
        reveal_strlit("");
        assert(""@ =~= Seq::<char>::empty());
    }
    if from > to || !s.is_char_boundary(from) || !s.is_char_boundary(to) {
        return "";
    }
    let (head, _) = s.split_at(to);
    proof {
        let b = bytes.subrange(0, to as int);
        valid_utf8_split(bytes, to as int);
        if from < to {
            is_char_boundary_iff_not_is_continuation_byte(bytes, from as int);
            is_char_boundary_iff_not_is_continuation_byte(b, from as int);
            assert(b[from as int] == bytes[from as int]);
        } else {
            is_char_boundary_start_end_of_seq(b);
        }
        assert(encode_utf8(head@) == b);
    }
    let (_, piece) = head.split_at(from);
    proof {
        assert(encode_utf8(piece@) =~= bytes.subrange(from as int, to as int));
        encode_utf8_decode_utf8(piece@);
    }
    piece
}

/// A slice stands in the text: there is a text before it, of `from` bytes, and one behind it.
pub proof fn lemma_slice_stands(s: Seq<char>, from: int, to: int)
    requires
        cuts(s, from, to),
    ensures
        exists|before: Seq<char>, behind: Seq<char>|
            s == before + byte_slice(s, from, to) + behind && encode_utf8(before).len() == from
                && encode_utf8(byte_slice(s, from, to)).len() == to - from,
{
    let bytes = encode_utf8(s);
    encode_utf8_valid_utf8(s);
    encode_utf8_decode_utf8(s);
    valid_utf8_split(bytes, to);
    decode_utf8_split(bytes, to);
    let b = bytes.subrange(0, to);
    if from < to {
        is_char_boundary_iff_not_is_continuation_byte(bytes, from);
        is_char_boundary_iff_not_is_continuation_byte(b, from);
        assert(b[from] == bytes[from]);
    } else {
        is_char_boundary_start_end_of_seq(b);
    }
    valid_utf8_split(b, from);
    decode_utf8_split(b, from);
    let before = decode_utf8(b.subrange(0, from));
    let behind = decode_utf8(bytes.subrange(to, bytes.len() as int));
    assert(b.subrange(from, b.len() as int) =~= bytes.subrange(from, to));
    decode_utf8_encode_utf8(b.subrange(0, from));
    decode_utf8_encode_utf8(bytes.subrange(from, to));
    assert(s == before + byte_slice(s, from, to) + behind);
}

} // verus!
