//! Text addressed by byte offsets: where UTF-8 text may be cut, what a cut-out
//! piece reads as, and how pieces join up again.

use vstd::prelude::*;
use vstd::string::StringSliceAdditionalSpecFns;
use vstd::utf8::*;

verus! {

/// The largest single-byte (ASCII) value.
pub const ASCII_MAX: u8 = 0x7f;

/// Offset `i` lies between two characters of the encoded text `bytes`, or at
/// one of its ends.
pub open spec fn is_cut(bytes: Seq<u8>, i: int) -> bool {
    0 <= i <= bytes.len() && is_char_boundary(bytes, i)
}

/// The characters encoded in `[lo, hi)`.
pub open spec fn piece(bytes: Seq<u8>, lo: int, hi: int) -> Seq<char> {
    decode_utf8(bytes.subrange(lo, hi))
}

/// Both ends of the text are cuts.
pub proof fn lemma_ends_are_cuts(bytes: Seq<u8>)
    requires
        valid_utf8(bytes),
    ensures
        is_cut(bytes, 0),
        is_cut(bytes, bytes.len() as int),
{
    is_char_boundary_start_end_of_seq(bytes);
}

/// Inside the text, a cut is an offset whose byte does not continue a
/// character.
proof fn lemma_cut_by_byte(bytes: Seq<u8>, i: int)
    requires
        valid_utf8(bytes),
        0 <= i <= bytes.len(),
    ensures
        is_cut(bytes, i) <==> (i == bytes.len() || !is_continuation_byte(bytes[i])),
{
    if i == bytes.len() {
        is_char_boundary_start_end_of_seq(bytes);
    } else {
        is_char_boundary_iff_not_is_continuation_byte(bytes, i);
    }
}

/// The text between two cuts is text of its own, and a cut of the whole that
/// lies in it is a cut of it.
pub proof fn lemma_cut_within(bytes: Seq<u8>, a: int, b: int, c: int)
    requires
        valid_utf8(bytes),
        a <= b <= c,
        is_cut(bytes, a),
        is_cut(bytes, b),
        is_cut(bytes, c),
    ensures
        valid_utf8(bytes.subrange(a, c)),
        is_cut(bytes.subrange(a, c), b - a),
{
    let head = bytes.subrange(0, c);
    valid_utf8_split(bytes, c);
    lemma_cut_by_byte(bytes, a);
    lemma_cut_by_byte(head, a);
    valid_utf8_split(head, a);
    let mid = bytes.subrange(a, c);
    assert(head.subrange(a, head.len() as int) =~= mid);
    lemma_cut_by_byte(bytes, b);
    lemma_cut_by_byte(mid, b - a);
}

/// Text cut in two reads as the first piece followed by the second.
pub proof fn lemma_piece_concat(bytes: Seq<u8>, a: int, b: int, c: int)
    requires
        valid_utf8(bytes),
        a <= b <= c,
        is_cut(bytes, a),
        is_cut(bytes, b),
        is_cut(bytes, c),
    ensures
        piece(bytes, a, c) == piece(bytes, a, b) + piece(bytes, b, c),
{
    lemma_cut_within(bytes, a, b, c);
    let mid = bytes.subrange(a, c);
    decode_utf8_split(mid, b - a);
    assert(mid.subrange(0, b - a) =~= bytes.subrange(a, b));
    assert(mid.subrange(b - a, mid.len() as int) =~= bytes.subrange(b, c));
}

/// An empty piece holds no character.
pub proof fn lemma_piece_empty(bytes: Seq<u8>, a: int)
    requires
        0 <= a <= bytes.len(),
    ensures
        piece(bytes, a, a) == Seq::<char>::empty(),
{
    assert(bytes.subrange(a, a) =~= Seq::<u8>::empty());
    assert(valid_utf8(Seq::<u8>::empty()));
}

/// The whole of the encoded text reads as the text.
pub proof fn lemma_piece_whole(chars: Seq<char>)
    ensures
        piece(encode_utf8(chars), 0, encode_utf8(chars).len() as int) == chars,
{
    let bytes = encode_utf8(chars);
    assert(bytes.subrange(0, bytes.len() as int) =~= bytes);
    encode_utf8_decode_utf8(chars);
}

/// The text between two cuts, encoded again, is the bytes it was cut from; so
/// it holds a character wherever the cuts differ.
pub proof fn lemma_piece_bytes(bytes: Seq<u8>, a: int, b: int)
    requires
        valid_utf8(bytes),
        a <= b,
        is_cut(bytes, a),
        is_cut(bytes, b),
    ensures
        encode_utf8(piece(bytes, a, b)) == bytes.subrange(a, b),
        a < b ==> piece(bytes, a, b).len() > 0,
{
    lemma_cut_within(bytes, a, a, b);
    decode_utf8_encode_utf8(bytes.subrange(a, b));
}

/// A single-byte character has a cut on either side.
pub proof fn lemma_ascii_byte_between_cuts(bytes: Seq<u8>, i: int)
    requires
        valid_utf8(bytes),
        0 <= i < bytes.len(),
        bytes[i] <= ASCII_MAX,
    ensures
        is_cut(bytes, i),
        is_cut(bytes, i + 1),
{
    lemma_cut_by_byte(bytes, i);
    lemma_cut_by_byte(bytes, i + 1);
    if i + 1 < bytes.len() {
        valid_utf8_split(bytes, i);
        let tail = bytes.subrange(i, bytes.len() as int);
        assert(tail[0] == bytes[i]);
        assert(valid_first_scalar(tail));
        assert(length_of_first_scalar(tail) == 1);
        let rest = pop_first_scalar(tail);
        assert(valid_utf8(rest));
        assert(rest.len() > 0);
        assert(rest[0] == bytes[i + 1]);
        assert(valid_first_scalar(rest));
    }
}

/// The text of `input` between two cuts, which are given as byte offsets.
pub fn text_between<'a>(input: &'a str, lo: usize, hi: usize) -> (part: &'a str)
    requires
        lo <= hi,
        is_cut(input.spec_bytes(), lo as int),
        is_cut(input.spec_bytes(), hi as int),
    ensures
        part@ == piece(input.spec_bytes(), lo as int, hi as int),
{
    let ghost bytes = input.spec_bytes();
    proof {
        encode_utf8_valid_utf8(input@);
        lemma_ends_are_cuts(bytes);
        lemma_cut_within(bytes, 0, lo as int, hi as int);
    }
    let (head, _) = input.split_at(hi);
    let (_, part) = head.split_at(lo);
    proof {
        assert(head.spec_bytes().subrange(lo as int, head.spec_bytes().len() as int)
            =~= bytes.subrange(lo as int, hi as int));
        encode_utf8_decode_utf8(part@);
    }
    part
}

} // verus!
