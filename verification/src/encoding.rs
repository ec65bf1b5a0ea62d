//! The delimiter in encoded text: it is one byte, and that byte stands for
//! nothing but the delimiter, so a key can be taken apart byte by byte.

use vstd::prelude::*;
use vstd::utf8::{
    encode_utf8, encode_utf8_decode_utf8, encode_utf8_valid_utf8, is_char_boundary,
    is_char_boundary_iff_not_is_continuation_byte, is_char_boundary_start_end_of_seq, valid_utf8,
    valid_utf8_split,
};
use crate::segments::DELIMITER;

verus! {

/// The byte that encodes the delimiter.
pub const DELIMITER_BYTE: u8 = 0x20;

/// The delimiter is encoded as its one byte.
pub proof fn lemma_delimiter_alone()
    ensures
        encode_utf8(seq![DELIMITER]) == seq![DELIMITER_BYTE],
{
    assert((0x20u32 & 0x7F) as u8 == 0x20u8) by (bit_vector);
    reveal_with_fuel(encode_utf8, 2);
    assert(seq![DELIMITER].drop_first() =~= Seq::<char>::empty());
    assert(encode_utf8(seq![DELIMITER]) =~= seq![DELIMITER_BYTE]);
}

/// Text is encoded piece by piece.
pub proof fn lemma_encode_concat(front: Seq<char>, back: Seq<char>)
    ensures
        encode_utf8(front + back) == encode_utf8(front) + encode_utf8(back),
    decreases front.len(),
{
    if front.len() == 0 {
        assert(front + back =~= back);
        assert(encode_utf8(front) + encode_utf8(back) =~= encode_utf8(back));
    } else {
        lemma_encode_concat(front.drop_first(), back);
        assert((front + back).drop_first() =~= front.drop_first() + back);
        assert((front + back)[0] == front[0]);
        assert(encode_utf8(front + back) =~= encode_utf8(front) + encode_utf8(back));
    }
}

/// Where text holds a delimiter, its encoding holds the byte of the
/// delimiter.
pub proof fn lemma_delimiter_has_its_byte(text: Seq<char>)
    requires
        text.contains(DELIMITER),
    ensures
        encode_utf8(text).contains(DELIMITER_BYTE),
    decreases text.len(),
{
    let at = choose|at: int| 0 <= at < text.len() && text[at] == DELIMITER;
    let front = text.subrange(0, at);
    let back = text.subrange(at + 1, text.len() as int);
    assert(text =~= front + (seq![DELIMITER] + back));
    lemma_encode_concat(front, seq![DELIMITER] + back);
    lemma_encode_concat(seq![DELIMITER], back);
    lemma_delimiter_alone();
    let bytes = encode_utf8(text);
    assert(bytes[encode_utf8(front).len() as int] == DELIMITER_BYTE);
}

/// Text whose encoding holds no byte of the delimiter holds no delimiter.
pub proof fn lemma_no_delimiter_byte(text: Seq<char>)
    requires
        forall|j: int| 0 <= j < encode_utf8(text).len() ==> encode_utf8(text)[j] != DELIMITER_BYTE,
    ensures
        !text.contains(DELIMITER),
{
    if text.contains(DELIMITER) {
        lemma_delimiter_has_its_byte(text);
    }
}

/// The byte of the delimiter stands for a delimiter: the text in front of it
/// and the text behind it, with a delimiter between them, are the whole text.
pub proof fn lemma_split_at_delimiter_byte(
    text: Seq<char>,
    at: int,
    front: Seq<char>,
    back: Seq<char>,
)
    requires
        0 <= at < encode_utf8(text).len(),
        encode_utf8(text)[at] == DELIMITER_BYTE,
        encode_utf8(front) == encode_utf8(text).subrange(0, at),
        encode_utf8(back) == encode_utf8(text).subrange(at + 1, encode_utf8(text).len() as int),
    ensures
        text == front + seq![DELIMITER] + back,
{
    let bytes = encode_utf8(text);
    let whole = front + seq![DELIMITER] + back;
    lemma_encode_concat(front + seq![DELIMITER], back);
    lemma_encode_concat(front, seq![DELIMITER]);
    lemma_delimiter_alone();
    assert(encode_utf8(whole) =~= bytes);
    encode_utf8_decode_utf8(whole);
    encode_utf8_decode_utf8(text);
}

/// Encoded text can be cut in front of the byte of a delimiter and behind it.
pub proof fn lemma_delimiter_byte_boundaries(text: Seq<char>, at: int)
    requires
        0 <= at < encode_utf8(text).len(),
        encode_utf8(text)[at] == DELIMITER_BYTE,
    ensures
        is_char_boundary(encode_utf8(text), at),
        valid_utf8(encode_utf8(text).subrange(at, encode_utf8(text).len() as int)),
        is_char_boundary(encode_utf8(text).subrange(at, encode_utf8(text).len() as int), 1),
{
    let bytes = encode_utf8(text);
    encode_utf8_valid_utf8(text);
    is_char_boundary_iff_not_is_continuation_byte(bytes, at);
    valid_utf8_split(bytes, at);
    let rest = bytes.subrange(at, bytes.len() as int);
    assert(rest[0] == DELIMITER_BYTE);
    if rest.len() == 1 {
        is_char_boundary_start_end_of_seq(rest);
    } else {
        reveal_with_fuel(is_char_boundary, 2);
    }
}

} // verus!
