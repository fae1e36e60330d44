//! What counting bytes means for text.
//!
//! Content and pattern are matched as bytes. Where both are text in UTF-8,
//! an occurrence of the pattern's bytes is an occurrence of its characters:
//! it begins and ends between characters, and the count of the bytes is the
//! count of the characters.

use crate::occurrences::{
    occurrence_count, occurrence_count_is_attained, occurrence_count_is_maximal, occurs_at,
    scanned_starts,
};
use vstd::prelude::*;
use vstd::utf8::{
    decode_utf8, decode_utf8_encode_utf8, decode_utf8_split, encode_utf8, encode_utf8_decode_utf8,
    encode_utf8_first_scalar, encode_utf8_valid_utf8, is_char_boundary,
    is_char_boundary_iff_not_is_continuation_byte, is_char_boundary_start_end_of_seq,
    is_continuation_byte, length_of_first_scalar, pop_first_scalar, valid_first_scalar,
    valid_utf8, valid_utf8_split,
};

verus! {

/// The number of bytes that stand before the character at `index` in the
/// encoding of `text`.
pub open spec fn byte_offset(text: Seq<char>, index: int) -> int {
    encode_utf8(text.take(index)).len() as int
}

/// The number of characters that stand before the byte at `offset` in the
/// encoding of `text`, where a character begins there.
pub open spec fn char_index(text: Seq<char>, offset: int) -> int {
    decode_utf8(encode_utf8(text).subrange(0, offset)).len() as int
}

/// Text that is not empty has an encoding that is not empty.
pub proof fn encoding_is_empty_only_of_empty(text: Seq<char>)
    requires
        text.len() > 0,
    ensures
        encode_utf8(text).len() > 0,
{
    encode_utf8_first_scalar(text);
}

/// The encoding of two texts in a row is their encodings in a row.
pub proof fn encoding_of_both(first: Seq<char>, second: Seq<char>)
    ensures
        encode_utf8(first + second) == encode_utf8(first) + encode_utf8(second),
    decreases first.len(),
{
    if first.len() == 0 {
        assert(first + second =~= second);
        assert(encode_utf8(first) + encode_utf8(second) =~= encode_utf8(second));
    } else {
        let both = first + second;
        assert(both[0] == first[0]);
        assert(both.drop_first() =~= first.drop_first() + second);
        encoding_of_both(first.drop_first(), second);
        assert(encode_utf8(both) =~= encode_utf8(first) + encode_utf8(second));
    }
}

/// Later characters stand at later bytes.
pub proof fn byte_offset_is_increasing(text: Seq<char>, earlier: int, later: int)
    requires
        0 <= earlier <= later <= text.len(),
    ensures
        byte_offset(text, earlier) <= byte_offset(text, later),
        earlier < later ==> byte_offset(text, earlier) < byte_offset(text, later),
{
    let between = text.subrange(earlier, later);
    assert(text.take(later) =~= text.take(earlier) + between);
    encoding_of_both(text.take(earlier), between);
    if earlier < later {
        encoding_is_empty_only_of_empty(between);
    }
}

/// An occurrence of characters is an occurrence of their bytes, at the
/// byte offset of its first character.
pub proof fn occurrence_in_text_is_occurrence_in_bytes(
    text: Seq<char>,
    pattern: Seq<char>,
    index: int,
)
    requires
        occurs_at(text, pattern, index),
    ensures
        occurs_at(encode_utf8(text), encode_utf8(pattern), byte_offset(text, index)),
        byte_offset(text, index + pattern.len()) == byte_offset(text, index) + encode_utf8(
            pattern,
        ).len(),
{
    let head = text.take(index);
    let tail = text.skip(index + pattern.len());
    assert(text.subrange(index, index + pattern.len()) == pattern);
    assert(text =~= head + pattern + tail);
    assert(text.take(index + pattern.len()) =~= head + pattern);
    encoding_of_both(head, pattern);
    encoding_of_both(head + pattern, tail);
    let offset = byte_offset(text, index);
    assert(encode_utf8(text).subrange(offset, offset + encode_utf8(pattern).len()) =~= encode_utf8(
        pattern,
    ));
}

proof fn lemma_prefix_ends_between_characters(prefix: Seq<u8>, bytes: Seq<u8>)
    requires
        valid_utf8(prefix),
        valid_utf8(bytes),
        prefix.len() <= bytes.len(),
        bytes.subrange(0, prefix.len() as int) == prefix,
    ensures
        is_char_boundary(bytes, prefix.len() as int),
    decreases prefix.len(),
{
    if prefix.len() > 0 {
        assert(valid_first_scalar(prefix));
        assert(valid_first_scalar(bytes));
        assert(bytes.subrange(0, prefix.len() as int)[0] == bytes[0]);
        let width = length_of_first_scalar(prefix);
        assert(length_of_first_scalar(bytes) == width);
        assert(1 <= width <= prefix.len());
        let shorter = pop_first_scalar(prefix);
        let rest = pop_first_scalar(bytes);
        assert(rest.subrange(0, shorter.len() as int) =~= shorter) by {
            assert forall|i: int| 0 <= i < shorter.len() implies rest[i] == shorter[i] by {
                assert(bytes.subrange(0, prefix.len() as int)[i + width] == bytes[i + width]);
            }
        }
        lemma_prefix_ends_between_characters(shorter, rest);
    }
}

/// An occurrence of the bytes of a non-empty pattern in the bytes of a text
/// is an occurrence of the pattern's characters: it begins where a
/// character begins, and the characters from there on are the pattern's.
pub proof fn occurrence_in_bytes_is_occurrence_in_text(
    text: Seq<char>,
    pattern: Seq<char>,
    offset: int,
)
    requires
        pattern.len() > 0,
        occurs_at(encode_utf8(text), encode_utf8(pattern), offset),
    ensures
        is_char_boundary(encode_utf8(text), offset),
        is_char_boundary(encode_utf8(text), offset + encode_utf8(pattern).len()),
        0 <= char_index(text, offset) <= text.len(),
        byte_offset(text, char_index(text, offset)) == offset,
        occurs_at(text, pattern, char_index(text, offset)),
{
    let bytes = encode_utf8(text);
    let wanted = encode_utf8(pattern);
    encode_utf8_valid_utf8(text);
    encode_utf8_valid_utf8(pattern);
    encode_utf8_decode_utf8(text);
    encode_utf8_decode_utf8(pattern);
    encoding_is_empty_only_of_empty(pattern);

    // The occurrence begins with a byte that begins a character.
    is_char_boundary_start_end_of_seq(wanted);
    is_char_boundary_iff_not_is_continuation_byte(wanted, 0);
    assert(bytes.subrange(offset, offset + wanted.len())[0] == bytes[offset]);
    assert(!is_continuation_byte(bytes[offset]));
    is_char_boundary_iff_not_is_continuation_byte(bytes, offset);

    // So the text falls into the characters before it and those from it on.
    valid_utf8_split(bytes, offset);
    decode_utf8_split(bytes, offset);
    let before = bytes.subrange(0, offset);
    let from_here = bytes.subrange(offset, bytes.len() as int);
    let index = decode_utf8(before).len() as int;
    assert(index == char_index(text, offset));
    assert(text.take(index) =~= decode_utf8(before));
    assert(text.skip(index) =~= decode_utf8(from_here));
    decode_utf8_encode_utf8(before);

    // The pattern's bytes lead the bytes from here on, and end between characters.
    assert(from_here.subrange(0, wanted.len() as int) =~= wanted);
    lemma_prefix_ends_between_characters(wanted, from_here);
    decode_utf8_split(from_here, wanted.len() as int);
    assert(text.skip(index).subrange(0, pattern.len() as int) =~= pattern);
    assert(text.subrange(index, index + pattern.len()) =~= pattern);

    // The end of the occurrence begins a character of the whole text, or ends it.
    let end = offset + wanted.len();
    if end < bytes.len() {
        assert(from_here[wanted.len() as int] == bytes[end]);
        is_char_boundary_iff_not_is_continuation_byte(from_here, wanted.len() as int);
        is_char_boundary_iff_not_is_continuation_byte(bytes, end);
    } else {
        is_char_boundary_start_end_of_seq(bytes);
    }
}

/// On text, counting the bytes of a non-empty pattern is counting its
/// characters: the pattern's encoding occurs in the text's encoding as often
/// as the pattern occurs in the text.
pub proof fn counting_bytes_counts_characters(text: Seq<char>, pattern: Seq<char>)
    requires
        pattern.len() > 0,
    ensures
        occurrence_count(encode_utf8(text), encode_utf8(pattern)) == occurrence_count(
            text,
            pattern,
        ),
{
    let bytes = encode_utf8(text);
    let wanted = encode_utf8(pattern);
    encoding_is_empty_only_of_empty(pattern);

    // As many occurrences of bytes as there are of characters.
    occurrence_count_is_attained(text, pattern);
    let in_text = scanned_starts(text, pattern, 0);
    let as_bytes = Seq::new(in_text.len(), |i: int| byte_offset(text, in_text[i]));
    assert forall|k: int| 0 <= k < as_bytes.len() implies occurs_at(
        bytes,
        wanted,
        #[trigger] as_bytes[k],
    ) by {
        assert(occurs_at(text, pattern, in_text[k]));
        occurrence_in_text_is_occurrence_in_bytes(text, pattern, in_text[k]);
    }
    assert forall|j: int, k: int| 0 <= j < k < as_bytes.len() implies #[trigger] as_bytes[j]
        + wanted.len() <= #[trigger] as_bytes[k] by {
        assert(occurs_at(text, pattern, in_text[j]));
        assert(occurs_at(text, pattern, in_text[k]));
        assert(in_text[j] + pattern.len() <= in_text[k]);
        occurrence_in_text_is_occurrence_in_bytes(text, pattern, in_text[j]);
        byte_offset_is_increasing(text, in_text[j] + pattern.len(), in_text[k]);
    }
    occurrence_count_is_maximal(bytes, wanted, as_bytes);

    // As many occurrences of characters as there are of bytes.
    occurrence_count_is_attained(bytes, wanted);
    let in_bytes = scanned_starts(bytes, wanted, 0);
    let as_text = Seq::new(in_bytes.len(), |i: int| char_index(text, in_bytes[i]));
    assert forall|k: int| 0 <= k < as_text.len() implies occurs_at(
        text,
        pattern,
        #[trigger] as_text[k],
    ) by {
        assert(occurs_at(bytes, wanted, in_bytes[k]));
        occurrence_in_bytes_is_occurrence_in_text(text, pattern, in_bytes[k]);
    }
    assert forall|j: int, k: int| 0 <= j < k < as_text.len() implies #[trigger] as_text[j]
        + pattern.len() <= #[trigger] as_text[k] by {
        assert(occurs_at(bytes, wanted, in_bytes[j]));
        assert(occurs_at(bytes, wanted, in_bytes[k]));
        assert(in_bytes[j] + wanted.len() <= in_bytes[k]);
        occurrence_in_bytes_is_occurrence_in_text(text, pattern, in_bytes[j]);
        occurrence_in_bytes_is_occurrence_in_text(text, pattern, in_bytes[k]);
        occurrence_in_text_is_occurrence_in_bytes(text, pattern, as_text[j]);
        if as_text[k] < as_text[j] + pattern.len() {
            byte_offset_is_increasing(text, as_text[k], as_text[j] + pattern.len());
        }
    }
    occurrence_count_is_maximal(text, pattern, as_text);
}

} // verus!
