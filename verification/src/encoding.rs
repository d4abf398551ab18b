//! Facts about UTF-8 that the scan rests on, and the agreement of escaping
//! over characters with escaping over their encoded bytes.
use vstd::prelude::*;
use vstd::utf8::*;
use crate::classify::{is_leading_byte, width_of};
use crate::entity::{entity_chars, entity_of};
use crate::model::{byte_needs_escape, escape, escape_byte, escape_bytes, escape_char, is_clean, is_clean_bytes, lemma_escape_bytes_clean, lemma_escape_bytes_concat, needs_escape};

verus! {

/// Encoding distributes over concatenation.
pub proof fn lemma_encode_concat(a: Seq<char>, b: Seq<char>)
    ensures
        encode_utf8(a + b) == encode_utf8(a) + encode_utf8(b),
    decreases a.len(),
{
    if a.len() == 0 {
        assert(a + b =~= b);
        assert(encode_utf8(a) + encode_utf8(b) =~= encode_utf8(b));
    } else {
        assert((a + b).drop_first() =~= a.drop_first() + b);
        lemma_encode_concat(a.drop_first(), b);
        assert(encode_utf8(a + b) =~= encode_utf8(a) + encode_utf8(b));
    }
}

proof fn lemma_scalar_bytes(v: u32)
    by (bit_vector)
    ensures
        v <= 0x7F ==> leading_byte_width_1(v) == v as u8,
        leading_byte_width_2(v) >= 0x80,
        leading_byte_width_3(v) >= 0x80,
        leading_byte_width_4(v) >= 0x80,
        last_continuation_byte(v) >= 0x80,
        second_last_continuation_byte(v) >= 0x80,
        third_last_continuation_byte(v) >= 0x80,
{
}

/// An ASCII character is encoded by the one byte of its value; every byte of
/// the encoding of any other character is 128 or more.
pub proof fn lemma_encode_char(c: char)
    ensures
        c <= '\u{7f}' ==> encode_scalar(c as u32) == seq![c as u8],
        c > '\u{7f}' ==> forall|i: int|
            0 <= i < encode_scalar(c as u32).len() ==> #[trigger] encode_scalar(c as u32)[i]
                >= 0x80,
        1 <= encode_scalar(c as u32).len() <= 4,
{
    lemma_scalar_bytes(c as u32);
}

/// The bytes of an escaped text are the escaped bytes of the text.
pub proof fn lemma_encode_escape(text: Seq<char>)
    ensures
        encode_utf8(escape(text)) == escape_bytes(encode_utf8(text)),
    decreases text.len(),
{
    if text.len() == 0 {
        assert(escape(text) =~= Seq::<char>::empty());
        assert(encode_utf8(text) =~= Seq::<u8>::empty());
    } else {
        let c = text[0];
        let rest = text.drop_first();
        lemma_encode_escape(rest);
        lemma_encode_concat(escape_char(c), escape(rest));
        lemma_escape_bytes_concat(encode_scalar(c as u32), encode_utf8(rest));
        lemma_encode_escape_char(c);
    }
}

/// Encoding a text of one character gives the encoding of that character.
pub proof fn lemma_encode_single(c: char)
    ensures
        encode_utf8(seq![c]) == encode_scalar(c as u32),
{
    let s = seq![c];
    assert(s.len() == 1 && s[0] == c);
    assert(s.drop_first().len() == 0);
    assert(encode_utf8(s.drop_first()) =~= Seq::<u8>::empty());
    assert(encode_utf8(s) =~= encode_scalar(c as u32));
}

/// The bytes of an escaped character are the escaped bytes of the character.
pub proof fn lemma_encode_escape_char(c: char)
    ensures
        encode_utf8(escape_char(c)) == escape_bytes(encode_scalar(c as u32)),
{
    lemma_encode_char(c);
    lemma_encode_single(c);
    let bytes = encode_scalar(c as u32);
    if c <= '\u{7f}' {
        assert(bytes.len() == 1 && bytes[0] == c as u8);
        assert(bytes.drop_first().len() == 0);
        assert(escape_bytes(bytes.drop_first()) =~= Seq::<u8>::empty());
        assert(escape_bytes(bytes) =~= escape_byte(c as u8));
        assert((c as u8) as char == c);
        if needs_escape(c) {
            lemma_encode_entity(c as u8);
        }
    } else {
        assert(is_clean_bytes(bytes));
        lemma_escape_bytes_clean(bytes);
    }
}

/// A character reference is ASCII, so its bytes are its characters.
pub proof fn lemma_encode_entity(e: u8)
    ensures
        encode_utf8(entity_chars(e)) == entity_of(e),
        is_ascii_chars(entity_chars(e)),
{
    let chars = entity_chars(e);
    assert(is_ascii_chars(chars));
    is_ascii_chars_encode_utf8(chars);
    assert(encode_utf8(chars) =~= entity_of(e));
}

proof fn lemma_leading_byte_bounds(b0: u8, b1: u8, b2: u8, b3: u8)
    by (bit_vector)
    ensures
        0xC0 <= b0 <= 0xDF && 0x80 <= codepoint_width_2(b0, b1) ==> 0xC2 <= b0,
        0xF0 <= b0 <= 0xF7 && codepoint_width_4(b0, b1, b2, b3) <= 0x10ffff ==> b0 <= 0xF4,
{
}

/// The first character of non-empty well-formed UTF-8: its first byte is a
/// leading byte, the width that this byte announces fits, and the bytes that
/// follow within that width are 128 or more.
pub proof fn lemma_first_character(bytes: Seq<u8>)
    requires
        valid_utf8(bytes),
        bytes.len() > 0,
    ensures
        is_leading_byte(bytes[0]),
        width_of(bytes[0]) == length_of_first_scalar(bytes),
        width_of(bytes[0]) <= bytes.len(),
        forall|i: int| 0 < i < width_of(bytes[0]) ==> #[trigger] bytes[i] >= 0x80,
        valid_utf8(bytes.subrange(width_of(bytes[0]), bytes.len() as int)),
{
    assert(valid_first_scalar(bytes));
    assert(valid_utf8(pop_first_scalar(bytes)));
    if bytes.len() >= 4 {
        lemma_leading_byte_bounds(bytes[0], bytes[1], bytes[2], bytes[3]);
    } else if bytes.len() >= 2 {
        lemma_leading_byte_bounds(bytes[0], bytes[1], 0, 0);
    }
}

/// From a character boundary before the end of well-formed UTF-8, the width
/// of the character that starts there leads to the next boundary.
pub proof fn lemma_boundary_step(bytes: Seq<u8>, p: int)
    requires
        valid_utf8(bytes),
        is_char_boundary(bytes, p),
        0 <= p < bytes.len(),
    ensures
        is_leading_byte(bytes[p]),
        p + width_of(bytes[p]) <= bytes.len(),
        forall|i: int| p < i < p + width_of(bytes[p]) ==> #[trigger] bytes[i] >= 0x80,
        is_char_boundary(bytes, p + width_of(bytes[p])),
{
    let len = bytes.len() as int;
    let tail = bytes.subrange(p, len);
    valid_utf8_split(bytes, p);
    lemma_first_character(tail);
    assert(tail[0] == bytes[p]);
    let w = width_of(bytes[p]);
    let q = p + w;
    assert forall|i: int| p < i < q implies #[trigger] bytes[i] >= 0x80 by {
        assert(tail[i - p] == bytes[i]);
    }
    let rest = tail.subrange(w, tail.len() as int);
    assert(rest =~= bytes.subrange(q, len));
    if q == len {
        is_char_boundary_start_end_of_seq(bytes);
    } else {
        lemma_first_character(rest);
        assert(rest[0] == bytes[q]);
        is_char_boundary_iff_not_is_continuation_byte(bytes, q);
    }
}

/// A character boundary of well-formed UTF-8 is also one of each prefix
/// that ends at a later boundary.
pub proof fn lemma_boundary_in_prefix(bytes: Seq<u8>, start: int, end: int)
    requires
        valid_utf8(bytes),
        is_char_boundary(bytes, start),
        is_char_boundary(bytes, end),
        0 <= start <= end <= bytes.len(),
    ensures
        valid_utf8(bytes.subrange(0, end)),
        is_char_boundary(bytes.subrange(0, end), start),
{
    let prefix = bytes.subrange(0, end);
    valid_utf8_split(bytes, end);
    if start == end {
        is_char_boundary_start_end_of_seq(prefix);
    } else {
        is_char_boundary_iff_not_is_continuation_byte(bytes, start);
        assert(prefix[start] == bytes[start]);
        is_char_boundary_iff_not_is_continuation_byte(prefix, start);
    }
}

/// In the encoding of two texts one after the other, the first ends on a
/// character boundary.
pub proof fn lemma_boundary_at_concat(a: Seq<char>, b: Seq<char>)
    ensures
        is_char_boundary(encode_utf8(a + b), encode_utf8(a).len() as int),
{
    let bytes = encode_utf8(a + b);
    let n = encode_utf8(a).len() as int;
    lemma_encode_concat(a, b);
    encode_utf8_valid_utf8(a + b);
    encode_utf8_valid_utf8(b);
    if encode_utf8(b).len() == 0 {
        is_char_boundary_start_end_of_seq(bytes);
    } else {
        lemma_first_character(encode_utf8(b));
        assert(bytes[n] == encode_utf8(b)[0]);
        is_char_boundary_iff_not_is_continuation_byte(bytes, n);
    }
}

/// Two texts with the same encoding are the same text.
pub proof fn lemma_encode_injective(a: Seq<char>, b: Seq<char>)
    requires
        encode_utf8(a) == encode_utf8(b),
    ensures
        a == b,
{
    encode_utf8_decode_utf8(a);
    encode_utf8_decode_utf8(b);
}

/// A character is escaped exactly when a byte of its encoding is.
pub proof fn lemma_clean_char(c: char)
    ensures
        !needs_escape(c) <==> is_clean_bytes(encode_scalar(c as u32)),
{
    lemma_encode_char(c);
    let bytes = encode_scalar(c as u32);
    if c <= '\u{7f}' {
        assert((c as u8) as char == c);
        assert(bytes[0] == c as u8);
    }
}

/// A text is clean exactly when its encoding is.
pub proof fn lemma_clean_encode(text: Seq<char>)
    ensures
        is_clean(text) <==> is_clean_bytes(encode_utf8(text)),
    decreases text.len(),
{
    if text.len() > 0 {
        let c = text[0];
        let rest = text.drop_first();
        let head = encode_scalar(c as u32);
        let tail = encode_utf8(rest);
        lemma_clean_encode(rest);
        lemma_encode_char(c);
        lemma_clean_char(c);
        if is_clean(text) {
            assert(!needs_escape(text[0]));
            assert forall|i: int| 0 <= i < rest.len() implies !needs_escape(#[trigger] rest[i]) by {
                assert(rest[i] == text[i + 1]);
            }
            assert forall|i: int| 0 <= i < (head + tail).len() implies !byte_needs_escape(
                #[trigger] (head + tail)[i],
            ) by {
                if i >= head.len() {
                    assert((head + tail)[i] == tail[i - head.len()]);
                }
            }
        }
        if is_clean_bytes(head + tail) {
            assert forall|i: int| 0 <= i < head.len() implies !byte_needs_escape(
                #[trigger] head[i],
            ) by {
                assert((head + tail)[i] == head[i]);
            }
            assert forall|i: int| 0 <= i < tail.len() implies !byte_needs_escape(
                #[trigger] tail[i],
            ) by {
                assert((head + tail)[i + head.len()] == tail[i]);
            }
            assert forall|i: int| 0 <= i < text.len() implies !needs_escape(#[trigger] text[i]) by {
                if i > 0 {
                    assert(rest[i - 1] == text[i]);
                }
            }
        }
    }
}

} // verus!
