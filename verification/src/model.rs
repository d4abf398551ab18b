//! What escaping means, stated once over characters and once over bytes.
use vstd::prelude::*;
use crate::classify::{is_alphanumeric_byte, is_alphanumeric_char};
use crate::entity::{entity_chars, entity_of};

verus! {

/// The characters that are escaped: all of ASCII but letters and digits.
pub open spec fn needs_escape(c: char) -> bool {
    c <= '\u{7f}' && !is_alphanumeric_char(c)
}

/// What one character becomes: its character reference if it is escaped,
/// itself otherwise.
pub open spec fn escape_char(c: char) -> Seq<char> {
    if needs_escape(c) {
        entity_chars(c as u8)
    } else {
        seq![c]
    }
}

/// The escaped form of a text: the escaped forms of its characters, in order.
pub open spec fn escape(text: Seq<char>) -> Seq<char>
    decreases text.len(),
{
    if text.len() == 0 {
        Seq::empty()
    } else {
        escape_char(text[0]) + escape(text.drop_first())
    }
}

/// A text in which no character is escaped.
pub open spec fn is_clean(text: Seq<char>) -> bool {
    forall|i: int| 0 <= i < text.len() ==> !needs_escape(#[trigger] text[i])
}

/// The bytes that are escaped: those below 128 that encode neither a letter
/// nor a digit. In well-formed UTF-8 every byte of a multi-byte character is
/// 128 or more, so the bytes of such a character are never among them.
pub open spec fn byte_needs_escape(byte: u8) -> bool {
    byte <= 0x7F && !is_alphanumeric_byte(byte)
}

/// What one byte becomes: its character reference if it is escaped, itself
/// otherwise.
pub open spec fn escape_byte(byte: u8) -> Seq<u8> {
    if byte_needs_escape(byte) {
        entity_of(byte)
    } else {
        seq![byte]
    }
}

/// The escaped form of a byte sequence, byte by byte.
pub open spec fn escape_bytes(bytes: Seq<u8>) -> Seq<u8>
    decreases bytes.len(),
{
    if bytes.len() == 0 {
        Seq::empty()
    } else {
        escape_byte(bytes[0]) + escape_bytes(bytes.drop_first())
    }
}

/// A byte sequence in which no byte is escaped.
pub open spec fn is_clean_bytes(bytes: Seq<u8>) -> bool {
    forall|i: int| 0 <= i < bytes.len() ==> !byte_needs_escape(#[trigger] bytes[i])
}

/// Escaping distributes over concatenation.
pub proof fn lemma_escape_concat(a: Seq<char>, b: Seq<char>)
    ensures
        escape(a + b) == escape(a) + escape(b),
    decreases a.len(),
{
    if a.len() == 0 {
        assert(a + b =~= b);
        assert(escape(a) + escape(b) =~= escape(b));
    } else {
        assert((a + b).drop_first() =~= a.drop_first() + b);
        lemma_escape_concat(a.drop_first(), b);
        assert(escape(a + b) =~= escape(a) + escape(b));
    }
}

/// A clean text is its own escaped form.
pub proof fn lemma_escape_clean(text: Seq<char>)
    requires
        is_clean(text),
    ensures
        escape(text) == text,
    decreases text.len(),
{
    if text.len() > 0 {
        assert(!needs_escape(text[0]));
        assert forall|i: int| 0 <= i < text.drop_first().len() implies !needs_escape(
            #[trigger] text.drop_first()[i],
        ) by {
            assert(text.drop_first()[i] == text[i + 1]);
        }
        lemma_escape_clean(text.drop_first());
        assert(escape(text) =~= text);
    } else {
        assert(escape(text) =~= text);
    }
}

/// Escaping of bytes distributes over concatenation.
pub proof fn lemma_escape_bytes_concat(a: Seq<u8>, b: Seq<u8>)
    ensures
        escape_bytes(a + b) == escape_bytes(a) + escape_bytes(b),
    decreases a.len(),
{
    if a.len() == 0 {
        assert(a + b =~= b);
        assert(escape_bytes(a) + escape_bytes(b) =~= escape_bytes(b));
    } else {
        assert((a + b).drop_first() =~= a.drop_first() + b);
        lemma_escape_bytes_concat(a.drop_first(), b);
        assert(escape_bytes(a + b) =~= escape_bytes(a) + escape_bytes(b));
    }
}

/// A clean byte sequence is its own escaped form.
pub proof fn lemma_escape_bytes_clean(bytes: Seq<u8>)
    requires
        is_clean_bytes(bytes),
    ensures
        escape_bytes(bytes) == bytes,
    decreases bytes.len(),
{
    if bytes.len() > 0 {
        assert(!byte_needs_escape(bytes[0]));
        assert forall|i: int| 0 <= i < bytes.drop_first().len() implies !byte_needs_escape(
            #[trigger] bytes.drop_first()[i],
        ) by {
            assert(bytes.drop_first()[i] == bytes[i + 1]);
        }
        lemma_escape_bytes_clean(bytes.drop_first());
        assert(escape_bytes(bytes) =~= bytes);
    } else {
        assert(escape_bytes(bytes) =~= bytes);
    }
}

} // verus!
