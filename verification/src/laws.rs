//! What holds of escaping as a whole: the escaped text can be read back,
//! a character that is escaped becomes exactly its reference, and a
//! character outside ASCII is left alone wherever it stands.
use vstd::prelude::*;
use vstd::utf8::{encode_scalar, encode_utf8};
use crate::encoding::{lemma_encode_concat, lemma_encode_single};
use crate::entity::{entity_chars, hex_digits};
use crate::model::{escape, escape_char, lemma_escape_concat, needs_escape};

verus! {

/// The sixteen upper-case hexadecimal digits.
pub open spec fn is_hex_digit(c: char) -> bool {
    '0' <= c <= '9' || 'A' <= c <= 'F'
}

/// The value of an upper-case hexadecimal digit.
pub open spec fn hex_value(c: char) -> int {
    if c <= '9' {
        c as int - '0' as int
    } else {
        c as int - 'A' as int + 10
    }
}

/// The character that a reference at the start of `s` stands for, and the
/// length of the reference; `None` where `s` starts with none of the
/// references that escaping writes.
pub open spec fn leading_reference(s: Seq<char>) -> Option<(char, int)> {
    if seq!['&', 'a', 'm', 'p', ';'].is_prefix_of(s) {
        Some(('&', 5))
    } else if seq!['&', 'l', 't', ';'].is_prefix_of(s) {
        Some(('<', 4))
    } else if seq!['&', 'g', 't', ';'].is_prefix_of(s) {
        Some(('>', 4))
    } else if seq!['&', 'q', 'u', 'o', 't', ';'].is_prefix_of(s) {
        Some(('"', 6))
    } else if s.len() >= 6 && s[0] == '&' && s[1] == '#' && s[2] == 'x' && is_hex_digit(s[3])
        && is_hex_digit(s[4]) && s[5] == ';' {
        Some((((16 * hex_value(s[3]) + hex_value(s[4])) as u8) as char, 6))
    } else {
        None
    }
}

/// Reads an escaped text back: each reference becomes the character that it
/// stands for, and every other character stays.
pub open spec fn unescape(s: Seq<char>) -> Seq<char>
    decreases s.len(),
{
    if s.len() == 0 {
        Seq::empty()
    } else {
        match leading_reference(s) {
            Some((c, n)) => if 0 < n <= s.len() {
                seq![c] + unescape(s.skip(n))
            } else {
                Seq::empty()
            },
            None => seq![s[0]] + unescape(s.drop_first()),
        }
    }
}

proof fn lemma_hex_digit_value(n: int)
    requires
        0 <= n < 16,
    ensures
        is_hex_digit(hex_digits()[n]),
        hex_value(hex_digits()[n]) == n,
{
}

/// In front of any text, the reference of an escaped character reads back
/// as that character, and as nothing more.
pub proof fn lemma_reference_reads_back(c: char, tail: Seq<char>)
    requires
        needs_escape(c),
    ensures
        leading_reference(entity_chars(c as u8) + tail) == Some(
            (c, entity_chars(c as u8).len() as int),
        ),
        (entity_chars(c as u8) + tail).skip(entity_chars(c as u8).len() as int) == tail,
        4 <= entity_chars(c as u8).len() <= 6,
{
    let e = c as u8;
    let reference = entity_chars(e);
    let s = reference + tail;
    assert((e as char) == c);
    assert(s.skip(reference.len() as int) =~= tail);
    assert(s.subrange(0, reference.len() as int) =~= reference);
    if e == '&' as u8 || e == '<' as u8 || e == '>' as u8 || e == '"' as u8 {
        assert(s[1] == reference[1]);
        assert(s.subrange(0, 4)[1] == s[1]);
        if s.len() >= 5 {
            assert(s.subrange(0, 5)[1] == s[1]);
        }
    } else {
        lemma_hex_digit_value(e as int / 16);
        lemma_hex_digit_value(e as int % 16);
        assert(s[0] == '&' && s[1] == '#' && s[2] == 'x' && s[5] == ';');
        assert(s[3] == hex_digits()[e as int / 16]);
        assert(s[4] == hex_digits()[e as int % 16]);
        assert(s.subrange(0, 4)[1] == s[1]);
        assert(s.subrange(0, 5)[1] == s[1]);
        assert(s.subrange(0, 6)[1] == s[1]);
        assert(16 * (e as int / 16) + e as int % 16 == e as int);
    }
}

/// In front of any text, a character that is not escaped reads back as
/// itself.
pub proof fn lemma_plain_reads_back(c: char, tail: Seq<char>)
    requires
        !needs_escape(c),
    ensures
        leading_reference(seq![c] + tail) is None,
        (seq![c] + tail).drop_first() == tail,
{
    let s = seq![c] + tail;
    assert(s[0] == c);
    assert(c != '&');
    assert(s.drop_first() =~= tail);
    if s.len() >= 4 {
        assert(s.subrange(0, 4)[0] == s[0]);
    }
    if s.len() >= 5 {
        assert(s.subrange(0, 5)[0] == s[0]);
    }
    if s.len() >= 6 {
        assert(s.subrange(0, 6)[0] == s[0]);
    }
}

/// Escaping loses nothing: reading the escaped form of a text back gives
/// the text.
pub proof fn lemma_unescape_escape(text: Seq<char>)
    ensures
        unescape(escape(text)) == text,
    decreases text.len(),
{
    if text.len() == 0 {
        assert(escape(text) =~= Seq::<char>::empty());
        assert(unescape(escape(text)) =~= text);
    } else {
        let rest = text.drop_first();
        let tail = escape(rest);
        lemma_unescape_escape(rest);
        lemma_unescape_first(text[0], tail);
        assert(seq![text[0]] + rest =~= text);
    }
}

/// Reading back the escaped form of a character in front of any text gives
/// the character in front of what the text reads back as.
pub proof fn lemma_unescape_first(c: char, tail: Seq<char>)
    ensures
        unescape(escape_char(c) + tail) == seq![c] + unescape(tail),
{
    if needs_escape(c) {
        lemma_reference_reads_back(c, tail);
    } else {
        lemma_plain_reads_back(c, tail);
    }
}

/// Two texts with the same escaped form are the same text.
pub proof fn lemma_escape_injective(a: Seq<char>, b: Seq<char>)
    requires
        escape(a) == escape(b),
    ensures
        a == b,
{
    lemma_unescape_escape(a);
    lemma_unescape_escape(b);
}

/// The escaped form of a text of one character is that character's: its
/// reference if the character is escaped, the character itself otherwise.
pub proof fn lemma_escape_single(c: char)
    ensures
        escape(seq![c]) == escape_char(c),
        needs_escape(c) ==> escape(seq![c]) == entity_chars(c as u8),
        !needs_escape(c) ==> escape(seq![c]) == seq![c],
{
    let s = seq![c];
    assert(s[0] == c);
    assert(s.drop_first().len() == 0);
    assert(escape(s.drop_first()) =~= Seq::<char>::empty());
    assert(escape(s) =~= escape_char(c));
}

/// A character outside ASCII passes through unchanged wherever it stands:
/// the escaped text holds it between the escaped forms of what stands
/// before and after it, and the bytes of the escaped text hold its
/// encoding, whole, between theirs.
pub proof fn lemma_non_ascii_passes(before: Seq<char>, c: char, after: Seq<char>)
    requires
        c > '\u{7f}',
    ensures
        escape(before + seq![c] + after) == escape(before) + seq![c] + escape(after),
        encode_utf8(escape(before + seq![c] + after)) == encode_utf8(escape(before))
            + encode_scalar(c as u32) + encode_utf8(escape(after)),
{
    lemma_escape_single(c);
    lemma_escape_concat(before + seq![c], after);
    lemma_escape_concat(before, seq![c]);
    lemma_encode_concat(escape(before) + seq![c], escape(after));
    lemma_encode_concat(escape(before), seq![c]);
    lemma_encode_single(c);
}

} // verus!
