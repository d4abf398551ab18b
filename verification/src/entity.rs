//! Rendering of one escaped byte as a character reference.
use vstd::prelude::*;

verus! {

/// The sixteen upper-case hexadecimal digits, in order.
pub open spec fn hex_digits() -> Seq<char> {
    seq!['0', '1', '2', '3', '4', '5', '6', '7', '8', '9', 'A', 'B', 'C', 'D', 'E', 'F']
}

/// The numeric character reference `&#xHH;` of a byte: its value in two
/// upper-case hexadecimal digits.
pub open spec fn numeric_reference(e: u8) -> Seq<char> {
    seq!['&', '#', 'x', hex_digits()[e as int / 16], hex_digits()[e as int % 16], ';']
}

/// The character reference that stands for the byte `e`: the named reference
/// of `&`, `<`, `>` and `"`, the numeric reference of any other byte.
pub open spec fn entity_chars(e: u8) -> Seq<char> {
    if e == '&' as u8 {
        seq!['&', 'a', 'm', 'p', ';']
    } else if e == '<' as u8 {
        seq!['&', 'l', 't', ';']
    } else if e == '>' as u8 {
        seq!['&', 'g', 't', ';']
    } else if e == '"' as u8 {
        seq!['&', 'q', 'u', 'o', 't', ';']
    } else {
        numeric_reference(e)
    }
}

/// The bytes of a text of ASCII characters: each character is encoded by
/// the byte of the same value.
pub open spec fn ascii_bytes(chars: Seq<char>) -> Seq<u8> {
    chars.map_values(|c: char| c as u8)
}

/// The character reference of `e` as bytes.
pub open spec fn entity_of(e: u8) -> Seq<u8> {
    ascii_bytes(entity_chars(e))
}

/// Returns the upper-case hexadecimal digit of a value below 16.
fn hex_digit_of(nibble: u8) -> (digit: u8)
    requires
        nibble < 16,
    ensures
        digit == hex_digits()[nibble as int] as u8,
        digit < 0x80,
{
    if nibble >= 10 {
        0x41 - 10 + nibble
    } else {
        0x30 + nibble
    }
}

/// Appends the numeric character reference `&#xHH;` of `e` to `output`.
pub fn write_hex_to_vec(e: u8, output: &mut Vec<u8>)
    ensures
        final(output)@ == old(output)@ + ascii_bytes(numeric_reference(e)),
{
    output.reserve(6);
    let he: u8 = e >> 4;
    let le: u8 = e & 0xF;
    assert(he == e / 16 && le == e % 16 && he < 16 && le < 16) by (bit_vector)
        requires
            he == e >> 4,
            le == e & 0xF,
    ;
    output.push('&' as u8);
    output.push('#' as u8);
    output.push('x' as u8);
    output.push(hex_digit_of(he));
    output.push(hex_digit_of(le));
    output.push(';' as u8);
    assert(output@ =~= old(output)@ + ascii_bytes(numeric_reference(e)));
}

/// Appends the character reference of `e` to `output`.
pub fn write_html_entity_to_vec(e: u8, output: &mut Vec<u8>)
    ensures
        final(output)@ == old(output)@ + entity_of(e),
{
    if e == '&' as u8 {
        output.push('&' as u8);
        output.push('a' as u8);
        output.push('m' as u8);
        output.push('p' as u8);
        output.push(';' as u8);
        assert(output@ =~= old(output)@ + entity_of(e));
    } else if e == '<' as u8 {
        output.push('&' as u8);
        output.push('l' as u8);
        output.push('t' as u8);
        output.push(';' as u8);
        assert(output@ =~= old(output)@ + entity_of(e));
    } else if e == '>' as u8 {
        output.push('&' as u8);
        output.push('g' as u8);
        output.push('t' as u8);
        output.push(';' as u8);
        assert(output@ =~= old(output)@ + entity_of(e));
    } else if e == '"' as u8 {
        output.push('&' as u8);
        output.push('q' as u8);
        output.push('u' as u8);
        output.push('o' as u8);
        output.push('t' as u8);
        output.push(';' as u8);
        assert(output@ =~= old(output)@ + entity_of(e));
    } else {
        write_hex_to_vec(e, output);
    }
}

/// Appends the numeric character reference `&#xHH;` of `e` to `output`.
pub fn write_hex_to_string(e: u8, output: &mut String)
    ensures
        final(output)@ == old(output)@ + numeric_reference(e),
{
    let he: u8 = e >> 4;
    let le: u8 = e & 0xF;
    assert(he == e / 16 && le == e % 16 && he < 16 && le < 16) by (bit_vector)
        requires
            he == e >> 4,
            le == e & 0xF,
    ;
    output.push('&');
    output.push('#');
    output.push('x');
    output.push(hex_digit_of(he) as char);
    output.push(hex_digit_of(le) as char);
    output.push(';');
    assert(output@ =~= old(output)@ + numeric_reference(e));
}

/// Appends the character reference of `e` to `output`.
pub fn write_html_entity_to_string(e: u8, output: &mut String)
    ensures
        final(output)@ == old(output)@ + entity_chars(e),
{
    if e == '&' as u8 {
        output.push('&');
        output.push('a');
        output.push('m');
        output.push('p');
        output.push(';');
        assert(output@ =~= old(output)@ + entity_chars(e));
    } else if e == '<' as u8 {
        output.push('&');
        output.push('l');
        output.push('t');
        output.push(';');
        assert(output@ =~= old(output)@ + entity_chars(e));
    } else if e == '>' as u8 {
        output.push('&');
        output.push('g');
        output.push('t');
        output.push(';');
        assert(output@ =~= old(output)@ + entity_chars(e));
    } else if e == '"' as u8 {
        output.push('&');
        output.push('q');
        output.push('u');
        output.push('o');
        output.push('t');
        output.push(';');
        assert(output@ =~= old(output)@ + entity_chars(e));
    } else {
        write_hex_to_string(e, output);
    }
}

/// A character reference rendered into a fixed buffer, for a sink that
/// takes its bytes in one piece.
pub struct Reference {
    bytes: [u8; 6],
    len: usize,
}

impl Reference {
    #[verifier::type_invariant]
    spec fn fits(self) -> bool {
        self.len <= 6
    }

    /// The bytes of the reference.
    pub closed spec fn view(self) -> Seq<u8> {
        self.bytes@.take(self.len as int)
    }

    /// Renders the character reference of `e`.
    pub fn of(e: u8) -> (reference: Self)
        ensures
            reference@ == entity_of(e),
    {
        let semicolon: u8 = ';' as u8;
        let reference = if e == '&' as u8 {
            Reference { bytes: ['&' as u8, 'a' as u8, 'm' as u8, 'p' as u8, semicolon, 0], len: 5 }
        } else if e == '<' as u8 {
            Reference { bytes: ['&' as u8, 'l' as u8, 't' as u8, semicolon, 0, 0], len: 4 }
        } else if e == '>' as u8 {
            Reference { bytes: ['&' as u8, 'g' as u8, 't' as u8, semicolon, 0, 0], len: 4 }
        } else if e == '"' as u8 {
            Reference {
                bytes: ['&' as u8, 'q' as u8, 'u' as u8, 'o' as u8, 't' as u8, semicolon],
                len: 6,
            }
        } else {
            let he: u8 = e >> 4;
            let le: u8 = e & 0xF;
            assert(he == e / 16 && le == e % 16 && he < 16 && le < 16) by (bit_vector)
                requires
                    he == e >> 4,
                    le == e & 0xF,
            ;
            Reference {
                bytes: [
                    '&' as u8,
                    '#' as u8,
                    'x' as u8,
                    hex_digit_of(he),
                    hex_digit_of(le),
                    semicolon,
                ],
                len: 6,
            }
        };
        assert(reference@ =~= entity_of(e));
        reference
    }

    /// The bytes of the reference.
    pub fn as_bytes(&self) -> (bytes: &[u8])
        ensures
            bytes@ == self@,
    {
        proof {
            use_type_invariant(self);
        }
        let all: &[u8] = self.bytes.as_slice();
        let bytes = &all[0..self.len];
        assert(bytes@ =~= self@);
        bytes
    }
}

} // verus!
