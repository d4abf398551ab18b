//! The three forms of the escaper: one that returns the escaped text, one
//! that appends it to a string and one that appends it to a byte buffer.
use vstd::prelude::*;
use vstd::string::StringExecFns;
use vstd::utf8::{encode_utf8, encode_utf8_valid_utf8};
use std::borrow::Cow;
use crate::encoding::{lemma_boundary_at_concat, lemma_clean_encode, lemma_encode_concat, lemma_encode_entity, lemma_encode_escape, lemma_encode_injective};
use crate::entity::{entity_chars, write_html_entity_to_string, write_html_entity_to_vec};
use crate::model::{escape, escape_bytes, is_clean, is_clean_bytes, lemma_escape_clean};
use crate::scanner::{Chunk, Scanner};

verus! {

/// Appends `bytes` to `output`.
fn append_bytes(output: &mut Vec<u8>, bytes: &[u8])
    ensures
        final(output)@ == old(output)@ + bytes@,
{
    output.extend_from_slice(bytes);
    assert(output@ =~= old(output)@ + bytes@);
}

/// Appends to `output` the escaped form of what `scanner` has not handed
/// out yet.
fn drain_to_vec(scanner: &mut Scanner, output: &mut Vec<u8>)
    ensures
        final(scanner).text() == old(scanner).text(),
        final(output)@ == old(output)@ + escape_bytes(old(scanner).remaining()),
{
    let ghost before = output@;
    let ghost pending = escape_bytes(scanner.remaining());
    loop
        invariant
            scanner.text() == old(scanner).text(),
            output@ + escape_bytes(scanner.remaining()) == before + pending,
        ensures
            output@ == before + pending,
        decreases scanner.remaining().len(),
    {
        let ghost written = output@;
        let ghost rest = scanner.remaining();
        match scanner.next_chunk() {
            None => {
                assert(escape_bytes(rest) =~= Seq::<u8>::empty());
                assert(output@ =~= before + pending);
                break;
            },
            Some(Chunk::Run(run)) => {
                append_bytes(output, run.as_bytes());
            },
            Some(Chunk::Entity(e)) => {
                write_html_entity_to_vec(e, output);
            },
        }
        proof {
            let rest_after = scanner.remaining();
            assert(output@ + escape_bytes(rest_after) =~= written + escape_bytes(rest));
        }
    }
}

/// Appends to `output` the escaped form of what `scanner` has not handed
/// out yet.
fn drain_to_string(scanner: &mut Scanner, output: &mut String)
    ensures
        final(scanner).text() == old(scanner).text(),
        encode_utf8(final(output)@) == encode_utf8(old(output)@) + escape_bytes(
            old(scanner).remaining(),
        ),
{
    let ghost before = encode_utf8(output@);
    let ghost pending = escape_bytes(scanner.remaining());
    loop
        invariant
            scanner.text() == old(scanner).text(),
            encode_utf8(output@) + escape_bytes(scanner.remaining()) == before + pending,
        ensures
            encode_utf8(output@) == before + pending,
        decreases scanner.remaining().len(),
    {
        let ghost written = output@;
        let ghost rest = scanner.remaining();
        match scanner.next_chunk() {
            None => {
                assert(escape_bytes(rest) =~= Seq::<u8>::empty());
                assert(encode_utf8(output@) =~= before + pending);
                break;
            },
            Some(Chunk::Run(run)) => {
                output.append(run);
                proof {
                    lemma_encode_concat(written, run@);
                }
            },
            Some(Chunk::Entity(e)) => {
                write_html_entity_to_string(e, output);
                proof {
                    lemma_encode_concat(written, entity_chars(e));
                    lemma_encode_entity(e);
                }
            },
        }
        proof {
            let rest_after = scanner.remaining();
            assert(encode_utf8(output@) + escape_bytes(rest_after) =~= encode_utf8(written)
                + escape_bytes(rest));
        }
    }
}

/// Escapes `text` for use as an unquoted attribute value.
///
/// A text in which nothing is escaped is handed back as it came, borrowed;
/// nothing is allocated for it. Any other text is escaped into a new string,
/// for which room for the length of `text` is asked up front; a request
/// that is not granted is passed over, since the string grows as needed.
pub fn encode_unquoted_attribute<'a>(text: &'a str) -> (r: Cow<'a, str>)
    ensures
        r@ == escape(text@),
        is_clean(text@) ==> (r matches Cow::Borrowed(same) && same == text),
        !is_clean(text@) ==> r is Owned,
{
    proof {
        lemma_clean_encode(text@);
        lemma_encode_escape(text@);
    }
    let mut scanner = Scanner::new(text);
    let ghost bytes = encode_utf8(text@);
    let mut v = match scanner.next_chunk() {
        None => {
            proof {
                assert(is_clean_bytes(bytes));
                lemma_escape_clean(text@);
            }
            return Cow::Borrowed(text);
        },
        Some(Chunk::Run(run)) => {
            assert(bytes.len() == encode_utf8(run@).len() + scanner.remaining().len());
            if run.as_bytes().len() == text.as_bytes().len() {
                proof {
                    assert(scanner.remaining().len() == 0);
                    assert(bytes =~= encode_utf8(run@));
                    lemma_escape_clean(text@);
                }
                return Cow::Borrowed(text);
            }
            proof {
                assert(scanner.remaining().len() > 0);
                let n = encode_utf8(run@).len() as int;
                assert(bytes[n] == scanner.remaining()[0]);
            }
            let mut v = String::new();
            let _ = v.try_reserve(text.as_bytes().len());
            v.append(run);
            proof {
                assert(v@ =~= run@);
            }
            v
        },
        Some(Chunk::Entity(e)) => {
            proof {
                assert(bytes[0] == e);
            }
            let mut v = String::new();
            let _ = v.try_reserve(text.as_bytes().len());
            write_html_entity_to_string(e, &mut v);
            proof {
                assert(v@ =~= entity_chars(e));
                lemma_encode_entity(e);
            }
            v
        },
    };
    drain_to_string(&mut scanner, &mut v);
    proof {
        lemma_encode_injective(v@, escape(text@));
    }
    Cow::Owned(v)
}

/// Appends the escaped form of `text` to `output` and returns the part of
/// `output` that was appended. What `output` held before stays as it was.
pub fn encode_unquoted_attribute_to_string<'a>(text: &str, output: &'a mut String) -> (written:
    &'a str)
    ensures
        final(output)@ == old(output)@ + escape(text@),
        written@ == escape(text@),
{
    let current_length: usize = output.as_str().as_bytes().len();
    let _ = output.try_reserve(text.as_bytes().len());
    let mut scanner = Scanner::new(text);
    drain_to_string(&mut scanner, output);
    proof {
        lemma_encode_escape(text@);
        lemma_encode_concat(old(output)@, escape(text@));
        lemma_encode_injective(output@, old(output)@ + escape(text@));
        lemma_boundary_at_concat(old(output)@, escape(text@));
    }
    let (_, written) = output.as_str().split_at(current_length);
    proof {
        assert(encode_utf8(written@) =~= encode_utf8(escape(text@)));
        lemma_encode_injective(written@, escape(text@));
    }
    written
}

/// Appends the UTF-8 bytes of the escaped form of `text` to `output` and
/// returns the part of `output` that was appended. What `output` held
/// before stays as it was, whatever bytes those are.
pub fn encode_unquoted_attribute_to_vec<'a>(text: &str, output: &'a mut Vec<u8>) -> (written:
    &'a [u8])
    ensures
        final(output)@ == old(output)@ + encode_utf8(escape(text@)),
        written@ == encode_utf8(escape(text@)),
{
    output.reserve(text.as_bytes().len());
    let current_length: usize = output.len();
    let mut scanner = Scanner::new(text);
    drain_to_vec(&mut scanner, output);
    proof {
        lemma_encode_escape(text@);
    }
    let total: usize = output.len();
    let written = &output.as_slice()[current_length..total];
    proof {
        assert(written@ =~= encode_utf8(escape(text@)));
    }
    written
}

} // verus!
