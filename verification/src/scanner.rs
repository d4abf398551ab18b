//! The scan that all forms of the escaper share: a cursor over the UTF-8
//! bytes of a text that hands the text out in pieces, each either a run of
//! characters to copy or one byte to replace by its character reference.
use vstd::prelude::*;
use vstd::utf8::{encode_utf8, encode_utf8_valid_utf8, is_char_boundary, is_char_boundary_start_end_of_seq, valid_utf8};
use crate::classify::{get_width_assume_valid, is_alphanumeric};
use crate::encoding::{lemma_boundary_in_prefix, lemma_boundary_step};
use crate::entity::entity_of;
use crate::model::{byte_needs_escape, escape_bytes, is_clean_bytes, lemma_escape_bytes_clean, lemma_escape_bytes_concat};

verus! {

/// One piece of a scanned text.
pub enum Chunk<'a> {
    /// A run of characters that are copied as they are. A run is never
    /// empty, and it ends only where the text ends or before an escaped
    /// byte.
    Run(&'a str),
    /// A byte that is replaced by its character reference.
    Entity(u8),
}

impl<'a> Chunk<'a> {
    /// The bytes of the text that the piece covers.
    pub open spec fn source(self) -> Seq<u8> {
        match self {
            Chunk::Run(run) => encode_utf8(run@),
            Chunk::Entity(e) => seq![e],
        }
    }

    /// The bytes that the piece contributes to the escaped text.
    pub open spec fn payload(self) -> Seq<u8> {
        match self {
            Chunk::Run(run) => encode_utf8(run@),
            Chunk::Entity(e) => entity_of(e),
        }
    }

    /// What holds of every piece that the scan hands out: a run is not
    /// empty and holds no escaped byte, and a byte that is replaced is an
    /// escaped one.
    pub open spec fn well_formed(self) -> bool {
        match self {
            Chunk::Run(run) => run@.len() > 0 && is_clean_bytes(encode_utf8(run@)),
            Chunk::Entity(e) => byte_needs_escape(e),
        }
    }

    /// The piece is the next one of a text of which the bytes `before` were
    /// left, and leaves the bytes `after`: it covers the start of `before`,
    /// and a run goes on up to the end or an escaped byte. No other piece
    /// does so for the same `before`.
    pub open spec fn splits(self, before: Seq<u8>, after: Seq<u8>) -> bool {
        &&& self.well_formed()
        &&& before == self.source() + after
        &&& (self is Run && after.len() > 0 ==> byte_needs_escape(after[0]))
    }

    /// The escaped form of the bytes that were left before a piece is what
    /// the piece contributes, followed by the escaped form of the bytes that
    /// it leaves.
    pub proof fn lemma_payload(self, before: Seq<u8>, after: Seq<u8>)
        requires
            self.splits(before, after),
        ensures
            escape_bytes(before) == self.payload() + escape_bytes(after),
    {
        match self {
            Chunk::Run(run) => {
                lemma_escape_bytes_concat(encode_utf8(run@), after);
                lemma_escape_bytes_clean(encode_utf8(run@));
            },
            Chunk::Entity(e) => {
                assert(before.drop_first() =~= after);
                assert(before[0] == e);
            },
        }
    }
}

/// A cursor over a text. It starts at the first byte, and always stands on
/// a character boundary.
pub struct Scanner<'a> {
    text: &'a str,
    pos: usize,
}

impl<'a> Scanner<'a> {
    #[verifier::type_invariant]
    spec fn on_boundary(self) -> bool {
        is_char_boundary(encode_utf8(self.text@), self.pos as int)
    }

    /// The text that is scanned.
    pub closed spec fn text(self) -> Seq<char> {
        self.text@
    }

    /// The number of bytes of the text that have been handed out.
    pub closed spec fn position(self) -> int {
        self.pos as int
    }

    /// The bytes of the text that have not been handed out yet.
    pub open spec fn remaining(self) -> Seq<u8> {
        encode_utf8(self.text()).skip(self.position())
    }

    /// Starts a scan of `text`.
    pub fn new(text: &'a str) -> (scanner: Self)
        ensures
            scanner.text() == text@,
            scanner.position() == 0,
            scanner.remaining() == encode_utf8(text@),
    {
        proof {
            encode_utf8_valid_utf8(text@);
            is_char_boundary_start_end_of_seq(encode_utf8(text@));
            assert(encode_utf8(text@).skip(0) =~= encode_utf8(text@));
        }
        Scanner { text, pos: 0 }
    }

    /// Hands out the next piece of the text, or `None` at its end.
    ///
    /// If the byte at the cursor is escaped, the piece is that byte.
    /// Otherwise it is the longest run from the cursor on that holds no
    /// escaped byte; the run is found by stepping from character to
    /// character by the width that each leading byte announces.
    pub fn next_chunk(&mut self) -> (r: Option<Chunk<'a>>)
        ensures
            final(self).text() == old(self).text(),
            0 <= old(self).position() <= final(self).position() <= encode_utf8(
                old(self).text(),
            ).len(),
            match r {
                None => old(self).remaining().len() == 0 && final(self).remaining().len() == 0,
                Some(chunk) => {
                    &&& chunk.splits(old(self).remaining(), final(self).remaining())
                    &&& escape_bytes(old(self).remaining()) == chunk.payload() + escape_bytes(
                        final(self).remaining(),
                    )
                },
            },
    {
        proof {
            use_type_invariant(&*self);
            encode_utf8_valid_utf8(self.text@);
        }
        let text: &'a str = self.text;
        let bytes = text.as_bytes();
        let len: usize = bytes.len();
        let start: usize = self.pos;
        let mut p: usize = start;
        while p < len
            invariant
                len == bytes@.len(),
                bytes@ == encode_utf8(text@),
                valid_utf8(bytes@),
                is_char_boundary(bytes@, start as int),
                start <= p <= len,
                is_char_boundary(bytes@, p as int),
                is_clean_bytes(bytes@.subrange(start as int, p as int)),
            ensures
                p < len ==> byte_needs_escape(bytes@[p as int]),
            decreases len - p,
        {
            let e: u8 = bytes[p];
            proof {
                lemma_boundary_step(bytes@, p as int);
            }
            let width: usize = get_width_assume_valid(e);
            if width == 1 && !is_alphanumeric(e) {
                break;
            }
            proof {
                let q = p + width;
                assert forall|i: int| 0 <= i < q - start implies !byte_needs_escape(
                    #[trigger] bytes@.subrange(start as int, q)[i],
                ) by {
                    if i < p - start {
                        assert(bytes@.subrange(start as int, p as int)[i] == bytes@[start + i]);
                    }
                }
            }
            p += width;
        }
        let ghost tail = bytes@.skip(start as int);
        if p == start {
            if start == len {
                assert(tail.len() == 0);
                return None;
            }
            let e: u8 = bytes[start];
            proof {
                lemma_boundary_step(bytes@, start as int);
                assert(tail.drop_first() =~= bytes@.skip(start + 1));
                assert(tail =~= seq![e] + bytes@.skip(start + 1));
                Chunk::Entity(e).lemma_payload(tail, bytes@.skip(start + 1));
            }
            self.pos = start + 1;
            Some(Chunk::Entity(e))
        } else {
            proof {
                lemma_boundary_in_prefix(bytes@, start as int, p as int);
            }
            let (head, _) = text.split_at(p);
            let (_, run) = head.split_at(start);
            proof {
                let copied = encode_utf8(run@);
                let rest = bytes@.skip(p as int);
                assert(copied =~= bytes@.subrange(start as int, p as int));
                assert(tail =~= copied + rest);
                assert(run@.len() > 0) by {
                    if run@.len() == 0 {
                        assert(encode_utf8(run@).len() == 0);
                    }
                }
                assert(rest.len() > 0 ==> rest[0] == bytes@[p as int]);
                Chunk::Run(run).lemma_payload(tail, rest);
            }
            self.pos = p;
            Some(Chunk::Run(run))
        }
    }
}

} // verus!
