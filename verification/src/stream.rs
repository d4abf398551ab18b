//! The escaper for a sink that takes bytes and may fail. The sink is not
//! called here: the escaper says what to write next, and is told afterwards
//! how the write went.
use vstd::prelude::*;
use vstd::utf8::encode_utf8;
use crate::encoding::lemma_encode_char;
use crate::entity::entity_of;
use crate::model::{byte_needs_escape, escape_bytes, is_clean_bytes, lemma_escape_bytes_clean, lemma_escape_bytes_concat};
use crate::scanner::{Chunk, Scanner};

verus! {

/// The number of bytes at the start of `bytes` before the first escaped one.
pub open spec fn clean_prefix_len(bytes: Seq<u8>) -> int
    decreases bytes.len(),
{
    if bytes.len() == 0 || byte_needs_escape(bytes[0]) {
        0
    } else {
        1 + clean_prefix_len(bytes.drop_first())
    }
}

/// The writes that the escaping of a text asks for while the bytes
/// `remaining` are left of it, in order: the reference of an escaped byte,
/// or all the bytes up to the next escaped one, in one write each.
pub open spec fn writes(remaining: Seq<u8>) -> Seq<Seq<u8>>
    decreases remaining.len(),
{
    if remaining.len() == 0 {
        Seq::empty()
    } else if byte_needs_escape(remaining[0]) {
        seq![entity_of(remaining[0])] + writes(remaining.drop_first())
    } else {
        let n = clean_prefix_len(remaining);
        if 0 < n <= remaining.len() {
            seq![remaining.take(n)] + writes(remaining.skip(n))
        } else {
            Seq::empty()
        }
    }
}

/// A run of clean bytes that ends at the end or before an escaped byte is
/// the whole clean start of the bytes.
pub proof fn lemma_clean_prefix(run: Seq<u8>, after: Seq<u8>)
    requires
        is_clean_bytes(run),
        after.len() > 0 ==> byte_needs_escape(after[0]),
    ensures
        clean_prefix_len(run + after) == run.len(),
    decreases run.len(),
{
    if run.len() == 0 {
        assert(run + after =~= after);
    } else {
        assert((run + after)[0] == run[0]);
        assert((run + after).drop_first() =~= run.drop_first() + after);
        assert forall|i: int| 0 <= i < run.drop_first().len() implies !byte_needs_escape(
            #[trigger] run.drop_first()[i],
        ) by {
            assert(run.drop_first()[i] == run[i + 1]);
        }
        lemma_clean_prefix(run.drop_first(), after);
    }
}

/// The next piece of a text is the first of the writes, and the writes
/// that follow are those of the bytes that the piece leaves.
pub proof fn lemma_first_write(chunk: Chunk, before: Seq<u8>, after: Seq<u8>)
    requires
        chunk.splits(before, after),
    ensures
        writes(before) == seq![chunk.payload()] + writes(after),
{
    match chunk {
        Chunk::Run(run) => {
            let copied = encode_utf8(run@);
            lemma_clean_prefix(copied, after);
            assert(copied.len() > 0) by {
                lemma_encode_char(run@[0]);
            }
            assert(before[0] == copied[0]);
            assert(before.take(copied.len() as int) =~= copied);
            assert(before.skip(copied.len() as int) =~= after);
        },
        Chunk::Entity(e) => {
            assert(before[0] == e);
            assert(before.drop_first() =~= after);
        },
    }
}

/// The writes, one after the other, are the escaped bytes, and none of
/// them is empty.
pub proof fn lemma_writes_escape(remaining: Seq<u8>)
    ensures
        writes(remaining).flatten() == escape_bytes(remaining),
        forall|i: int| 0 <= i < writes(remaining).len() ==> (#[trigger] writes(remaining)[i]).len() > 0,
    decreases remaining.len(),
{
    if remaining.len() == 0 {
        assert(writes(remaining).flatten() =~= escape_bytes(remaining));
    } else if byte_needs_escape(remaining[0]) {
        let first = entity_of(remaining[0]);
        let rest = writes(remaining.drop_first());
        lemma_writes_escape(remaining.drop_first());
        assert((seq![first] + rest).first() == first);
        assert((seq![first] + rest).drop_first() =~= rest);
        assert(first.len() >= 4);
        assert forall|i: int| 0 <= i < writes(remaining).len() implies (#[trigger] writes(
            remaining,
        )[i]).len() > 0 by {
            if i > 0 {
                assert(writes(remaining)[i] == rest[i - 1]);
            }
        }
    } else {
        lemma_clean_prefix_bounds(remaining);
        let n = clean_prefix_len(remaining);
        let first = remaining.take(n);
        let left = remaining.skip(n);
        let rest = writes(left);
        lemma_writes_escape(left);
        assert((seq![first] + rest).first() == first);
        assert((seq![first] + rest).drop_first() =~= rest);
        assert(remaining =~= first + left);
        lemma_escape_bytes_concat(first, left);
        lemma_escape_bytes_clean(first);
        assert forall|i: int| 0 <= i < writes(remaining).len() implies (#[trigger] writes(
            remaining,
        )[i]).len() > 0 by {
            if i > 0 {
                assert(writes(remaining)[i] == rest[i - 1]);
            }
        }
    }
}

/// The clean start of a byte sequence lies within it, holds no escaped
/// byte, and is not empty where the first byte is not escaped.
pub proof fn lemma_clean_prefix_bounds(bytes: Seq<u8>)
    ensures
        0 <= clean_prefix_len(bytes) <= bytes.len(),
        is_clean_bytes(bytes.take(clean_prefix_len(bytes))),
        bytes.len() > 0 && !byte_needs_escape(bytes[0]) ==> clean_prefix_len(bytes) > 0,
    decreases bytes.len(),
{
    if bytes.len() > 0 && !byte_needs_escape(bytes[0]) {
        let rest = bytes.drop_first();
        lemma_clean_prefix_bounds(rest);
        let n = clean_prefix_len(bytes);
        assert forall|i: int| 0 <= i < n implies !byte_needs_escape(#[trigger] bytes.take(n)[i]) by {
            if i > 0 {
                assert(rest.take(n - 1)[i - 1] == bytes[i]);
            }
        }
    }
}

/// What the driver of a sink does next.
pub enum SinkAction<'a, E> {
    /// Write the bytes of this piece to the sink, in one call, and report
    /// the outcome.
    Write(Chunk<'a>),
    /// Write nothing more, and return this.
    Finish(Result<(), E>),
}

/// The state of one escaping of a text into a sink.
pub struct SinkEscaper<'a> {
    scanner: Scanner<'a>,
    stopped: bool,
}

impl<'a> SinkEscaper<'a> {
    /// The text that is escaped.
    pub closed spec fn text(self) -> Seq<char> {
        self.scanner.text()
    }

    /// The bytes of the text for which nothing was handed to the sink yet.
    pub closed spec fn remaining(self) -> Seq<u8> {
        self.scanner.remaining()
    }

    /// Whether the escaping has ended, at the end of the text or at a write
    /// that failed.
    pub closed spec fn stopped(self) -> bool {
        self.stopped
    }

    /// Starts the escaping of `text`.
    pub fn new(text: &'a str) -> (escaper: Self)
        ensures
            escaper.text() == text@,
            escaper.remaining() == encode_utf8(text@),
            !escaper.stopped(),
    {
        SinkEscaper { scanner: Scanner::new(text), stopped: false }
    }

    /// Decides what the driver does next. `outcome` is what the sink
    /// returned for the write that the call before asked for, and `Ok` at
    /// the first call.
    ///
    /// After a write that failed nothing more is written: the error is
    /// handed back as it came. Otherwise the next piece of the text is to
    /// be written, and at the end of the text the escaping finishes with
    /// `Ok`. Once it has finished, every further call finishes too.
    pub fn step<E>(&mut self, outcome: Result<(), E>) -> (action: SinkAction<'a, E>)
        ensures
            final(self).text() == old(self).text(),
            old(self).stopped() || outcome is Err ==> {
                &&& action == SinkAction::<E>::Finish(outcome)
                &&& final(self).stopped()
                &&& final(self).remaining() == old(self).remaining()
            },
            !old(self).stopped() && outcome is Ok ==> match action {
                SinkAction::Finish(result) => {
                    &&& result is Ok
                    &&& old(self).remaining().len() == 0
                    &&& final(self).remaining().len() == 0
                    &&& final(self).stopped()
                },
                SinkAction::Write(chunk) => {
                    &&& chunk.splits(old(self).remaining(), final(self).remaining())
                    &&& writes(old(self).remaining()) == seq![chunk.payload()] + writes(
                        final(self).remaining(),
                    )
                    &&& escape_bytes(old(self).remaining()) == chunk.payload() + escape_bytes(
                        final(self).remaining(),
                    )
                    &&& !final(self).stopped()
                },
            },
    {
        if self.stopped {
            return SinkAction::Finish(outcome);
        }
        if outcome.is_err() {
            self.stopped = true;
            return SinkAction::Finish(outcome);
        }
        let ghost before = self.scanner.remaining();
        match self.scanner.next_chunk() {
            Some(chunk) => {
                proof {
                    lemma_first_write(chunk, before, self.scanner.remaining());
                }
                SinkAction::Write(chunk)
            },
            None => {
                self.stopped = true;
                SinkAction::Finish(outcome)
            },
        }
    }
}

} // verus!
