//! The streaming side of the codec: a growable buffer with a consumed-prefix
//! cursor that turns arbitrarily chunked input into whole frames. Chunks
//! pulled from a byte stream are appended; each extraction attempt re-reads
//! the unconsumed bytes from their start, and the cursor advances only when
//! a whole frame was recognized.
use vstd::prelude::*;
use crate::frame::Frame;
use crate::parse::{spec_parse, SpecParse, ParseResult, lemma_parse_len};

verus! {

/// What one attempt to extract a frame from the buffered bytes produced.
#[derive(Debug, PartialEq, Eq)]
pub enum ReadOutcome {
    /// A whole frame; its bytes are now consumed.
    Frame(Frame),
    /// The buffered bytes end inside an unfinished frame: pull more first.
    NeedMore,
    /// The buffered bytes can never begin a frame: the stream is corrupt.
    Corrupt,
}

/// Ceiling on the bytes buffered for a single frame. The wire format lets a
/// peer announce any payload length, so without a ceiling the buffer would
/// grow without bound on a hostile or broken stream; a frame still
/// incomplete at this size is reported oversized instead, and the caller
/// drops the connection.
pub const MAX_FRAME_BYTES: usize = 8388608;

/// Byte buffer standing between a stream endpoint and the frame codec.
/// Bytes before the cursor belong to frames already handed out and are never
/// re-read; bytes at and after it are kept for the next attempt.
pub struct FrameBuffer {
    buf: Vec<u8>,
    start: usize,
}

impl FrameBuffer {
    /// The unconsumed bytes, in arrival order.
    pub closed spec fn pending(&self) -> Seq<u8> {
        self.buf@.skip(self.start as int)
    }

    /// The cursor lies within the buffer.
    pub closed spec fn wf(&self) -> bool {
        self.start <= self.buf@.len()
    }

    /// A fresh buffer with nothing pending.
    pub fn new() -> (c: Self)
        ensures
            c.wf(),
            c.pending() == Seq::<u8>::empty(),
    {
        let c = FrameBuffer { buf: Vec::new(), start: 0 };
        proof {
            assert(c.pending() =~= Seq::<u8>::empty());
        }
        c
    }

    /// Append one chunk pulled from the stream; nothing is consumed.
    pub fn feed(&mut self, chunk: &Vec<u8>)
        requires
            old(self).wf(),
        ensures
            final(self).wf(),
            final(self).pending() == old(self).pending() + chunk@,
    {
        let ghost pre: Seq<u8> = self.buf@;
        let n = chunk.len();
        let mut k: usize = 0;
        proof {
            assert(self.buf@ =~= pre + chunk@.take(0));
        }
        while k < n
            invariant
                k <= n == chunk@.len(),
                self.start == old(self).start,
                self.buf@ == pre + chunk@.take(k as int),
            decreases n - k,
        {
            self.buf.push(chunk[k]);
            proof {
                assert(chunk@.take(k + 1) =~= chunk@.take(k as int).push(chunk@[k as int]));
                assert(self.buf@ =~= pre + chunk@.take(k + 1));
            }
            k = k + 1;
        }
        proof {
            assert(chunk@.take(n as int) =~= chunk@);
            assert(self.pending() =~= old(self).pending() + chunk@);
        }
    }

    /// Whether unconsumed bytes remain. A stream that ends while this holds
    /// ended in the middle of a frame.
    pub fn has_pending(&self) -> (r: bool)
        requires
            self.wf(),
        ensures
            r == (self.pending().len() != 0),
    {
        self.start < self.buf.len()
    }

    /// Whether the pending bytes exceed the single-frame ceiling. A caller
    /// that sees this while the frame is still incomplete should drop the
    /// connection rather than read on.
    pub fn over_limit(&self) -> (r: bool)
        requires
            self.wf(),
        ensures
            r == (self.pending().len() > MAX_FRAME_BYTES),
    {
        self.buf.len() - self.start > MAX_FRAME_BYTES
    }

    /// Try to extract one frame from the pending bytes. When a whole frame
    /// is there, the cursor advances past exactly its bytes and later bytes
    /// stay pending for the next call; otherwise nothing is consumed, so a
    /// retry after `feed` scans the same bytes again.
    pub fn try_read_frame(&mut self) -> (r: ReadOutcome)
        requires
            old(self).wf(),
        ensures
            final(self).wf(),
            match spec_parse(old(self).pending()) {
                SpecParse::Complete { frame, len } => {
                    &&& r matches ReadOutcome::Frame(f) && f@ == frame
                    &&& final(self).pending() == old(self).pending().skip(len)
                },
                SpecParse::Incomplete => r is NeedMore && final(self).pending() == old(
                    self,
                ).pending(),
                SpecParse::Malformed => r is Corrupt && final(self).pending() == old(
                    self,
                ).pending(),
            },
    {
        let ghost s: Seq<u8> = self.pending();
        let cap = self.buf.len();
        match Frame::parse_at(&self.buf, self.start) {
            ParseResult::Complete(f, l) => {
                proof {
                    lemma_parse_len(s);
                    assert(l <= s.len() && s.len() == cap - self.start);
                }
                self.start = self.start + l;
                proof {
                    assert(self.pending() =~= s.skip(l as int));
                }
                ReadOutcome::Frame(f)
            },
            ParseResult::Incomplete => ReadOutcome::NeedMore,
            ParseResult::Malformed => ReadOutcome::Corrupt,
        }
    }
}

} // verus!
