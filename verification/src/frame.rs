//! NUL-delimited framing with a hard cap on frame length. The reader
//! buffers raw bytes across reads and hands out one frame at a time; once a
//! run of more than `MAX_FRAME_LENGTH` bytes arrives without a terminator,
//! the stream is declared oversized and the caller closes the connection.

use vstd::prelude::*;

use crate::wire::{lemma_scan_nul_bounds, lemma_scan_nul_is, scan_nul};
use crate::MAX_FRAME_LENGTH;

verus! {

/// What one attempt to take a frame out of the buffer yields.
pub enum FrameEvent {
    /// A complete frame, terminator stripped.
    Frame(Vec<u8>),
    /// No complete frame yet; read more bytes and try again.
    NeedMore,
    /// The peer ran past the frame cap without a terminator.
    TooLong,
}

/// Buffers bytes read from a stream and splits them into frames.
/// Its view is the sequence of buffered, not yet consumed bytes.
pub struct FrameReader {
    buf: Vec<u8>,
}

impl View for FrameReader {
    type V = Seq<u8>;

    closed spec fn view(&self) -> Seq<u8> {
        self.buf@
    }
}

impl FrameReader {
    /// A reader with an empty buffer.
    pub fn new() -> (r: FrameReader)
        ensures
            r@ == Seq::<u8>::empty(),
    {
        FrameReader { buf: Vec::new() }
    }

    /// Appends freshly read bytes to the buffer.
    pub fn push_chunk(&mut self, chunk: &[u8])
        ensures
            final(self)@ == old(self)@ + chunk@,
    {
        let n = chunk.len();
        let mut i: usize = 0;
        while i < n
            invariant
                n == chunk@.len(),
                i <= n,
                self.buf@ == old(self)@ + chunk@.take(i as int),
            decreases n - i,
        {
            self.buf.push(chunk[i]);
            proof {
                assert(chunk@.take(i as int + 1) =~= chunk@.take(i as int).push(chunk@[i as int]));
                assert(self.buf@ =~= old(self)@ + chunk@.take(i as int + 1));
            }
            i = i + 1;
        }
        proof {
            assert(chunk@.take(n as int) =~= chunk@);
        }
    }

    /// Takes the next frame out of the buffer, reports that more bytes are
    /// needed, or reports that the peer exceeded the frame cap.
    pub fn next_event(&mut self) -> (r: FrameEvent)
        ensures
            ({
                let s = old(self)@;
                let p = scan_nul(s, 0);
                match r {
                    FrameEvent::Frame(f) => p < s.len() && p <= MAX_FRAME_LENGTH && f@ == s.take(p)
                        && final(self)@ == s.skip(p + 1),
                    FrameEvent::NeedMore => p == s.len() && s.len() <= MAX_FRAME_LENGTH
                        && final(self)@ == s,
                    FrameEvent::TooLong => p > MAX_FRAME_LENGTH && final(self)@ == s,
                }
            }),
    {
        let n = self.buf.len();
        let limit: usize = if n < MAX_FRAME_LENGTH + 1 {
            n
        } else {
            MAX_FRAME_LENGTH + 1
        };
        let mut i: usize = 0;
        while i < limit && self.buf[i] != 0
            invariant
                n == self.buf@.len(),
                limit <= n,
                i <= limit,
                self.buf@ == old(self)@,
                forall|j: int| 0 <= j < i ==> #[trigger] self.buf@[j] != 0,
            decreases limit - i,
        {
            i = i + 1;
        }
        let ghost s = old(self)@;
        if i < limit {
            // found a terminator at i, and i <= MAX_FRAME_LENGTH
            proof {
                lemma_scan_nul_is(s, i as int);
            }
            let mut frame: Vec<u8> = Vec::new();
            let mut j: usize = 0;
            while j < i
                invariant
                    i < self.buf@.len(),
                    self.buf@ == s,
                    j <= i,
                    frame@ == s.take(i as int).take(j as int),
                decreases i - j,
            {
                frame.push(self.buf[j]);
                proof {
                    assert(s.take(i as int).take(j as int + 1) =~= s.take(i as int).take(
                        j as int,
                    ).push(s[j as int]));
                }
                j = j + 1;
            }
            proof {
                assert(s.take(i as int).take(i as int) =~= s.take(i as int));
            }
            let mut rest: Vec<u8> = Vec::new();
            let mut k: usize = i + 1;
            while k < n
                invariant
                    n == self.buf@.len(),
                    self.buf@ == s,
                    i + 1 <= k <= n,
                    rest@ == s.subrange(i as int + 1, k as int),
                decreases n - k,
            {
                rest.push(self.buf[k]);
                proof {
                    assert(s.subrange(i as int + 1, k as int + 1) =~= s.subrange(
                        i as int + 1,
                        k as int,
                    ).push(s[k as int]));
                }
                k = k + 1;
            }
            self.buf = rest;
            proof {
                assert(self.buf@ =~= s.skip(i as int + 1));
            }
            FrameEvent::Frame(frame)
        } else if limit < n {
            // no terminator within the cap, but more bytes are pending
            proof {
                crate::wire::lemma_scan_nul_ge(s, limit as int);
            }
            FrameEvent::TooLong
        } else {
            // the whole buffer holds no terminator
            proof {
                lemma_scan_nul_is(s, n as int);
            }
            if n > MAX_FRAME_LENGTH {
                FrameEvent::TooLong
            } else {
                FrameEvent::NeedMore
            }
        }
    }

    /// How many bytes are buffered and not yet consumed.
    pub fn buffered_len(&self) -> (r: usize)
        ensures
            r == self@.len(),
    {
        self.buf.len()
    }

    /// Gives back every byte still buffered; used when the stream turns
    /// into a raw proxy and pipelined bytes must be forwarded first.
    pub fn take_rest(self) -> (r: Vec<u8>)
        ensures
            r@ == self@,
    {
        self.buf
    }
}

} // verus!
