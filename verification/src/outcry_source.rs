//! Feeding the server from an `outcry` shared-memory queue.
//!
//! A dedicated thread drains the consumer and hands each frame to a decoder that turns
//! bytes into `(channel, payload)`; the server publishes the result. If the consumer is
//! overrun, the source resyncs and every client is told to discard what it holds: the
//! upstream lost data, so nothing downstream can be trusted until the next snapshot.
//!
//! [`Source`] holds the thread's state and makes its decisions: [`Source::poll`] reads
//! the queue and says what to do next, [`Source::deliver`] publishes what the decoder
//! made of a frame. The thread itself, the decoder and the sleeping are the caller's.

use vstd::prelude::*;

use std::time::Duration;

use outcry::Consumer;
use outcry::Error as QueueError;

use crate::protocol::{data_text, RawJson};
use crate::registry::{after_deliveries, queued_count, subscribers_of, Delivery, Registry};

verus! {

#[verifier::external_type_specification]
#[verifier::external_body]
pub struct ExConsumer(Consumer);

#[verifier::external_type_specification]
#[verifier::external_body]
pub struct ExQueueError(QueueError);

/// A frame from the queue, decoded.
pub struct Decoded {
    /// Channel to publish on.
    pub channel: String,
    /// JSON payload, published verbatim.
    pub payload: RawJson,
}

/// Where the source thread should spend its time when the queue is empty.
#[derive(Debug, Clone, Copy)]
pub enum Idle {
    /// Spin. Lowest latency; burns a core.
    Spin,
    /// Sleep this long between polls once the queue has been empty for a while.
    Sleep(Duration),
}

/// Empty polls after which an [`Idle::Sleep`] source starts sleeping.
pub const SPIN_POLLS: u32 = 1_000;

/// Size of the read buffer a source starts with, in bytes.
pub const INITIAL_BUFFER: usize = 64 * 1024;

/// What one read of the queue gave.
pub enum ReadOutcome {
    /// A frame of this many bytes is at the start of the buffer.
    Frame(usize),
    /// Nothing new has been published.
    Empty,
    /// The writer lapped the reader by this many bytes; the reader must resync.
    Overrun {
        /// How far ahead of the reader the writer is, in bytes.
        behind: u64,
    },
    /// The next frame has this many bytes, more than the buffer holds; nothing was read.
    TooSmall {
        /// Size of the waiting frame.
        needed: usize,
    },
    /// Any other failure of the queue.
    Failed(QueueError),
}

/// Whether the reader has been overrun and not resynced since: what
/// `Consumer::is_overrun` reports. While it holds, every read reports an overrun.
pub uninterp spec fn consumer_overrun(consumer: Consumer) -> bool;

/// `Consumer::try_read` into `buf`, told apart by outcome. As the crate's source shows,
/// a frame that was read fits in the buffer, and a frame reported as too big is bigger
/// than the buffer; the buffer keeps its length; an overrun leaves the reader marked
/// overrun, and any other outcome leaves it unmarked (a marked reader reports nothing
/// but overruns). Which outcome comes, and what the bytes are, depend on the shared
/// queue and are not stated.
#[verifier::external_body]
fn try_read(consumer: &mut Consumer, buf: &mut Vec<u8>) -> (r: ReadOutcome)
    ensures
        final(buf)@.len() == old(buf)@.len(),
        consumer_overrun(*final(consumer)) == (r is Overrun),
        match r {
            ReadOutcome::Frame(n) => n <= old(buf)@.len(),
            ReadOutcome::TooSmall { needed } => needed > old(buf)@.len(),
            _ => true,
        },
{
    match consumer.try_read(buf.as_mut_slice()) {
        Ok(Some(n)) => ReadOutcome::Frame(n),
        Ok(None) => ReadOutcome::Empty,
        Err(QueueError::Overrun { behind }) => ReadOutcome::Overrun { behind },
        Err(QueueError::BufferTooSmall { needed, .. }) => ReadOutcome::TooSmall { needed },
        Err(e) => ReadOutcome::Failed(e),
    }
}

/// `Consumer::resync`: jumps to the head of the stream, which clears the overrun mark,
/// and returns how many bytes were skipped. The count depends on the shared queue and
/// is not stated.
#[verifier::external_body]
fn resync(consumer: &mut Consumer) -> (skipped: u64)
    ensures
        !consumer_overrun(*final(consumer)),
{
    consumer.resync()
}

/// What the source thread does after one poll.
pub enum Polled {
    /// A frame of this many bytes is at the start of [`Source::buffer`]: decode it and
    /// hand the result to [`Source::deliver`].
    Frame(usize),
    /// Nothing was waiting: spin once and poll again.
    Spin,
    /// Nothing has been waiting for a while: sleep this long and poll again.
    Sleep(Duration),
    /// The reader was overrun and has jumped to the head of the stream: tell every
    /// client to resync.
    Resynced {
        /// How far ahead of the reader the writer was, in bytes.
        behind: u64,
        /// How many bytes the jump skipped.
        skipped: u64,
    },
    /// The buffer was too small for the next frame and now has its size: poll again.
    Grown,
    /// The queue failed: stop the source.
    Failed(QueueError),
}

/// What became of a decoded frame.
pub enum Delivered {
    /// Published; this many queues took it.
    Published(usize),
    /// The decoder rejected the frame. `warn` is set when the running count of rejected
    /// frames has just reached a power of two, so a warning is logged at 1, 2, 4, ...
    Rejected {
        /// Log a warning now.
        warn: bool,
    },
}

/// A source's state, as its contracts see it.
pub struct SourceView {
    /// Length of the read buffer.
    pub buf_len: nat,
    /// Empty polls in a row.
    pub idle_polls: u32,
    /// Frames the decoder has rejected.
    pub undecodable: u64,
    /// What to do when the queue is empty.
    pub idle: Idle,
}

/// `n + 1`, or `n` when that would not fit.
pub open spec fn plus_one_u32(n: u32) -> u32 {
    if n < u32::MAX {
        (n + 1) as u32
    } else {
        n
    }
}

/// `n + 1`, or `n` when that would not fit.
pub open spec fn plus_one_u64(n: u64) -> u64 {
    if n < u64::MAX {
        (n + 1) as u64
    } else {
        n
    }
}

/// Whether `n` is a power of two.
pub open spec fn is_pow2(n: nat) -> bool
    decreases n,
{
    if n == 1 {
        true
    } else if n >= 2 && n % 2 == 0 {
        is_pow2(n / 2)
    } else {
        false
    }
}

/// Whether `n` is a power of two.
pub fn is_power_of_two(n: u64) -> (r: bool)
    ensures
        r == is_pow2(n as nat),
{
    let mut m = n;
    while m >= 2 && m % 2 == 0
        invariant
            is_pow2(m as nat) == is_pow2(n as nat),
        decreases m,
    {
        m = m / 2;
    }
    m == 1
}

/// The state after a read that gave `read`.
pub open spec fn after_read(s: SourceView, read: ReadOutcome) -> SourceView {
    match read {
        ReadOutcome::Frame(_) => SourceView { idle_polls: 0, ..s },
        ReadOutcome::Empty => SourceView { idle_polls: plus_one_u32(s.idle_polls), ..s },
        ReadOutcome::TooSmall { needed } => SourceView { buf_len: needed as nat, ..s },
        _ => s,
    }
}

/// What the thread does after a read that gave `read`, from state `s`.
pub open spec fn read_answer(s: SourceView, read: ReadOutcome, p: Polled) -> bool {
    match read {
        ReadOutcome::Frame(n) => p == Polled::Frame(n),
        ReadOutcome::Empty => match s.idle {
            Idle::Sleep(d) => if plus_one_u32(s.idle_polls) > SPIN_POLLS {
                p == Polled::Sleep(d)
            } else {
                p is Spin
            },
            Idle::Spin => p is Spin,
        },
        ReadOutcome::Overrun { behind } => (p matches Polled::Resynced { behind: b, .. } && b
            == behind),
        ReadOutcome::TooSmall { .. } => p is Grown,
        ReadOutcome::Failed(e) => p == Polled::Failed(e),
    }
}

/// The state of the thread that drains one consumer.
pub struct Source {
    buf: Vec<u8>,
    idle_polls: u32,
    undecodable: u64,
    idle: Idle,
}

impl View for Source {
    type V = SourceView;

    closed spec fn view(&self) -> SourceView {
        SourceView {
            buf_len: self.buf@.len(),
            idle_polls: self.idle_polls,
            undecodable: self.undecodable,
            idle: self.idle,
        }
    }
}

impl Source {
    /// The read buffer's bytes.
    pub closed spec fn bytes(&self) -> Seq<u8> {
        self.buf@
    }

    /// A fresh source: a buffer of [`INITIAL_BUFFER`] bytes, no empty polls, no rejected
    /// frames.
    pub fn new(idle: Idle) -> (s: Source)
        ensures
            s@ == (SourceView {
                buf_len: INITIAL_BUFFER as nat,
                idle_polls: 0,
                undecodable: 0,
                idle,
            }),
    {
        Source { buf: vec![0u8; INITIAL_BUFFER], idle_polls: 0, undecodable: 0, idle }
    }

    /// The read buffer; after [`Polled::Frame`]`(n)` its first `n` bytes are the frame.
    pub fn buffer(&self) -> (b: &[u8])
        ensures
            b@ == self.bytes(),
            b@.len() == self@.buf_len,
    {
        self.buf.as_slice()
    }

    /// The frame that the last poll read, given its length.
    pub fn frame(&self, n: usize) -> (b: &[u8])
        requires
            n <= self@.buf_len,
        ensures
            b@ == self.bytes().subrange(0, n as int),
    {
        vstd::slice::slice_subrange(self.buf.as_slice(), 0, n)
    }

    /// Frames the decoder has rejected so far.
    pub fn undecodable(&self) -> (n: u64)
        ensures
            n == self@.undecodable,
    {
        self.undecodable
    }

    /// Acts on what a read of the queue gave, as [`after_read`] and [`read_answer`]
    /// say: an overrun resyncs `consumer`, a frame too big for the buffer resizes it to
    /// the frame's size.
    pub fn on_read(&mut self, read: ReadOutcome, consumer: &mut Consumer) -> (p: Polled)
        ensures
            final(self)@ == after_read(old(self)@, read),
            read_answer(old(self)@, read, p),
            read is Overrun ==> !consumer_overrun(*final(consumer)),
            !(read is Overrun) ==> *final(consumer) == *old(consumer),
    {
        match read {
            ReadOutcome::Frame(n) => {
                self.idle_polls = 0;
                Polled::Frame(n)
            },
            ReadOutcome::Empty => {
                self.idle_polls = self.idle_polls.saturating_add(1);
                match self.idle {
                    Idle::Spin => Polled::Spin,
                    Idle::Sleep(d) => {
                        if self.idle_polls > SPIN_POLLS {
                            Polled::Sleep(d)
                        } else {
                            Polled::Spin
                        }
                    },
                }
            },
            ReadOutcome::Overrun { behind } => {
                let skipped = resync(consumer);
                Polled::Resynced { behind, skipped }
            },
            ReadOutcome::TooSmall { needed } => {
                self.buf.truncate(needed);
                while self.buf.len() < needed
                    invariant
                        self.buf@.len() <= needed,
                        self.idle_polls == old(self).idle_polls,
                        self.undecodable == old(self).undecodable,
                        self.idle == old(self).idle,
                    decreases needed - self.buf@.len(),
                {
                    self.buf.push(0u8);
                }
                Polled::Grown
            },
            ReadOutcome::Failed(e) => Polled::Failed(e),
        }
    }

    /// Reads the queue once and says what to do next. The frame, or its absence, comes
    /// from the queue; what is done with each outcome is [`Source::on_read`]'s.
    pub fn poll(&mut self, consumer: &mut Consumer) -> (p: Polled)
        ensures
            exists|read: ReadOutcome|
                {
                    &&& (read matches ReadOutcome::Frame(n) ==> n <= old(self)@.buf_len)
                    &&& final(self)@ == after_read(old(self)@, read)
                    &&& read_answer(old(self)@, read, p)
                },
            !consumer_overrun(*final(consumer)),
    {
        let read = try_read(consumer, &mut self.buf);
        let ghost r = read;
        let p = self.on_read(read, consumer);
        assert(r matches ReadOutcome::Frame(n) ==> n <= old(self)@.buf_len);
        p
    }

    /// Publishes what the decoder made of a frame, or counts a frame it rejected.
    pub fn deliver(&mut self, decoded: Option<Decoded>, registry: &mut Registry) -> (d: Delivered)
        ensures
            final(registry)@.next_id == old(registry)@.next_id,
            match decoded {
                Some(x) => {
                    &&& final(self)@ == old(self)@
                    &&& d matches Delivered::Published(n)
                    &&& exists|o: Map<u64, Delivery>|
                        {
                            &&& o.dom() == subscribers_of(old(registry)@.conns, x.channel@)
                            &&& final(registry)@.conns == after_deliveries(
                                old(registry)@.conns,
                                data_text(x.channel@, x.payload@),
                                o,
                            )
                            &&& n == queued_count(o)
                        }
                },
                None => {
                    &&& final(registry)@ == old(registry)@
                    &&& final(self)@ == (SourceView {
                        undecodable: plus_one_u64(old(self)@.undecodable),
                        ..old(self)@
                    })
                    &&& d == Delivered::Rejected { warn: is_pow2(final(self)@.undecodable as nat) }
                },
            },
    {
        match decoded {
            Some(x) => {
                let n = registry.publish_data(x.channel.as_str(), &x.payload);
                Delivered::Published(n)
            },
            None => {
                self.undecodable = self.undecodable.saturating_add(1);
                let warn = is_power_of_two(self.undecodable);
                Delivered::Rejected { warn }
            },
        }
    }
}

} // verus!
