//! The bounded byte buffer between the encode task and the transport task.
//!
//! The encoder writes as much as fits and waits when the buffer is full; the
//! transport reads what is there and waits when it is empty. The buffer never
//! holds more than its capacity, so memory stays bounded whatever the size of
//! the archive, and bytes come out in the order they went in.

use vstd::prelude::*;

verus! {

pub struct ByteBuffer {
    data: Vec<u8>,
    capacity: usize,
    writer_closed: bool,
    cancelled: bool,
    sent: Ghost<Seq<u8>>,
    received: Ghost<Seq<u8>>,
}

/// What a read of the buffer gives the transport task.
#[derive(Debug)]
pub enum ReadOutcome {
    /// Bytes taken from the front of the buffer.
    Data(Vec<u8>),
    /// Nothing held yet: wait for the encoder.
    Empty,
    /// Nothing held and the encoder has finished: the stream is over.
    End,
}

impl View for ByteBuffer {
    type V = Seq<u8>;

    /// The bytes held, oldest first.
    closed spec fn view(&self) -> Seq<u8> {
        self.data@
    }
}

impl ByteBuffer {
    pub closed spec fn spec_capacity(&self) -> nat {
        self.capacity as nat
    }

    /// Every byte the encoder has handed over so far.
    pub closed spec fn spec_sent(&self) -> Seq<u8> {
        self.sent@
    }

    /// Every byte the transport has taken so far.
    pub closed spec fn spec_received(&self) -> Seq<u8> {
        self.received@
    }

    pub closed spec fn spec_writer_closed(&self) -> bool {
        self.writer_closed
    }

    pub closed spec fn spec_cancelled(&self) -> bool {
        self.cancelled
    }

    pub closed spec fn wf(&self) -> bool {
        &&& 0 < self.capacity
        &&& self.data@.len() <= self.capacity
        &&& self.sent@ == self.received@ + self.data@
    }

    /// An empty, open buffer of `capacity` bytes.
    pub fn new(capacity: usize) -> (r: ByteBuffer)
        requires
            capacity > 0,
        ensures
            r.wf(),
            r@ == Seq::<u8>::empty(),
            r.spec_capacity() == capacity,
            r.spec_sent() == Seq::<u8>::empty(),
            r.spec_received() == Seq::<u8>::empty(),
            !r.spec_writer_closed(),
            !r.spec_cancelled(),
    {
        let r = ByteBuffer {
            data: Vec::new(),
            capacity,
            writer_closed: false,
            cancelled: false,
            sent: Ghost(Seq::empty()),
            received: Ghost(Seq::empty()),
        };
        assert(r.sent@ =~= r.received@ + r.data@);
        r
    }

    pub fn capacity(&self) -> (r: usize)
        ensures
            r == self.spec_capacity(),
    {
        self.capacity
    }

    /// Number of bytes held.
    pub fn held(&self) -> (r: usize)
        ensures
            r == self@.len(),
    {
        self.data.len()
    }

    /// Takes as many bytes of `bytes[from..]` as fit and tells how many; `None`
    /// once the transport has cancelled, and then nothing changes. A result of
    /// zero means the buffer is full: the encoder waits.
    pub fn write(&mut self, bytes: &[u8], from: usize) -> (r: Option<usize>)
        requires
            old(self).wf(),
            from <= bytes@.len(),
            !old(self).spec_writer_closed(),
        ensures
            final(self).wf(),
            final(self).spec_capacity() == old(self).spec_capacity(),
            final(self).spec_received() == old(self).spec_received(),
            final(self).spec_writer_closed() == old(self).spec_writer_closed(),
            final(self).spec_cancelled() == old(self).spec_cancelled(),
            old(self).spec_cancelled() ==> r is None && final(self)@ == old(self)@
                && final(self).spec_sent() == old(self).spec_sent(),
            !old(self).spec_cancelled() ==> (r matches Some(n) && {
                let room = old(self).spec_capacity() - old(self)@.len();
                let rest = bytes@.len() - from;
                &&& n == (if room < rest { room } else { rest })
                &&& final(self)@ == old(self)@ + bytes@.subrange(from as int, from + n)
                &&& final(self).spec_sent() == old(self).spec_sent() + bytes@.subrange(from as int, from + n)
            }),
    {
        if self.cancelled {
            return None;
        }
        let room = self.capacity - self.data.len();
        let rest = bytes.len() - from;
        let n = if room < rest { room } else { rest };
        let end: usize = from + n;
        let mut chunk: Vec<u8> = Vec::new();
        let mut i: usize = from;
        while i < end
            invariant
                end <= bytes@.len(),
                from <= i <= end,
                chunk@ == bytes@.subrange(from as int, i as int),
            decreases end - i,
        {
            chunk.push(bytes[i]);
            proof {
                assert(bytes@.subrange(from as int, i + 1) =~= bytes@.subrange(from as int, i as int).push(bytes@[i as int]));
            }
            i = i + 1;
        }
        self.data.append(&mut chunk);
        let ghost added = bytes@.subrange(from as int, from + n);
        self.sent = Ghost(self.sent@ + added);
        assert(self.sent@ =~= self.received@ + self.data@);
        Some(n)
    }

    /// Takes up to `max` bytes from the front.
    pub fn read(&mut self, max: usize) -> (r: ReadOutcome)
        requires
            old(self).wf(),
            max > 0,
        ensures
            final(self).wf(),
            final(self).spec_capacity() == old(self).spec_capacity(),
            final(self).spec_sent() == old(self).spec_sent(),
            final(self).spec_writer_closed() == old(self).spec_writer_closed(),
            final(self).spec_cancelled() == old(self).spec_cancelled(),
            old(self)@.len() == 0 && old(self).spec_writer_closed() ==> r is End && final(self)@ == old(self)@,
            old(self)@.len() == 0 && !old(self).spec_writer_closed() ==> r is Empty && final(self)@ == old(self)@,
            old(self)@.len() > 0 ==> (r matches ReadOutcome::Data(out) && {
                let n = if max < old(self)@.len() { max as int } else { old(self)@.len() as int };
                &&& out@ == old(self)@.subrange(0, n)
                &&& final(self)@ == old(self)@.subrange(n, old(self)@.len() as int)
                &&& final(self).spec_received() == old(self).spec_received() + out@
            }),
            !(r is Data) ==> final(self).spec_received() == old(self).spec_received(),
    {
        if self.data.len() == 0 {
            if self.writer_closed {
                return ReadOutcome::End;
            } else {
                return ReadOutcome::Empty;
            }
        }
        let n = if max < self.data.len() { max } else { self.data.len() };
        let mut rest = self.data.split_off(n);
        std::mem::swap(&mut self.data, &mut rest);
        let out = rest;
        self.received = Ghost(self.received@ + out@);
        assert(self.sent@ =~= self.received@ + self.data@);
        ReadOutcome::Data(out)
    }

    /// The encoder has written everything: readers see the end once the
    /// buffer is drained.
    pub fn close_writer(&mut self)
        requires
            old(self).wf(),
        ensures
            final(self).wf(),
            final(self).spec_writer_closed(),
            final(self)@ == old(self)@,
            final(self).spec_capacity() == old(self).spec_capacity(),
            final(self).spec_sent() == old(self).spec_sent(),
            final(self).spec_received() == old(self).spec_received(),
            final(self).spec_cancelled() == old(self).spec_cancelled(),
    {
        self.writer_closed = true;
    }

    /// The transport has failed: every later write is refused, so the
    /// encoder stops at its next write.
    pub fn cancel(&mut self)
        requires
            old(self).wf(),
        ensures
            final(self).wf(),
            final(self).spec_cancelled(),
            final(self)@ == old(self)@,
            final(self).spec_capacity() == old(self).spec_capacity(),
            final(self).spec_sent() == old(self).spec_sent(),
            final(self).spec_received() == old(self).spec_received(),
            final(self).spec_writer_closed() == old(self).spec_writer_closed(),
    {
        self.cancelled = true;
    }

    pub fn is_cancelled(&self) -> (r: bool)
        ensures
            r == self.spec_cancelled(),
    {
        self.cancelled
    }

    pub fn is_writer_closed(&self) -> (r: bool)
        ensures
            r == self.spec_writer_closed(),
    {
        self.writer_closed
    }
}

/// A well-formed buffer never holds more than its capacity, whatever has
/// been written to it: memory in flight is bounded by the configured size.
pub proof fn lemma_held_within_capacity(b: &ByteBuffer)
    requires
        b.wf(),
    ensures
        b@.len() <= b.spec_capacity(),
{
}

/// What the transport has taken, followed by what is still held, is exactly
/// what the encoder wrote: no byte is lost, repeated or reordered.
pub proof fn lemma_bytes_in_order(b: &ByteBuffer)
    requires
        b.wf(),
    ensures
        b.spec_sent() == b.spec_received() + b@,
        b@.len() == 0 ==> b.spec_received() == b.spec_sent(),
{
    if b@.len() == 0 {
        assert(b.spec_received() + b@ =~= b.spec_received());
    }
}

} // verus!
