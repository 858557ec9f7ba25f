//! The bookkeeping of a buffered byte reader and a buffered byte writer.
//!
//! A reader hands out bytes one at a time from a block that was read in
//! one go, and asks for a new block once every byte of the last one was
//! handed out; a writer collects bytes and hands out a full block to be
//! written in one go. The reading and writing themselves are done by the
//! caller, which asks these buffers when a block must be read or written
//! and tells them how much was read or written.
//!
//! Both keep, for the proofs, every byte that went through them. Their laws
//! over any sequence of calls are `ReadBuffer::lemma_reader_law` and
//! `WriteBuffer::lemma_writer_law`.
use vstd::prelude::*;

verus! {

/// The state of a buffered reader: the block read last, how many of its
/// bytes were handed out, and (for the proofs) every byte taken in and
/// every byte handed out so far.
pub struct ReadBuffer {
    buf: Vec<u8>,
    pos: usize,
    size: usize,
    received: Ghost<Seq<u8>>,
    handed: Ghost<Seq<u8>>,
}

impl ReadBuffer {
    /// The buffer's internal consistency, kept by every operation: the bytes
    /// handed out followed by the bytes still to be handed out are all the
    /// bytes taken in.
    #[verifier::type_invariant]
    pub closed spec fn wf(&self) -> bool {
        &&& self.pos <= self.size
        &&& self.size <= self.buf@.len()
        &&& self.handed@ + self.buf@.take(self.size as int).skip(self.pos as int)
            == self.received@
    }

    /// The bytes of the block read last.
    pub closed spec fn block(&self) -> Seq<u8> {
        self.buf@.take(self.size as int)
    }

    /// How many bytes of the block were handed out.
    pub closed spec fn consumed(&self) -> nat {
        self.pos as nat
    }

    /// The most bytes a block can hold.
    pub closed spec fn capacity(&self) -> nat {
        self.buf@.len()
    }

    /// Every byte of every block taken in, in order.
    pub closed spec fn received(&self) -> Seq<u8> {
        self.received@
    }

    /// Every byte handed out, in order.
    pub closed spec fn handed_out(&self) -> Seq<u8> {
        self.handed@
    }

    /// The bytes of the block still to be handed out.
    pub open spec fn remaining(&self) -> Seq<u8> {
        self.block().skip(self.consumed() as int)
    }

    /// Whether a block must be read before the next byte is handed out:
    /// every byte of the last block was handed out.
    pub open spec fn spec_needs_refill(&self) -> bool {
        self.remaining().len() == 0
    }

    /// The reader's law over any sequence of calls. Fed with the blocks that
    /// successive reads of some content returned (so what it received is a
    /// prefix of the content), it has handed out exactly the first bytes of
    /// the content, in order, and what it still holds are the bytes that
    /// follow them: the next byte handed out is the content's byte at the
    /// position of the number of bytes handed out so far.
    pub proof fn lemma_reader_law(r: &Self, content: Seq<u8>)
        requires
            r.wf(),
            r.received().len() <= content.len(),
            r.received() == content.take(r.received().len() as int),
        ensures
            r.handed_out() + r.remaining() == r.received(),
            r.consumed() <= r.block().len() <= r.capacity(),
            r.handed_out() == content.take(r.handed_out().len() as int),
            forall|k: int|
                0 <= k < r.remaining().len() ==> #[trigger] r.remaining()[k] == content[r.handed_out().len()
                    + k],
    {
        let h = r.handed_out();
        let m = r.remaining();
        assert forall|k: int| 0 <= k < h.len() implies #[trigger] h[k] == content.take(
            h.len() as int,
        )[k] by {
            assert((h + m)[k] == h[k]);
        }
        assert(h =~= content.take(h.len() as int));
        assert forall|k: int| 0 <= k < m.len() implies #[trigger] m[k] == content[h.len() + k] by {
            assert((h + m)[h.len() + k] == m[k]);
        }
    }

    /// An empty reader whose blocks hold up to `capacity` bytes.
    pub fn new(capacity: usize) -> (r: Self)
        ensures
            r.capacity() == capacity,
            r.block() == Seq::<u8>::empty(),
            r.consumed() == 0,
            r.received() == Seq::<u8>::empty(),
            r.handed_out() == Seq::<u8>::empty(),
    {
        let mut buf: Vec<u8> = Vec::new();
        let mut i: usize = 0;
        while i < capacity
            invariant
                i <= capacity,
                buf@.len() == i,
            decreases capacity - i,
        {
            buf.push(0u8);
            i = i + 1;
        }
        assert(buf@.take(0).skip(0) =~= Seq::<u8>::empty());
        ReadBuffer {
            buf,
            pos: 0,
            size: 0,
            received: Ghost(Seq::empty()),
            handed: Ghost(Seq::empty()),
        }
    }

    /// The most bytes a block can hold.
    pub fn buffer_capacity(&self) -> (n: usize)
        ensures
            n == self.capacity(),
    {
        self.buf.len()
    }

    /// Whether a block must be read before the next byte is handed out:
    /// every byte of the last block was handed out.
    pub fn needs_refill(&self) -> (b: bool)
        ensures
            b == self.spec_needs_refill(),
    {
        proof {
            use_type_invariant(self);
        }
        self.pos == self.size
    }

    /// Takes in a block just read, once every byte of the last one was
    /// handed out: its bytes will be handed out next, in order.
    pub fn refill(&mut self, chunk: &[u8])
        requires
            old(self).spec_needs_refill(),
            chunk@.len() <= old(self).capacity(),
        ensures
            final(self).capacity() == old(self).capacity(),
            final(self).block() == chunk@,
            final(self).consumed() == 0,
            final(self).remaining() == chunk@,
            final(self).received() == old(self).received() + chunk@,
            final(self).handed_out() == old(self).handed_out(),
    {
        proof {
            use_type_invariant(&*self);
        }
        let mut taken = ReadBuffer::new(0);
        std::mem::swap(self, &mut taken);
        let ReadBuffer { mut buf, pos, size, received, handed } = taken;
        let n = chunk.len();
        let mut i: usize = 0;
        while i < n
            invariant
                n == chunk@.len(),
                i <= n,
                n <= buf@.len(),
                buf@.len() == old(self).buf@.len(),
                buf@.take(i as int) == chunk@.take(i as int),
            decreases n - i,
        {
            buf.set(i, chunk[i]);
            assert(buf@.take(i + 1) =~= chunk@.take(i + 1));
            i = i + 1;
        }
        assert(chunk@.take(n as int) =~= chunk@);
        assert(old(self).remaining().len() == 0);
        assert(handed@ =~= received@);
        assert(buf@.take(n as int).skip(0) =~= chunk@);
        *self = ReadBuffer { buf, pos: 0, size: n, received: Ghost(received@ + chunk@), handed };
    }

    /// Hands out the next byte of the block, or `None` when the block has
    /// no bytes left; nothing changes then.
    pub fn next_byte(&mut self) -> (b: Option<u8>)
        ensures
            final(self).capacity() == old(self).capacity(),
            final(self).block() == old(self).block(),
            final(self).received() == old(self).received(),
            old(self).remaining().len() == 0 ==> b is None && *final(self) == *old(self),
            old(self).remaining().len() > 0 ==> b == Some(old(self).remaining()[0])
                && final(self).consumed() == old(self).consumed() + 1
                && final(self).handed_out() == old(self).handed_out().push(old(self).remaining()[0]),
            final(self).remaining() == if old(self).remaining().len() == 0 {
                old(self).remaining()
            } else {
                old(self).remaining().drop_first()
            },
    {
        proof {
            use_type_invariant(&*self);
        }
        if self.pos == self.size {
            return None;
        }
        let mut taken = ReadBuffer::new(0);
        std::mem::swap(self, &mut taken);
        let ReadBuffer { buf, pos, size, received, handed } = taken;
        let b = buf[pos];
        let ghost new_handed = handed@.push(b);
        assert(buf@.take(size as int).skip(pos + 1) =~= old(self).remaining().drop_first());
        assert(new_handed + buf@.take(size as int).skip(pos + 1) =~= handed@ + old(
            self,
        ).remaining());
        *self = ReadBuffer { buf, pos: pos + 1, size, received, handed: Ghost(new_handed) };
        Some(b)
    }
}

/// What a writer asks for after taking in bytes.
#[derive(Debug, Clone, Copy, PartialEq, Eq, Structural)]
pub enum WritePlan {
    /// Every byte was taken in and the buffer is not full: nothing to do.
    Done,
    /// The buffer is full: its pending bytes must be written before more
    /// bytes can be taken in.
    WritePending,
}

/// What a write of pending bytes achieved.
#[derive(Debug, Clone, Copy, PartialEq, Eq, Structural)]
pub enum WriteOutcome {
    /// Nothing was written although bytes are pending: the write failed.
    Stalled,
    /// Some bytes were written and some are still pending.
    Partial,
    /// Nothing is pending any more.
    Complete,
}

/// The state of a buffered writer: the bytes collected and not yet written,
/// and (for the proofs) every byte accepted and every byte reported written.
pub struct WriteBuffer {
    buf: Vec<u8>,
    pos: usize,
    accepted: Ghost<Seq<u8>>,
    delivered: Ghost<Seq<u8>>,
}

impl WriteBuffer {
    /// The buffer's internal consistency, kept by every operation: the
    /// bytes written followed by the bytes still pending are all the bytes
    /// accepted.
    #[verifier::type_invariant]
    pub closed spec fn wf(&self) -> bool {
        &&& self.pos <= self.buf@.len()
        &&& self.delivered@ + self.buf@.take(self.pos as int) == self.accepted@
    }

    /// The bytes collected and not yet written, in order.
    pub closed spec fn pending(&self) -> Seq<u8> {
        self.buf@.take(self.pos as int)
    }

    /// The most bytes the buffer can collect before they must be written.
    pub closed spec fn capacity(&self) -> nat {
        self.buf@.len()
    }

    /// Every byte accepted, in order.
    pub closed spec fn accepted(&self) -> Seq<u8> {
        self.accepted@
    }

    /// Every byte reported written, in order.
    pub closed spec fn delivered(&self) -> Seq<u8> {
        self.delivered@
    }

    /// Whether the buffer is full and its bytes must be written.
    pub open spec fn spec_is_full(&self) -> bool {
        self.pending().len() == self.capacity()
    }

    /// The writer's law over any sequence of calls: what was reported
    /// written is a prefix of everything accepted, in order, with nothing
    /// lost, added or reordered; it is less than a buffer's worth behind
    /// whenever the buffer is not full (as after every `plan_write` that is
    /// `Done`), and all of it once nothing is pending (as after writing out
    /// until `Complete`).
    pub proof fn lemma_writer_law(w: &Self)
        requires
            w.wf(),
        ensures
            w.delivered() + w.pending() == w.accepted(),
            w.delivered() == w.accepted().take(w.delivered().len() as int),
            w.pending().len() <= w.capacity(),
            !w.spec_is_full() ==> w.accepted().len() - w.delivered().len() < w.capacity(),
            w.pending().len() == 0 ==> w.delivered() == w.accepted(),
    {
        let d = w.delivered();
        assert forall|k: int| 0 <= k < d.len() implies #[trigger] d[k] == w.accepted().take(
            d.len() as int,
        )[k] by {
            assert((d + w.pending())[k] == d[k]);
        }
        assert(d =~= w.accepted().take(d.len() as int));
        if w.pending().len() == 0 {
            assert(d + w.pending() =~= d);
        }
    }

    /// An empty writer that collects up to `capacity` bytes at a time.
    pub fn new(capacity: usize) -> (w: Self)
        requires
            capacity > 0,
        ensures
            w.capacity() == capacity,
            w.pending() == Seq::<u8>::empty(),
            w.accepted() == Seq::<u8>::empty(),
            w.delivered() == Seq::<u8>::empty(),
    {
        let w = Self::with_capacity(capacity);
        w
    }

    fn with_capacity(capacity: usize) -> (w: Self)
        ensures
            w.capacity() == capacity,
            w.pending() == Seq::<u8>::empty(),
            w.accepted() == Seq::<u8>::empty(),
            w.delivered() == Seq::<u8>::empty(),
    {
        let mut buf: Vec<u8> = Vec::new();
        let mut i: usize = 0;
        while i < capacity
            invariant
                i <= capacity,
                buf@.len() == i,
            decreases capacity - i,
        {
            buf.push(0u8);
            i = i + 1;
        }
        assert(buf@.take(0) =~= Seq::<u8>::empty());
        WriteBuffer { buf, pos: 0, accepted: Ghost(Seq::empty()), delivered: Ghost(Seq::empty()) }
    }

    /// Whether the buffer is full and its bytes must be written.
    pub fn is_full(&self) -> (b: bool)
        ensures
            b == self.spec_is_full(),
    {
        proof {
            use_type_invariant(self);
        }
        self.pos == self.buf.len()
    }

    /// Collects bytes of `data` from position `from` on, until the buffer
    /// is full or `data` ends, and returns the position after the last byte
    /// taken.
    pub fn stage(&mut self, data: &[u8], from: usize) -> (next: usize)
        requires
            !old(self).spec_is_full(),
            from <= data@.len(),
        ensures
            final(self).capacity() == old(self).capacity(),
            next == if data@.len() - from <= old(self).capacity() - old(self).pending().len() {
                data@.len() as int
            } else {
                from + old(self).capacity() - old(self).pending().len()
            },
            final(self).pending() == old(self).pending() + data@.subrange(from as int, next as int),
            final(self).accepted() == old(self).accepted() + data@.subrange(
                from as int,
                next as int,
            ),
            final(self).delivered() == old(self).delivered(),
    {
        proof {
            use_type_invariant(&*self);
        }
        let mut taken = WriteBuffer::with_capacity(0);
        std::mem::swap(self, &mut taken);
        let WriteBuffer { mut buf, mut pos, accepted, delivered } = taken;
        let ghost old_pending = buf@.take(pos as int);
        let mut i = from;
        while i < data.len() && pos < buf.len()
            invariant
                from <= i <= data@.len(),
                pos <= buf@.len(),
                buf@.len() == old(self).buf@.len(),
                pos - old(self).pos == i - from,
                buf@.take(pos as int) == old_pending + data@.subrange(from as int, i as int),
            decreases data@.len() - i,
        {
            let ghost before = buf@.take(pos as int);
            buf.set(pos, data[i]);
            pos = pos + 1;
            assert(buf@.take(pos as int) =~= before.push(data@[i as int]));
            assert(data@.subrange(from as int, i + 1) =~= data@.subrange(from as int, i as int).push(
                data@[i as int],
            ));
            i = i + 1;
        }
        let ghost new_accepted = accepted@ + data@.subrange(from as int, i as int);
        assert(delivered@ + buf@.take(pos as int) =~= new_accepted);
        *self = WriteBuffer { buf, pos, accepted: Ghost(new_accepted), delivered };
        i
    }

    /// Takes in bytes of `data` from position `from` on, as `stage` does,
    /// unless the buffer is already full. Returns the position after the
    /// last byte taken and whether the pending bytes must now be written:
    /// `Done` only once every byte of `data` was taken in.
    pub fn plan_write(&mut self, data: &[u8], from: usize) -> (res: (usize, WritePlan))
        requires
            from <= data@.len(),
        ensures
            from <= res.0 <= data@.len(),
            final(self).capacity() == old(self).capacity(),
            final(self).pending() == old(self).pending() + data@.subrange(from as int, res.0 as int),
            final(self).accepted() == old(self).accepted() + data@.subrange(
                from as int,
                res.0 as int,
            ),
            final(self).delivered() == old(self).delivered(),
            old(self).spec_is_full() ==> res.0 == from,
            !old(self).spec_is_full() ==> res.0 == if data@.len() - from <= old(self).capacity()
                - old(self).pending().len() {
                data@.len() as int
            } else {
                from + old(self).capacity() - old(self).pending().len()
            },
            res.1 == WritePlan::WritePending <==> final(self).spec_is_full(),
            res.1 == WritePlan::Done ==> res.0 == data@.len(),
    {
        proof {
            use_type_invariant(&*self);
        }
        if self.is_full() {
            assert(data@.subrange(from as int, from as int) =~= Seq::<u8>::empty());
            assert(self.pending() + Seq::<u8>::empty() =~= self.pending());
            assert(self.accepted() + Seq::<u8>::empty() =~= self.accepted());
            return (from, WritePlan::WritePending);
        }
        let next = self.stage(data, from);
        proof {
            use_type_invariant(&*self);
        }
        if self.is_full() {
            (next, WritePlan::WritePending)
        } else {
            (next, WritePlan::Done)
        }
    }

    /// The bytes collected and not yet written, in order.
    pub fn pending_bytes(&self) -> (bytes: &[u8])
        ensures
            bytes@ == self.pending(),
    {
        proof {
            use_type_invariant(self);
        }
        &self.buf.as_slice()[0..self.pos]
    }

    /// Takes note that the first `count` pending bytes were written: they
    /// are no longer pending, and the rest stay pending in order.
    pub fn consume_written(&mut self, count: usize) -> (outcome: WriteOutcome)
        requires
            count <= old(self).pending().len(),
        ensures
            final(self).capacity() == old(self).capacity(),
            final(self).pending() == old(self).pending().skip(count as int),
            final(self).delivered() == old(self).delivered() + old(self).pending().take(
                count as int,
            ),
            final(self).accepted() == old(self).accepted(),
            outcome == WriteOutcome::Complete <==> final(self).pending().len() == 0,
            outcome == WriteOutcome::Stalled <==> count == 0 && old(self).pending().len() > 0,
    {
        proof {
            use_type_invariant(&*self);
        }
        let mut taken = WriteBuffer::with_capacity(0);
        std::mem::swap(self, &mut taken);
        let WriteBuffer { mut buf, pos, accepted, delivered } = taken;
        let ghost old_buf = buf@;
        let ghost old_pending = buf@.take(pos as int);
        let keep = pos - count;
        let mut k: usize = 0;
        while k < keep
            invariant
                keep == pos - count,
                count <= pos <= old_buf.len(),
                buf@.len() == old_buf.len(),
                old_pending == old_buf.take(pos as int),
                k <= keep,
                forall|j: int| 0 <= j < k ==> #[trigger] buf@[j] == old_pending[j + count],
                forall|j: int| k <= j < buf@.len() ==> #[trigger] buf@[j] == old_buf[j],
            decreases keep - k,
        {
            let b = buf[k + count];
            buf.set(k, b);
            k = k + 1;
        }
        let ghost new_delivered = delivered@ + old_pending.take(count as int);
        assert(buf@.take(keep as int) =~= old_pending.skip(count as int));
        assert(new_delivered + buf@.take(keep as int) =~= delivered@ + old_pending);
        *self = WriteBuffer { buf, pos: keep, accepted, delivered: Ghost(new_delivered) };
        if keep == 0 {
            WriteOutcome::Complete
        } else if count == 0 {
            WriteOutcome::Stalled
        } else {
            WriteOutcome::Partial
        }
    }
}

/// The block size of the buffered reader and writer of a copy.
pub const BLOCK_CAPACITY: usize = 64_000;

/// How many bytes an I/O call hands back: `requested`, kept between 1 and
/// `most`.
fn clamp_size(requested: usize, most: usize) -> (n: usize)
    requires
        most > 0,
    ensures
        1 <= n <= most,
        1 <= requested <= most ==> n == requested,
        requested >= most ==> n == most,
{
    if requested == 0 {
        1
    } else if requested > most {
        most
    } else {
        requested
    }
}

/// Writes every pending byte of `writer` to `output`, in writes whose sizes
/// come from `write_sizes` (from position `*next_write` on; a whole write
/// once they run out), each between 1 and what is pending.
fn write_out(
    writer: &mut WriteBuffer,
    output: &mut Vec<u8>,
    write_sizes: &[usize],
    next_write: &mut usize,
)
    requires
        old(writer).delivered() == old(output)@,
    ensures
        final(writer).capacity() == old(writer).capacity(),
        final(writer).pending() == Seq::<u8>::empty(),
        final(writer).accepted() == old(writer).accepted(),
        final(writer).delivered() == final(output)@,
        final(output)@ == old(output)@ + old(writer).pending(),
{
    loop
        invariant
            writer.capacity() == old(writer).capacity(),
            writer.accepted() == old(writer).accepted(),
            writer.delivered() == output@,
            output@ + writer.pending() == old(output)@ + old(writer).pending(),
        ensures
            writer.capacity() == old(writer).capacity(),
            writer.accepted() == old(writer).accepted(),
            writer.delivered() == output@,
            writer.pending() == Seq::<u8>::empty(),
            output@ == old(output)@ + old(writer).pending(),
        decreases writer.pending().len(),
    {
        let pending = writer.pending_bytes();
        let left = pending.len();
        if left == 0 {
            assert(writer.pending() =~= Seq::<u8>::empty());
            assert(output@ =~= old(output)@ + old(writer).pending());
            break;
        }
        let requested = if *next_write < write_sizes.len() {
            write_sizes[*next_write]
        } else {
            left
        };
        if *next_write < write_sizes.len() {
            *next_write = *next_write + 1;
        }
        let n = clamp_size(requested, left);
        let mut i: usize = 0;
        let ghost before = output@;
        while i < n
            invariant
                n <= pending@.len(),
                i <= n,
                output@ == before + pending@.take(i as int),
            decreases n - i,
        {
            output.push(pending[i]);
            assert(pending@.take(i + 1) =~= pending@.take(i as int).push(pending@[i as int]));
            i = i + 1;
        }
        let ghost old_pending = writer.pending();
        let _ = writer.consume_written(n);
        assert(old_pending.take(n as int) + old_pending.skip(n as int) =~= old_pending);
        assert(output@ + writer.pending() =~= before + old_pending);
    }
}

proof fn lemma_rest_of_prefix(a: Seq<u8>, r: Seq<u8>, s: Seq<u8>, i: int, j: int)
    requires
        0 <= i <= j <= s.len(),
        a == s.take(i),
        a + r == s.take(j),
    ensures
        r == s.subrange(i, j),
{
    assert((a + r).len() == j);
    assert forall|k: int| 0 <= k < r.len() implies r[k] == s.subrange(i, j)[k] by {
        assert((a + r)[i + k] == r[k]);
        assert(s.take(j)[i + k] == s[i + k]);
    }
    assert(r =~= s.subrange(i, j));
}

proof fn lemma_exact_read_count(reads: int, capacity: int, len: int)
    requires
        reads >= 0,
        capacity > 0,
        len >= 0,
        reads * capacity >= len,
        reads == 0 || (reads - 1) * capacity < len,
    ensures
        reads == (len + capacity - 1) / capacity,
{
    let q = (len + capacity - 1) / capacity;
    vstd::arithmetic::div_mod::lemma_fundamental_div_mod(len + capacity - 1, capacity);
    vstd::arithmetic::div_mod::lemma_mod_bound(len + capacity - 1, capacity);
    let m = (len + capacity - 1) % capacity;
    assert(len + capacity - 1 == capacity * q + m);
    assert(0 <= m < capacity);
    if reads == 0 {
        assert(len == 0);
        assert(q * capacity <= capacity - 1) by (nonlinear_arith)
            requires
                len + capacity - 1 == capacity * q + m,
                0 <= m,
                len == 0,
        ;
        assert(q < 1) by (nonlinear_arith)
            requires
                q * capacity <= capacity - 1,
                capacity > 0,
        ;
        assert(q >= 0) by (nonlinear_arith)
            requires
                capacity * q + m == capacity - 1,
                m < capacity,
                capacity > 0,
        ;
    } else {
        assert(q <= reads) by (nonlinear_arith)
            requires
                len + capacity - 1 == capacity * q + m,
                0 <= m,
                reads * capacity >= len,
                capacity > 0,
        ;
        assert(reads <= q) by (nonlinear_arith)
            requires
                len + capacity - 1 == capacity * q + m,
                m < capacity,
                (reads - 1) * capacity < len,
                capacity > 0,
        ;
    }
}

proof fn lemma_full_read_count(reads: int, capacity: int, len: int)
    requires
        reads >= 1,
        capacity > 0,
        len >= 0,
        (reads - 1) * capacity < len,
    ensures
        reads - 1 <= len / capacity,
{
    assert((reads - 1) * capacity < len && capacity > 0 && reads - 1 >= 0 ==> reads - 1 <= len
        / capacity) by (nonlinear_arith);
}

/// Copies `input` byte by byte through a buffered reader and a buffered
/// writer, as a copy between files does. The k-th read of a block returns
/// `read_sizes[k]` bytes (all a block holds once the sizes run out), kept
/// between 1 and what the block holds or is left, and 0 only once nothing
/// is left; likewise each write of pending bytes writes `write_sizes[k]`
/// of them, kept between 1 and what is pending. Whatever the sizes, the
/// output is the input and every byte is counted: the copy loses, adds and
/// reorders nothing. Returns the output, the number of bytes copied and the
/// number of block reads: at most one more than the bytes copied, and,
/// when every read fills the block or returns all that is left, exactly one
/// more than the number of blocks the input fills (the last read returns
/// nothing and shows the input has ended).
pub fn copy_through_buffers(
    input: &[u8],
    capacity: usize,
    read_sizes: &[usize],
    write_sizes: &[usize],
) -> (res: (Vec<u8>, u64, usize))
    requires
        capacity > 0,
        input@.len() <= isize::MAX,
    ensures
        res.0@ == input@,
        res.1 == input@.len(),
        res.2 <= input@.len() + 1,
        (forall|k: int| 0 <= k < read_sizes@.len() ==> read_sizes@[k] >= capacity) ==> res.2
            == (input@.len() + capacity - 1) / (capacity as int) + 1,
{
    let mut reader = ReadBuffer::new(capacity);
    let mut writer = WriteBuffer::new(capacity);
    let mut output: Vec<u8> = Vec::new();
    let mut offset: usize = 0;
    let mut copied: u64 = 0;
    let mut reads: usize = 0;
    let mut next_write: usize = 0;
    let ghost len = input@.len() as int;
    let ghost full_reads = forall|k: int|
        0 <= k < read_sizes@.len() ==> read_sizes@[k] >= capacity;
    assert(input@.take(0) =~= Seq::<u8>::empty());
    loop
        invariant_except_break
            reads <= offset,
            full_reads ==> reads == 0 || (reads - 1) * capacity < len,
        invariant
            capacity > 0,
            reader.capacity() == capacity,
            writer.capacity() == capacity,
            !writer.spec_is_full(),
            len == input@.len(),
            len <= isize::MAX,
            full_reads == forall|k: int|
                0 <= k < read_sizes@.len() ==> read_sizes@[k] >= capacity,
            copied <= offset <= len,
            reader.handed_out() == input@.take(copied as int),
            reader.received() == input@.take(offset as int),
            writer.accepted() == input@.take(copied as int),
            writer.delivered() == output@,
            reads <= offset + 1,
            full_reads ==> offset == if reads * capacity <= len {
                reads * capacity
            } else {
                len
            },
        ensures
            writer.capacity() == capacity,
            copied == len,
            writer.accepted() == input@,
            writer.delivered() == output@,
            reads <= len + 1,
            full_reads ==> reads == (len + capacity - 1) / (capacity as int) + 1,
        decreases len - copied,
    {
        proof {
            use_type_invariant(&reader);
            ReadBuffer::lemma_reader_law(&reader, input@);
        }
        proof {
            lemma_rest_of_prefix(reader.handed_out(), reader.remaining(), input@, copied as int, offset as int);
        }
        if reader.needs_refill() {
            assert(copied == offset);
            let left = input.len() - offset;
            let n = if left == 0 {
                0
            } else {
                let most = if left < capacity {
                    left
                } else {
                    capacity
                };
                let requested = if reads < read_sizes.len() {
                    read_sizes[reads]
                } else {
                    capacity
                };
                clamp_size(requested, most)
            };
            proof {
                if full_reads {
                    assert(n == if left < capacity { left } else { capacity });
                    assert((reads + 1) * capacity == reads * capacity + capacity)
                        by (nonlinear_arith);
                    if reads > 0 {
                        lemma_full_read_count(reads as int, capacity as int, len);
                    }
                    if left > 0 {
                        lemma_full_read_count(reads + 1, capacity as int, len);
                    } else {
                        lemma_exact_read_count(reads as int, capacity as int, len);
                    }
                }
            }
            let chunk = &input[offset..offset + n];
            reader.refill(chunk);
            assert(input@.take(offset as int) + chunk@ =~= input@.take(offset + n));
            offset = offset + n;
            reads = reads + 1;
            assert(full_reads && n == 0 ==> reads == (len + capacity - 1) / (capacity as int) + 1);
        }
        proof {
            use_type_invariant(&reader);
            ReadBuffer::lemma_reader_law(&reader, input@);
        }
        proof {
            lemma_rest_of_prefix(reader.handed_out(), reader.remaining(), input@, copied as int, offset as int);
        }
        let next = reader.next_byte();
        match next {
            None => {
                assert(offset == len);
                break;
            },
            Some(b) => {
                let one: [u8; 1] = [b];
                let _ = writer.stage(one.as_slice(), 0);
                assert(one@.subrange(0, 1) =~= seq![b]);
                assert(input@.take(copied + 1) =~= input@.take(copied as int).push(b));
                if writer.is_full() {
                    write_out(&mut writer, &mut output, write_sizes, &mut next_write);
                }
                copied = copied + 1;
            },
        }
    }
    write_out(&mut writer, &mut output, write_sizes, &mut next_write);
    proof {
        use_type_invariant(&writer);
        WriteBuffer::lemma_writer_law(&writer);
    }
    assert(input@.take(len) =~= input@);
    assert(output@ =~= input@);
    (output, copied, reads)
}

} // verus!
