//! The bidirectional byte stream of a relay session: the bytes received from
//! the other end, waiting to be read by the local (HTTP) side, and the bytes
//! that the local side writes, waiting to be sent to the other end.

use vstd::prelude::*;
use bytes::BytesMut;
use std::task::Waker;

verus! {

/// How much data a relay pipe buffers in each direction before applying
/// backpressure. Large enough that the TLS and HTTP layers never stall on
/// small bursts, small enough that a slow peer is throttled quickly.
pub const PIPE_BUFFER: usize = 262144;

#[verifier::external_type_specification]
#[verifier::external_body]
pub struct ExBytesMut(bytes::BytesMut);

#[verifier::external_type_specification]
#[verifier::external_body]
pub struct ExWaker(std::task::Waker);

/// The bytes that a `BytesMut` holds, in order.
pub uninterp spec fn buffered(b: BytesMut) -> Seq<u8>;

/// `BytesMut::new`: a buffer that holds no byte.
#[verifier::external_body]
fn bytes_new() -> (b: BytesMut)
    ensures
        buffered(b) == Seq::<u8>::empty(),
{
    BytesMut::new()
}

/// `BytesMut::len`: the number of bytes that the buffer holds.
#[verifier::external_body]
fn bytes_len(b: &BytesMut) -> (n: usize)
    ensures
        n == buffered(*b).len(),
{
    b.len()
}

/// `BytesMut::extend_from_slice`: appends `s` to the buffer. It grows the
/// buffer's allocation, which can hold no more than `isize::MAX` bytes; the
/// allocation also holds bytes already split off the front and not yet
/// reclaimed, which this contract does not track, and allocation failure
/// aborts: neither is excluded here.
#[verifier::external_body]
fn bytes_extend(b: &mut BytesMut, s: &[u8])
    requires
        buffered(*old(b)).len() + s@.len() <= isize::MAX,
    ensures
        buffered(*final(b)) == buffered(*old(b)) + s@,
{
    b.extend_from_slice(s)
}

/// `BytesMut::split_to`: takes the first `n` bytes out of the buffer, handed
/// back as a vector; it panics where `n` exceeds the length.
#[verifier::external_body]
fn bytes_split_to(b: &mut BytesMut, n: usize) -> (head: Vec<u8>)
    requires
        n <= buffered(*old(b)).len(),
    ensures
        head@ == buffered(*old(b)).take(n as int),
        buffered(*final(b)) == buffered(*old(b)).skip(n as int),
{
    b.split_to(n).to_vec()
}

/// `Waker::wake`: wakes the task that the waker stands for. Nothing is
/// stated of it: its effect is on the scheduler.
#[verifier::external_body]
fn wake(w: Waker) {
    w.wake()
}

/// `Waker::clone`: a waker for the same task. Nothing is stated of the copy.
#[verifier::external_body]
fn clone_waker(w: &Waker) -> Waker {
    w.clone()
}

/// What a read of a pipe gives.
#[derive(Debug)]
pub enum ReadOutcome {
    /// These bytes, taken from the front of the buffer.
    Data(Vec<u8>),
    /// The writing side has closed and every byte has been read.
    Eof,
    /// Nothing yet: the reader's waker is registered.
    Pending,
}

/// What a write to a pipe gives.
#[derive(Debug, Clone, Copy, PartialEq, Eq, Structural)]
pub enum WriteOutcome {
    /// These bytes, taken from the front of the data offered, were appended.
    Written(usize),
    /// The buffer is full: the writer's waker is registered.
    Pending,
    /// The pipe is shut down for writing.
    Closed,
}

/// The number of bytes a read takes out of a buffer of `len` bytes into
/// room for `remaining`.
pub open spec fn read_count(len: nat, remaining: nat) -> nat {
    if remaining < len {
        remaining
    } else {
        len
    }
}

/// The number of bytes of `offered` that a buffer holding `len` bytes takes:
/// data of at most [`PIPE_BUFFER`] bytes is taken whole where it fits under
/// the limit and not at all where it does not; larger data, which never
/// fits whole, is taken in part, as much as fits.
pub open spec fn write_count(len: nat, offered: nat) -> nat {
    if offered <= PIPE_BUFFER {
        if len + offered <= PIPE_BUFFER {
            offered
        } else {
            0
        }
    } else if len < PIPE_BUFFER {
        (PIPE_BUFFER - len) as nat
    } else {
        0
    }
}

/// A read takes as many bytes as wait or as it has room for, whichever is
/// fewer; a write is taken whole where it fits, never beyond the limit, and
/// data larger than the limit fills the buffer up to it.
pub proof fn lemma_read_write_counts(len: nat, room: nat, offered: nat)
    ensures
        read_count(len, room) <= len && read_count(len, room) <= room,
        read_count(len, room) == len || read_count(len, room) == room,
        write_count(len, offered) <= offered,
        len <= PIPE_BUFFER ==> len + write_count(len, offered) <= PIPE_BUFFER,
        offered <= PIPE_BUFFER && len + offered <= PIPE_BUFFER ==> write_count(len, offered) == offered,
        offered <= PIPE_BUFFER && len + offered > PIPE_BUFFER ==> write_count(len, offered) == 0,
        offered > PIPE_BUFFER && len < PIPE_BUFFER ==> len + write_count(len, offered) == PIPE_BUFFER,
{
}

/// The bytes read so far from one direction of a pipe, followed by the bytes
/// still waiting in it, are exactly the bytes fed into it so far.
pub open spec fn stream_consistent(fed: Seq<u8>, read: Seq<u8>, pending: Seq<u8>) -> bool {
    read + pending == fed
}

/// Bytes go through a pipe in order, none lost or repeated, across any
/// interleaving of feeds and reads: a feed that is taken in part (the
/// `accepted` front of what was offered, as `push` and `poll_write` say) and a
/// read into room for `remaining` bytes (as `poll_read` and
/// `poll_read_outbound` say) both keep [`stream_consistent`]. What has been
/// read is always a prefix of what was fed; a read with bytes waiting and room
/// for one gives at least one; and once nothing waits, everything fed has
/// been read, so that after EOF reads give nothing more.
pub proof fn lemma_pipe_stream_order(
    fed: Seq<u8>,
    read: Seq<u8>,
    pending: Seq<u8>,
    accepted: Seq<u8>,
    remaining: nat,
)
    requires
        stream_consistent(fed, read, pending),
    ensures
        stream_consistent(fed + accepted, read, pending + accepted),
        ({
            let n = read_count(pending.len(), remaining);
            &&& stream_consistent(fed, read + pending.take(n as int), pending.skip(n as int))
            &&& pending.len() > 0 && remaining > 0 ==> n >= 1
        }),
        fed.take(read.len() as int) == read,
        pending.len() == 0 ==> read == fed,
{
    assert(read + (pending + accepted) =~= (read + pending) + accepted);
    let n = read_count(pending.len(), remaining);
    assert((read + pending.take(n as int)) + pending.skip(n as int) =~= read + pending);
    assert(fed.take(read.len() as int) =~= read);
    if pending.len() == 0 {
        assert(read + pending =~= read);
    }
}

/// One step on one direction of a pipe, as its feeder and its reader see it.
pub enum StreamStep {
    /// The feeder offers these bytes (`push`, or `poll_write`); it takes back
    /// what is not accepted, and may offer it again.
    Feed(Seq<u8>),
    /// The reader reads into room for this many bytes (`poll_read`, or
    /// `poll_read_outbound`).
    Read(nat),
}

/// The front of `offered` that a buffer holding `pending` accepts, as `push`
/// and `poll_write` state it.
pub open spec fn accepted(pending: Seq<u8>, offered: Seq<u8>) -> Seq<u8> {
    offered.take(write_count(pending.len(), offered.len()) as int)
}

/// One direction of a pipe after `steps` from a new pipe: the bytes accepted
/// from the feeder, the bytes handed to the reader, and the bytes waiting,
/// each step taking and giving what the contracts of the pipe's operations
/// say it does.
pub open spec fn run_stream(steps: Seq<StreamStep>) -> (Seq<u8>, Seq<u8>, Seq<u8>)
    decreases steps.len(),
{
    if steps.len() == 0 {
        (Seq::empty(), Seq::empty(), Seq::empty())
    } else {
        let (fed, read, pending) = run_stream(steps.drop_last());
        match steps.last() {
            StreamStep::Feed(bytes) => {
                let a = accepted(pending, bytes);
                (fed + a, read, pending + a)
            },
            StreamStep::Read(room) => {
                let n = read_count(pending.len(), room);
                (fed, read + pending.take(n as int), pending.skip(n as int))
            },
        }
    }
}

/// Over any interleaving of feeds and reads from a new pipe, bytes go
/// through in order, none lost or repeated: what has been read, followed by
/// what waits, is exactly what was accepted, so what has been read is always
/// a prefix of it; no more than [`PIPE_BUFFER`] bytes ever wait; and once
/// nothing waits, everything accepted has been read (the point after which
/// `poll_read` gives EOF on a closed pipe).
pub proof fn lemma_stream_in_order(steps: Seq<StreamStep>)
    ensures
        ({
            let (fed, read, pending) = run_stream(steps);
            &&& stream_consistent(fed, read, pending)
            &&& fed.take(read.len() as int) == read
            &&& pending.len() <= PIPE_BUFFER
            &&& pending.len() == 0 ==> read == fed
        }),
    decreases steps.len(),
{
    if steps.len() > 0 {
        lemma_stream_in_order(steps.drop_last());
        let (fed, read, pending) = run_stream(steps.drop_last());
        match steps.last() {
            StreamStep::Feed(bytes) => {
                lemma_pipe_stream_order(fed, read, pending, accepted(pending, bytes), 0);
                let (f2, r2, p2) = run_stream(steps);
                lemma_pipe_stream_order(f2, r2, p2, Seq::empty(), 0);
            },
            StreamStep::Read(room) => {
                lemma_pipe_stream_order(fed, read, pending, Seq::empty(), room);
                let (f2, r2, p2) = run_stream(steps);
                lemma_pipe_stream_order(f2, r2, p2, Seq::empty(), 0);
            },
        }
    } else {
        let (fed, read, pending) = run_stream(steps);
        lemma_pipe_stream_order(fed, read, pending, Seq::empty(), 0);
    }
}

/// Reads into room for the sizes in `rooms`, in turn.
pub open spec fn reads(rooms: Seq<nat>) -> Seq<StreamStep> {
    Seq::new(rooms.len(), |i: int| StreamStep::Read(rooms[i]))
}

/// Reads that each have room for a byte empty the pipe within as many reads
/// as bytes wait.
proof fn lemma_reads_drain(steps: Seq<StreamStep>, rooms: Seq<nat>)
    requires
        forall|i: int| 0 <= i < rooms.len() ==> #[trigger] rooms[i] > 0,
    ensures
        run_stream(steps + reads(rooms)).2.len() == 0 || run_stream(steps + reads(rooms)).2.len()
            + rooms.len() <= run_stream(steps).2.len(),
    decreases rooms.len(),
{
    if rooms.len() == 0 {
        assert(steps + reads(rooms) =~= steps);
    } else {
        let front = rooms.drop_last();
        lemma_reads_drain(steps, front);
        assert((steps + reads(rooms)).drop_last() =~= steps + reads(front));
        assert((steps + reads(rooms)).last() == StreamStep::Read(rooms.last()));
    }
}

/// A writer is throttled, never stalled: from any state reached from a new
/// pipe, once the reader has read as many times as bytes wait, each time
/// with room for a byte, the feeder's next offer of any non-empty data, of
/// any length, is accepted at least in part.
pub proof fn lemma_writer_never_stalls(steps: Seq<StreamStep>, rooms: Seq<nat>, bytes: Seq<u8>)
    requires
        forall|i: int| 0 <= i < rooms.len() ==> #[trigger] rooms[i] > 0,
        rooms.len() >= run_stream(steps).2.len(),
        bytes.len() > 0,
    ensures
        run_stream(steps + reads(rooms)).2.len() == 0,
        run_stream((steps + reads(rooms)).push(StreamStep::Feed(bytes))).0.len() > run_stream(
            steps + reads(rooms),
        ).0.len(),
{
    lemma_reads_drain(steps, rooms);
    let before = steps + reads(rooms);
    assert(before.push(StreamStep::Feed(bytes)).drop_last() =~= before);
}

/// The shared read logic: take bytes out of `buffer` (or report EOF). A read
/// that frees space wakes the writer held back by a full buffer.
pub fn read_one(
    buffer: &mut BytesMut,
    closed: bool,
    waker_slot: &mut Option<Waker>,
    writer_waker: &mut Option<Waker>,
    waker: &Waker,
    remaining: usize,
) -> (r: ReadOutcome)
    ensures
        buffered(*old(buffer)).len() > 0 ==> {
            let n = read_count(buffered(*old(buffer)).len(), remaining as nat);
            &&& r matches ReadOutcome::Data(v) && v@ == buffered(*old(buffer)).take(n as int)
            &&& buffered(*final(buffer)) == buffered(*old(buffer)).skip(n as int)
            &&& *final(waker_slot) == *old(waker_slot)
            &&& n > 0 ==> *final(writer_waker) is None
            &&& n == 0 ==> *final(writer_waker) == *old(writer_waker)
        },
        buffered(*old(buffer)).len() == 0 && closed ==> r is Eof && buffered(*final(buffer))
            == buffered(*old(buffer)) && *final(waker_slot) == *old(waker_slot)
            && *final(writer_waker) == *old(writer_waker),
        buffered(*old(buffer)).len() == 0 && !closed ==> r is Pending && buffered(*final(buffer))
            == buffered(*old(buffer)) && *final(waker_slot) is Some && *final(writer_waker)
            == *old(writer_waker),
{
    let len = bytes_len(buffer);
    if len > 0 {
        let n = if remaining < len {
            remaining
        } else {
            len
        };
        let taken = bytes_split_to(buffer, n);
        if n > 0 {
            wake_readers(writer_waker);
        }
        ReadOutcome::Data(taken)
    } else if closed {
        ReadOutcome::Eof
    } else {
        *waker_slot = Some(clone_waker(waker));
        ReadOutcome::Pending
    }
}

/// The shared write logic: append `buf` to the buffer whole where it fits
/// under [`PIPE_BUFFER`] (data larger than the limit as much of it as fits),
/// and wake the reader; where it does not fit, register the writer to be
/// woken when a read frees space. Empty data is taken at once and still
/// wakes the reader.
pub fn write_one(
    buffer: &mut BytesMut,
    closed: bool,
    reader_waker: &mut Option<Waker>,
    writer_waker: &mut Option<Waker>,
    waker: &Waker,
    buf: &[u8],
) -> (r: WriteOutcome)
    ensures
        closed ==> r == WriteOutcome::Closed && buffered(*final(buffer)) == buffered(*old(buffer))
            && *final(reader_waker) == *old(reader_waker) && *final(writer_waker) == *old(writer_waker),
        !closed && buf@.len() == 0 ==> r == WriteOutcome::Written(0) && buffered(*final(buffer))
            == buffered(*old(buffer)) && *final(reader_waker) is None
            && *final(writer_waker) == *old(writer_waker),
        !closed && buf@.len() > 0 && write_count(buffered(*old(buffer)).len(), buf@.len()) == 0
            ==> r == WriteOutcome::Pending && buffered(*final(buffer)) == buffered(*old(buffer))
            && *final(reader_waker) == *old(reader_waker) && *final(writer_waker) is Some,
        !closed && buf@.len() > 0 && write_count(buffered(*old(buffer)).len(), buf@.len()) > 0
            ==> {
            let n = write_count(buffered(*old(buffer)).len(), buf@.len());
            &&& n <= buf@.len()
            &&& r == WriteOutcome::Written(n as usize)
            &&& buffered(*final(buffer)) == buffered(*old(buffer)) + buf@.take(n as int)
            &&& *final(reader_waker) is None
            &&& *final(writer_waker) == *old(writer_waker)
        },
        buffered(*old(buffer)).len() <= PIPE_BUFFER ==> buffered(*final(buffer)).len() <= PIPE_BUFFER,
{
    if closed {
        return WriteOutcome::Closed;
    }
    if buf.len() == 0 {
        wake_readers(reader_waker);
        return WriteOutcome::Written(0);
    }
    let len = bytes_len(buffer);
    let n = if buf.len() <= PIPE_BUFFER {
        if len <= PIPE_BUFFER - buf.len() {
            buf.len()
        } else {
            0
        }
    } else if len < PIPE_BUFFER {
        PIPE_BUFFER - len
    } else {
        0
    };
    if n == 0 {
        *writer_waker = Some(clone_waker(waker));
        return WriteOutcome::Pending;
    }
    let (head, _) = buf.split_at(n);
    bytes_extend(buffer, head);
    wake_readers(reader_waker);
    WriteOutcome::Written(n)
}

/// Wakes a reader that is waiting for more data (the reader half).
pub fn wake_readers(reader_waker: &mut Option<Waker>)
    ensures
        *final(reader_waker) is None,
{
    if let Some(w) = reader_waker.take() {
        wake(w);
    }
}

/// Re-registers the current task as a backpressured writer if the buffer is
/// full.
pub fn wake_backpressure(buffer: &BytesMut, writer_waker: &mut Option<Waker>, waker: &Waker)
    ensures
        buffered(*buffer).len() >= PIPE_BUFFER ==> *final(writer_waker) is Some,
        buffered(*buffer).len() < PIPE_BUFFER ==> *final(writer_waker) == *old(writer_waker),
{
    if bytes_len(buffer) >= PIPE_BUFFER {
        *writer_waker = Some(clone_waker(waker));
    }
}

/// The state shared by the ends of a relay session's pipe.
pub struct PipeShared {
    /// Bytes received from the other end, pending to be read by the HTTP side.
    inbound: BytesMut,
    inbound_closed: bool,
    inbound_waker: Option<Waker>,
    inbound_writer_waker: Option<Waker>,
    /// Bytes written by the HTTP side, pending to be sent to the other end.
    outbound: BytesMut,
    outbound_closed: bool,
    outbound_reader_waker: Option<Waker>,
    outbound_writer_waker: Option<Waker>,
}

impl PipeShared {
    /// The bytes received from the other end, not read yet.
    pub closed spec fn inbound(&self) -> Seq<u8> {
        buffered(self.inbound)
    }

    /// Whether the other end has signalled EOF.
    pub closed spec fn inbound_closed(&self) -> bool {
        self.inbound_closed
    }

    /// Whether a reader of the inbound bytes waits to be woken.
    pub closed spec fn inbound_waiting(&self) -> bool {
        self.inbound_waker is Some
    }

    /// Whether the feeder of the inbound bytes, held back by a full buffer,
    /// waits to be woken.
    pub closed spec fn inbound_writer_waiting(&self) -> bool {
        self.inbound_writer_waker is Some
    }

    /// The bytes written by the local side, not sent yet.
    pub closed spec fn outbound(&self) -> Seq<u8> {
        buffered(self.outbound)
    }

    /// Whether the local side has shut down writing.
    pub closed spec fn outbound_closed(&self) -> bool {
        self.outbound_closed
    }

    /// Whether the sender of the outbound bytes waits to be woken.
    pub closed spec fn outbound_reader_waiting(&self) -> bool {
        self.outbound_reader_waker is Some
    }

    /// Whether a writer held back by a full buffer waits to be woken.
    pub closed spec fn outbound_writer_waiting(&self) -> bool {
        self.outbound_writer_waker is Some
    }

    /// The inbound side of `a` and `b` is the same.
    pub open spec fn same_inbound(a: PipeShared, b: PipeShared) -> bool {
        &&& a.inbound() == b.inbound()
        &&& a.inbound_closed() == b.inbound_closed()
        &&& a.inbound_waiting() == b.inbound_waiting()
        &&& a.inbound_writer_waiting() == b.inbound_writer_waiting()
    }

    /// The outbound side of `a` and `b` is the same.
    pub open spec fn same_outbound(a: PipeShared, b: PipeShared) -> bool {
        &&& a.outbound() == b.outbound()
        &&& a.outbound_closed() == b.outbound_closed()
        &&& a.outbound_reader_waiting() == b.outbound_reader_waiting()
        &&& a.outbound_writer_waiting() == b.outbound_writer_waiting()
    }

    /// Neither direction buffers more than [`PIPE_BUFFER`] bytes: true of a
    /// new pipe, and kept by every operation on it.
    pub open spec fn within_bounds(&self) -> bool {
        self.inbound().len() <= PIPE_BUFFER && self.outbound().len() <= PIPE_BUFFER
    }

    /// A pipe with nothing in it, open in both directions, with no waiting
    /// task.
    pub fn new() -> (r: Self)
        ensures
            r.inbound() == Seq::<u8>::empty(),
            r.outbound() == Seq::<u8>::empty(),
            !r.inbound_closed(),
            !r.outbound_closed(),
            !r.inbound_waiting(),
            !r.inbound_writer_waiting(),
            !r.outbound_reader_waiting(),
            !r.outbound_writer_waiting(),
            r.within_bounds(),
    {
        PipeShared {
            inbound: bytes_new(),
            inbound_closed: false,
            inbound_waker: None,
            inbound_writer_waker: None,
            outbound: bytes_new(),
            outbound_closed: false,
            outbound_reader_waker: None,
            outbound_writer_waker: None,
        }
    }

    /// Feeds bytes received from the other end into the pipe, waking the
    /// reader: whole where they fit under [`PIPE_BUFFER`] (more than the limit
    /// in part, as much as fits); where they do not fit, none are taken and
    /// the feeder's waker is registered, to be woken when a read frees
    /// space. Bytes fed after EOF was signalled are still read before it.
    pub fn push(&mut self, waker: &Waker, bytes: &[u8]) -> (r: WriteOutcome)
        ensures
            old(self).within_bounds() ==> final(self).within_bounds(),
            PipeShared::same_outbound(*final(self), *old(self)),
            final(self).inbound_closed() == old(self).inbound_closed(),
            old(self).inbound().len() <= PIPE_BUFFER ==> final(self).inbound().len() <= PIPE_BUFFER,
            bytes@.len() == 0 ==> r == WriteOutcome::Written(0) && final(self).inbound()
                == old(self).inbound() && !final(self).inbound_waiting()
                && final(self).inbound_writer_waiting() == old(self).inbound_writer_waiting(),
            bytes@.len() > 0 && write_count(old(self).inbound().len(), bytes@.len()) == 0 ==> r
                == WriteOutcome::Pending && final(self).inbound() == old(self).inbound()
                && final(self).inbound_waiting() == old(self).inbound_waiting()
                && final(self).inbound_writer_waiting(),
            bytes@.len() > 0 && write_count(old(self).inbound().len(), bytes@.len()) > 0 ==> {
                let n = write_count(old(self).inbound().len(), bytes@.len());
                &&& r == WriteOutcome::Written(n as usize)
                &&& final(self).inbound() == old(self).inbound() + bytes@.take(n as int)
                &&& !final(self).inbound_waiting()
                &&& final(self).inbound_writer_waiting() == old(self).inbound_writer_waiting()
            },
    {
        write_one(
            &mut self.inbound,
            false,
            &mut self.inbound_waker,
            &mut self.inbound_writer_waker,
            waker,
            bytes,
        )
    }

    /// Wakes the feeder of the inbound bytes, if it waits (for one, because
    /// the reading side is gone).
    pub fn wake_inbound_writer(&mut self)
        ensures
            old(self).within_bounds() ==> final(self).within_bounds(),
            PipeShared::same_outbound(*final(self), *old(self)),
            final(self).inbound() == old(self).inbound(),
            final(self).inbound_closed() == old(self).inbound_closed(),
            final(self).inbound_waiting() == old(self).inbound_waiting(),
            !final(self).inbound_writer_waiting(),
    {
        wake_readers(&mut self.inbound_writer_waker);
    }

    /// Signals EOF to the HTTP side, so a blocked read returns.
    pub fn close(&mut self)
        ensures
            old(self).within_bounds() ==> final(self).within_bounds(),
            PipeShared::same_outbound(*final(self), *old(self)),
            final(self).inbound() == old(self).inbound(),
            final(self).inbound_closed(),
            !final(self).inbound_waiting(),
            final(self).inbound_writer_waiting() == old(self).inbound_writer_waiting(),
    {
        self.inbound_closed = true;
        wake_readers(&mut self.inbound_waker);
    }

    /// A read by the HTTP side, into room for `remaining` bytes.
    pub fn poll_read(&mut self, waker: &Waker, remaining: usize) -> (r: ReadOutcome)
        ensures
            old(self).within_bounds() ==> final(self).within_bounds(),
            PipeShared::same_outbound(*final(self), *old(self)),
            final(self).inbound_closed() == old(self).inbound_closed(),
            old(self).inbound().len() > 0 ==> {
                let n = read_count(old(self).inbound().len(), remaining as nat);
                &&& r matches ReadOutcome::Data(v) && v@ == old(self).inbound().take(n as int)
                &&& final(self).inbound() == old(self).inbound().skip(n as int)
                &&& final(self).inbound_waiting() == old(self).inbound_waiting()
                &&& n > 0 ==> !final(self).inbound_writer_waiting()
                &&& n == 0 ==> final(self).inbound_writer_waiting()
                    == old(self).inbound_writer_waiting()
            },
            old(self).inbound().len() == 0 && old(self).inbound_closed() ==> r is Eof
                && PipeShared::same_inbound(*final(self), *old(self)),
            old(self).inbound().len() == 0 && !old(self).inbound_closed() ==> r is Pending
                && final(self).inbound() == old(self).inbound() && final(self).inbound_waiting()
                && final(self).inbound_writer_waiting() == old(self).inbound_writer_waiting(),
    {
        read_one(
            &mut self.inbound,
            self.inbound_closed,
            &mut self.inbound_waker,
            &mut self.inbound_writer_waker,
            waker,
            remaining,
        )
    }

    /// A write by the HTTP side: all of `buf` where it fits under
    /// [`PIPE_BUFFER`] (more than the limit in part, as much as fits), or
    /// none, with the writer registered, where it does not fit.
    pub fn poll_write(&mut self, waker: &Waker, buf: &[u8]) -> (r: WriteOutcome)
        ensures
            old(self).within_bounds() ==> final(self).within_bounds(),
            PipeShared::same_inbound(*final(self), *old(self)),
            final(self).outbound_closed() == old(self).outbound_closed(),
            old(self).outbound().len() <= PIPE_BUFFER ==> final(self).outbound().len() <= PIPE_BUFFER,
            old(self).outbound_closed() ==> r == WriteOutcome::Closed && PipeShared::same_outbound(
                *final(self),
                *old(self),
            ),
            !old(self).outbound_closed() && buf@.len() == 0 ==> r == WriteOutcome::Written(0)
                && final(self).outbound() == old(self).outbound()
                && !final(self).outbound_reader_waiting()
                && final(self).outbound_writer_waiting() == old(self).outbound_writer_waiting(),
            !old(self).outbound_closed() && buf@.len() > 0 && write_count(
                old(self).outbound().len(),
                buf@.len(),
            ) == 0 ==> r == WriteOutcome::Pending && final(self).outbound() == old(self).outbound()
                && final(self).outbound_reader_waiting() == old(self).outbound_reader_waiting()
                && final(self).outbound_writer_waiting(),
            !old(self).outbound_closed() && buf@.len() > 0 && write_count(
                old(self).outbound().len(),
                buf@.len(),
            ) > 0 ==> {
                let n = write_count(old(self).outbound().len(), buf@.len());
                &&& r == WriteOutcome::Written(n as usize)
                &&& final(self).outbound() == old(self).outbound() + buf@.take(n as int)
                &&& !final(self).outbound_reader_waiting()
                &&& final(self).outbound_writer_waiting() == old(self).outbound_writer_waiting()
            },
    {
        write_one(
            &mut self.outbound,
            self.outbound_closed,
            &mut self.outbound_reader_waker,
            &mut self.outbound_writer_waker,
            waker,
            buf,
        )
    }

    /// A flush by the HTTP side: nothing is buffered below the pipe; a writer
    /// that finds the buffer full registers to be woken.
    pub fn poll_flush(&mut self, waker: &Waker)
        ensures
            old(self).within_bounds() ==> final(self).within_bounds(),
            PipeShared::same_inbound(*final(self), *old(self)),
            final(self).outbound() == old(self).outbound(),
            final(self).outbound_closed() == old(self).outbound_closed(),
            final(self).outbound_reader_waiting() == old(self).outbound_reader_waiting(),
            old(self).outbound().len() >= PIPE_BUFFER ==> final(self).outbound_writer_waiting(),
            old(self).outbound().len() < PIPE_BUFFER ==> final(self).outbound_writer_waiting()
                == old(self).outbound_writer_waiting(),
    {
        wake_backpressure(&self.outbound, &mut self.outbound_writer_waker, waker);
    }

    /// A shutdown by the HTTP side: no more writes; the sender is woken to
    /// see the end of the data.
    pub fn poll_shutdown(&mut self, waker: &Waker)
        ensures
            old(self).within_bounds() ==> final(self).within_bounds(),
            PipeShared::same_inbound(*final(self), *old(self)),
            final(self).outbound() == old(self).outbound(),
            final(self).outbound_closed(),
            !final(self).outbound_reader_waiting(),
            old(self).outbound().len() >= PIPE_BUFFER ==> final(self).outbound_writer_waiting(),
            old(self).outbound().len() < PIPE_BUFFER ==> final(self).outbound_writer_waiting()
                == old(self).outbound_writer_waiting(),
    {
        self.outbound_closed = true;
        wake_readers(&mut self.outbound_reader_waker);
        wake_backpressure(&self.outbound, &mut self.outbound_writer_waker, waker);
    }

    /// A read by the sender of the outbound bytes, into room for `remaining`
    /// bytes; a read that frees space wakes the writer held back by a full
    /// buffer.
    pub fn poll_read_outbound(&mut self, waker: &Waker, remaining: usize) -> (r: ReadOutcome)
        ensures
            old(self).within_bounds() ==> final(self).within_bounds(),
            PipeShared::same_inbound(*final(self), *old(self)),
            final(self).outbound_closed() == old(self).outbound_closed(),
            old(self).outbound().len() > 0 ==> {
                let n = read_count(old(self).outbound().len(), remaining as nat);
                &&& r matches ReadOutcome::Data(v) && v@ == old(self).outbound().take(n as int)
                &&& final(self).outbound() == old(self).outbound().skip(n as int)
                &&& final(self).outbound_reader_waiting() == old(self).outbound_reader_waiting()
                &&& n > 0 ==> !final(self).outbound_writer_waiting()
                &&& n == 0 ==> final(self).outbound_writer_waiting()
                    == old(self).outbound_writer_waiting()
            },
            old(self).outbound().len() == 0 && old(self).outbound_closed() ==> r is Eof
                && PipeShared::same_outbound(*final(self), *old(self)),
            old(self).outbound().len() == 0 && !old(self).outbound_closed() ==> r is Pending
                && final(self).outbound() == old(self).outbound() && final(self).outbound_reader_waiting() && final(self).outbound_writer_waiting() == old(self).outbound_writer_waiting(),
    {
        read_one(
            &mut self.outbound,
            self.outbound_closed,
            &mut self.outbound_reader_waker,
            &mut self.outbound_writer_waker,
            waker,
            remaining,
        )
    }
}

} // verus!
