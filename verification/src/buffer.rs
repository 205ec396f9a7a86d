//! Buffered connection input and output.

use bytes::{Buf, BytesMut};
use vstd::prelude::*;

use crate::error::{failure, Cause, Error, ErrorKind, ErrorView};
use crate::text::{copy_bytes, push_bytes, text_eq};

verus! {

/// The growable byte buffer that holds received bytes.
#[verifier::external_type_specification]
#[verifier::external_body]
pub struct ExBytesMut(BytesMut);

/// The bytes that a buffer holds.
pub uninterp spec fn buffer_bytes(buffer: BytesMut) -> Seq<u8>;

/// The number of bytes, counted from the first that it holds, for which a buffer was asked to have
/// room. What the allocator gave may be more.
pub uninterp spec fn buffer_asked(buffer: BytesMut) -> nat;

/// The larger of two numbers.
pub open spec fn most(a: nat, b: nat) -> nat {
    if a >= b {
        a
    } else {
        b
    }
}

/// What is left of a number after `count` was taken from it.
pub open spec fn less(n: nat, count: nat) -> nat {
    if n >= count {
        (n - count) as nat
    } else {
        0
    }
}

/// The number of bytes that a buffer is asked to hold at most; growing beyond it could exceed the
/// address space.
pub open spec fn buffer_limit() -> int {
    isize::MAX as int / 4
}

/// `BytesMut::with_capacity`: the new buffer is empty, and was asked for that capacity.
#[verifier::external_body]
fn buffer_with_capacity(capacity: usize) -> (r: BytesMut)
    requires
        capacity <= buffer_limit(),
    ensures
        buffer_bytes(r) == Seq::<u8>::empty(),
        buffer_asked(r) == capacity,
{
    BytesMut::with_capacity(capacity)
}

/// `BytesMut::extend_from_slice`: the bytes are appended, in order. Room for them is asked for,
/// and room that there was stays.
#[verifier::external_body]
fn buffer_extend(buffer: &mut BytesMut, bytes: &[u8])
    requires
        buffer_bytes(*old(buffer)).len() + bytes@.len() <= buffer_limit(),
    ensures
        buffer_bytes(*final(buffer)) == buffer_bytes(*old(buffer)) + bytes@,
        buffer_asked(*final(buffer)) == most(
            buffer_asked(*old(buffer)),
            buffer_bytes(*old(buffer)).len() + bytes@.len(),
        ),
{
    buffer.extend_from_slice(bytes)
}

/// `Buf::advance` on a `BytesMut`: the first `count` bytes are dropped, and their room with them.
#[verifier::external_body]
fn buffer_advance(buffer: &mut BytesMut, count: usize)
    requires
        count <= buffer_bytes(*old(buffer)).len(),
    ensures
        buffer_bytes(*final(buffer)) == buffer_bytes(*old(buffer)).skip(count as int),
        buffer_asked(*final(buffer)) == less(buffer_asked(*old(buffer)), count as nat),
{
    buffer.advance(count)
}

/// `BytesMut` as a slice (`AsRef<[u8]>`): exactly the bytes that the buffer holds.
#[verifier::external_body]
fn buffer_slice(buffer: &BytesMut) -> (r: &[u8])
    ensures
        r@ == buffer_bytes(*buffer),
{
    buffer.as_ref()
}

/// `BytesMut::reserve`: the contents stay as they are. Room for `additional` bytes behind them is
/// asked for, and room that there was stays. How much the allocator adds beyond the request is
/// left open.
#[verifier::external_body]
fn buffer_reserve(buffer: &mut BytesMut, additional: usize)
    requires
        buffer_bytes(*old(buffer)).len() + additional <= buffer_limit(),
    ensures
        buffer_bytes(*final(buffer)) == buffer_bytes(*old(buffer)),
        buffer_asked(*final(buffer)) == most(
            buffer_asked(*old(buffer)),
            buffer_bytes(*old(buffer)).len() + additional as nat,
        ),
{
    buffer.reserve(additional)
}

/// `BytesMut::capacity`: never less than the number of bytes held, nor than the room that was asked
/// for. The rest depends on the allocator.
#[verifier::external_body]
fn buffer_capacity(buffer: &BytesMut) -> (r: usize)
    ensures
        r >= buffer_bytes(*buffer).len(),
        r >= buffer_asked(*buffer),
{
    buffer.capacity()
}

pub const INIT_BUFFER_SIZE: usize = 4096;

/// The least number of bytes that a read of the transport is offered.
pub const MIN_READ_ROOM: usize = 32;

/// The bytes that one read may deliver into a buffer of the given capacity, where there is room for
/// more than a few of them behind those held.
pub fn room_in(capacity: usize, held: usize) -> (r: Option<usize>)
    requires
        held <= capacity,
    ensures
        r == (if capacity - held >= MIN_READ_ROOM {
            Some((capacity - held) as usize)
        } else {
            None
        }),
{
    let room: usize = capacity - held;
    if room < MIN_READ_ROOM {
        None
    } else {
        Some(room)
    }
}

/// Buffered input and output of one connection.
///
/// Received bytes are handed over with [`BufferIo::bump_read`]. Bytes that have to go out are
/// collected as a list of writes, in the order in which the transport has to perform them.
#[derive(Debug)]
pub struct BufferIo {
    reader_buf: BytesMut,
    closed: bool,
    writer_buf: Vec<u8>,
    writer_capacity: usize,
    writes: Vec<Vec<u8>>,
}

/// The contents of a [`BufferIo`].
#[verifier::ext_equal]
pub struct BufferView {
    /// Received bytes that were not consumed yet.
    pub input: Seq<u8>,
    /// The transport has reported the end of its input.
    pub closed: bool,
    /// Output that waits in the buffer.
    pub buffered: Seq<u8>,
    /// The number of bytes that the output buffer holds.
    pub capacity: nat,
    /// Writes that were handed to the transport.
    pub writes: Seq<Seq<u8>>,
}

/// The writes after one more write of `bytes`; an empty write never happens.
pub open spec fn with_write(writes: Seq<Seq<u8>>, bytes: Seq<u8>) -> Seq<Seq<u8>> {
    if bytes.len() == 0 {
        writes
    } else {
        writes.push(bytes)
    }
}

/// All bytes of a list of writes.
pub open spec fn all_written(writes: Seq<Seq<u8>>) -> Seq<u8>
    decreases writes.len(),
{
    if writes.len() == 0 {
        Seq::empty()
    } else {
        all_written(writes.drop_last()) + writes.last()
    }
}

impl BufferView {
    /// Everything written so far: what went to the transport and what waits in the buffer.
    pub open spec fn output(self) -> Seq<u8> {
        all_written(self.writes) + self.buffered
    }

    /// The state after a flush.
    pub open spec fn flushed(self) -> BufferView {
        BufferView {
            buffered: Seq::empty(),
            writes: with_write(self.writes, self.buffered),
            ..self
        }
    }

    /// The number of bytes that one write call accepts.
    pub open spec fn accepts(self, bytes: Seq<u8>) -> nat {
        let room = if self.capacity == self.buffered.len() {
            self.capacity
        } else {
            (self.capacity - self.buffered.len()) as nat
        };
        if bytes.len() >= self.capacity || bytes.len() <= room {
            bytes.len()
        } else {
            room
        }
    }

    /// The state after one write call: a write that would fill the buffer goes past it, behind
    /// what is buffered; a full buffer is flushed first; anything else is buffered as far as it
    /// fits.
    pub open spec fn written(self, bytes: Seq<u8>) -> BufferView {
        if bytes.len() >= self.capacity {
            let flushed = self.flushed();
            BufferView { writes: with_write(flushed.writes, bytes), ..flushed }
        } else {
            let ready = if self.capacity == self.buffered.len() {
                self.flushed()
            } else {
                self
            };
            BufferView {
                buffered: ready.buffered + bytes.take(self.accepts(bytes) as int),
                ..ready
            }
        }
    }

    /// The state after write calls that go on until all bytes are accepted.
    pub open spec fn written_all(self, bytes: Seq<u8>) -> BufferView
        decreases bytes.len(),
    {
        let n = self.accepts(bytes);
        if bytes.len() == 0 || n == 0 {
            self
        } else {
            self.written(bytes).written_all(bytes.skip(n as int))
        }
    }
}

/// A write appends the accepted bytes to the output, whichever way they take.
pub proof fn lemma_write_appends(state: BufferView, bytes: Seq<u8>)
    requires
        state.buffered.len() <= state.capacity,
    ensures
        state.written(bytes).output() == state.output() + bytes.take(state.accepts(bytes) as int),
        state.written(bytes).buffered.len() <= state.capacity,
        state.written(bytes).input == state.input,
        state.written(bytes).closed == state.closed,
        state.written(bytes).capacity == state.capacity,
        state.accepts(bytes) <= bytes.len(),
        bytes.len() > 0 ==> state.accepts(bytes) > 0,
{
    lemma_flush_keeps_output(state);
    let flushed = state.flushed();
    assert(bytes.take(bytes.len() as int) =~= bytes);
    if bytes.len() >= state.capacity {
        let writes = state.written(bytes).writes;
        if bytes.len() > 0 {
            assert(writes.drop_last() =~= flushed.writes);
        }
        assert(state.written(bytes).output() =~= state.output() + bytes);
    } else {
        assert(state.written(bytes).output() =~= state.output() + bytes.take(
            state.accepts(bytes) as int,
        ));
    }
}

/// A flush moves bytes to the transport and changes nothing of the output as a whole.
pub proof fn lemma_flush_keeps_output(state: BufferView)
    ensures
        state.flushed().output() == state.output(),
        state.flushed().buffered.len() == 0,
{
    if state.buffered.len() > 0 {
        assert(state.flushed().writes.drop_last() =~= state.writes);
    }
    assert(state.flushed().output() =~= state.output());
}

/// The report that no received byte is left although more may come.
pub open spec fn starved() -> ErrorView {
    failure(ErrorKind::WouldBlock, "no received bytes are buffered"@)
}

/// The report that no received byte is left although more may come.
pub fn starved_error() -> (r: Error)
    ensures
        r@ == starved(),
{
    Error::new(ErrorKind::WouldBlock, "no received bytes are buffered")
}

/// Whether a failure is the report that no received byte is left although more may come.
pub fn is_starved(error: &Error) -> (r: bool)
    ensures
        r == (error@ == starved()),
{
    error.kind() == ErrorKind::WouldBlock && error.cause() == Cause::Operation && text_eq(
        error.message(),
        "no received bytes are buffered",
    )
}

impl View for BufferIo {
    type V = BufferView;

    closed spec fn view(&self) -> BufferView {
        BufferView {
            input: buffer_bytes(self.reader_buf),
            closed: self.closed,
            buffered: self.writer_buf@,
            capacity: self.writer_capacity as nat,
            writes: self.writes@.map_values(|w: Vec<u8>| w@),
        }
    }
}

impl BufferIo {
    /// The output buffer never holds more than its capacity.
    pub open spec fn wf(&self) -> bool {
        self@.buffered.len() <= self@.capacity
    }

    /// The number of bytes, counted from the first unread one, for which the input has room at
    /// least.
    pub closed spec fn asked(&self) -> nat {
        buffer_asked(self.reader_buf)
    }

    pub fn new() -> (r: BufferIo)
        ensures
            r.wf(),
            r.asked() == INIT_BUFFER_SIZE,
            r@ == (BufferView {
                input: Seq::empty(),
                closed: false,
                buffered: Seq::empty(),
                capacity: INIT_BUFFER_SIZE as nat,
                writes: Seq::empty(),
            }),
    {
        BufferIo::with_capacity(INIT_BUFFER_SIZE)
    }

    pub fn with_capacity(cap: usize) -> (r: BufferIo)
        requires
            cap <= buffer_limit(),
        ensures
            r.wf(),
            r.asked() == cap,
            r@ == (BufferView {
                input: Seq::empty(),
                closed: false,
                buffered: Seq::empty(),
                capacity: cap as nat,
                writes: Seq::empty(),
            }),
    {
        let r = BufferIo {
            reader_buf: buffer_with_capacity(cap),
            closed: false,
            writer_buf: Vec::new(),
            writer_capacity: cap,
            writes: Vec::new(),
        };
        proof {
            assert(r@.writes =~= Seq::<Seq<u8>>::empty());
        }
        r
    }

    /// Make room for the next read and say how many bytes the transport may deliver at once: all
    /// that there is room for. More is asked for where there is room for a few bytes only. How
    /// much room there is beyond what was asked for is up to the allocator.
    pub fn read_room(&mut self) -> (r: usize)
        requires
            old(self)@.input.len() + INIT_BUFFER_SIZE <= buffer_limit(),
        ensures
            final(self)@ == old(self)@,
            r >= MIN_READ_ROOM,
            old(self)@.input.len() + r >= final(self).asked(),
            final(self).asked() >= old(self).asked(),
            final(self).asked() == old(self).asked() || final(self).asked()
                == old(self)@.input.len() + INIT_BUFFER_SIZE,
            r < INIT_BUFFER_SIZE ==> final(self).asked() == old(self).asked(),
    {
        let held: usize = buffer_slice(&self.reader_buf).len();
        match room_in(buffer_capacity(&self.reader_buf), held) {
            Some(room) => room,
            None => {
                buffer_reserve(&mut self.reader_buf, INIT_BUFFER_SIZE);
                buffer_capacity(&self.reader_buf) - held
            },
        }
    }

    /// Take what one read of the transport delivered; nothing means that its input has ended.
    pub fn bump_read(&mut self, delivered: &[u8]) -> (r: usize)
        requires
            old(self)@.input.len() + delivered@.len() <= buffer_limit(),
        ensures
            r == delivered@.len(),
            final(self)@ == (BufferView {
                input: old(self)@.input + delivered@,
                closed: old(self)@.closed || delivered@.len() == 0,
                ..old(self)@
            }),
            final(self).asked() == most(
                old(self).asked(),
                old(self)@.input.len() + delivered@.len(),
            ),
    {
        if delivered.len() == 0 {
            self.closed = true;
        }
        buffer_extend(&mut self.reader_buf, delivered);
        delivered.len()
    }

    /// The received bytes that were not consumed yet.
    pub fn get_reader_buf(&self) -> (r: &[u8])
        ensures
            r@ == self@.input,
    {
        buffer_slice(&self.reader_buf)
    }

    /// Whether the transport has reported the end of its input.
    pub fn is_closed(&self) -> (r: bool)
        ensures
            r == self@.closed,
    {
        self.closed
    }

    /// Drop the first `amt` received bytes.
    pub fn consume(&mut self, amt: usize)
        requires
            amt <= old(self)@.input.len(),
        ensures
            final(self)@ == (BufferView { input: old(self)@.input.skip(amt as int), ..old(self)@ }),
            final(self).asked() == less(old(self).asked(), amt as nat),
    {
        buffer_advance(&mut self.reader_buf, amt);
    }

    /// Take up to `max` received bytes. Nothing is returned at the end of the input; while more
    /// input may come, an empty buffer is reported as [`ErrorKind::WouldBlock`].
    pub fn read(&mut self, max: usize) -> (r: Result<Vec<u8>, Error>)
        ensures
            match r {
                Ok(bytes) => {
                    let n = if max <= old(self)@.input.len() {
                        max as int
                    } else {
                        old(self)@.input.len() as int
                    };
                    &&& old(self)@.input.len() > 0 || old(self)@.closed
                    &&& bytes@ == old(self)@.input.take(n)
                    &&& final(self)@ == (BufferView {
                        input: old(self)@.input.skip(n),
                        ..old(self)@
                    })
                    &&& final(self).asked() == less(old(self).asked(), n as nat)
                },
                Err(e) => old(self)@.input.len() == 0 && !old(self)@.closed && e@ == starved()
                    && *final(self) == *old(self),
            },
    {
        let held = buffer_slice(&self.reader_buf);
        if held.len() == 0 && !self.closed {
            return Err(starved_error());
        }
        let n: usize = if max <= held.len() {
            max
        } else {
            held.len()
        };
        let bytes = copy_bytes(vstd::slice::slice_subrange(held, 0, n));
        proof {
            assert(bytes@ =~= self@.input.take(n as int));
        }
        buffer_advance(&mut self.reader_buf, n);
        Ok(bytes)
    }

    fn push_write(&mut self, bytes: Vec<u8>)
        ensures
            final(self)@ == (BufferView {
                writes: with_write(old(self)@.writes, bytes@),
                ..old(self)@
            }),
            final(self).asked() == old(self).asked(),
    {
        if bytes.len() > 0 {
            self.writes.push(bytes);
            proof {
                assert(self@.writes =~= old(self)@.writes.push(bytes@));
            }
        }
    }

    /// Write bytes; the result says how many were accepted.
    pub fn write(&mut self, buf: &[u8]) -> (r: usize)
        requires
            old(self).wf(),
        ensures
            final(self).wf(),
            r == old(self)@.accepts(buf@),
            final(self)@ == old(self)@.written(buf@),
            final(self).asked() == old(self).asked(),
    {
        proof {
            lemma_write_appends(self@, buf@);
        }
        if buf.len() >= self.writer_capacity {
            self.flush();
            self.push_write(copy_bytes(buf));
            proof {
                assert(self@ =~= old(self)@.written(buf@));
            }
            return buf.len();
        }
        if self.writer_capacity == self.writer_buf.len() {
            self.flush();
        }
        let remain: usize = self.writer_capacity - self.writer_buf.len();
        let len: usize = if remain < buf.len() {
            remain
        } else {
            buf.len()
        };
        push_bytes(&mut self.writer_buf, vstd::slice::slice_subrange(buf, 0, len));
        proof {
            assert(buf@.subrange(0, len as int) =~= buf@.take(len as int));
            assert(self@ =~= old(self)@.written(buf@));
        }
        len
    }

    /// Hand everything that waits in the buffer to the transport.
    pub fn flush(&mut self)
        ensures
            final(self)@ == old(self)@.flushed(),
            final(self).asked() == old(self).asked(),
            final(self).wf(),
    {
        let mut taken: Vec<u8> = Vec::new();
        taken.append(&mut self.writer_buf);
        proof {
            assert(taken@ =~= old(self)@.buffered);
        }
        self.push_write(taken);
        proof {
            assert(self@ =~= old(self)@.flushed());
        }
    }

    /// Write all of `buf`.
    pub fn write_all(&mut self, buf: &[u8])
        requires
            old(self).wf(),
        ensures
            final(self).wf(),
            final(self)@ == old(self)@.written_all(buf@),
            final(self)@.output() == old(self)@.output() + buf@,
            final(self)@.input == old(self)@.input,
            final(self)@.closed == old(self)@.closed,
            final(self)@.capacity == old(self)@.capacity,
            final(self).asked() == old(self).asked(),
    {
        let mut done: usize = 0;
        proof {
            assert(buf@.skip(0) =~= buf@);
            assert(buf@.take(0) =~= Seq::<u8>::empty());
            assert(self@.output() + buf@.take(0) =~= self@.output());
        }
        while done < buf.len()
            invariant
                done <= buf@.len(),
                self.wf(),
                old(self)@.written_all(buf@) == self@.written_all(buf@.skip(done as int)),
                self@.output() == old(self)@.output() + buf@.take(done as int),
                self@.input == old(self)@.input,
                self@.closed == old(self)@.closed,
                self@.capacity == old(self)@.capacity,
                self.asked() == old(self).asked(),
            decreases buf@.len() - done,
        {
            let rest = vstd::slice::slice_subrange(buf, done, buf.len());
            let ghost before = self@;
            proof {
                assert(rest@ =~= buf@.skip(done as int));
                lemma_write_appends(before, rest@);
            }
            let n: usize = self.write(rest);
            proof {
                assert(rest@.skip(n as int) =~= buf@.skip(done + n));
                assert(buf@.take(done as int) + rest@.take(n as int) =~= buf@.take(done + n));
                assert(old(self)@.output() + buf@.take(done as int) + rest@.take(n as int)
                    =~= old(self)@.output() + buf@.take(done + n));
            }
            done += n;
        }
        proof {
            assert(buf@.take(done as int) =~= buf@);
        }
    }

    /// Take the writes that the transport has to perform.
    pub fn take_writes(&mut self) -> (r: Vec<Vec<u8>>)
        ensures
            r@.map_values(|w: Vec<u8>| w@) == old(self)@.writes,
            final(self)@ == (BufferView { writes: Seq::empty(), ..old(self)@ }),
            final(self).asked() == old(self).asked(),
    {
        let mut taken: Vec<Vec<u8>> = Vec::new();
        taken.append(&mut self.writes);
        proof {
            assert(taken@ =~= old(self).writes@);
            assert(self@.writes =~= Seq::<Seq<u8>>::empty());
        }
        taken
    }

    /// The number of bytes that wait in the output buffer.
    pub fn buffered_len(&self) -> (r: usize)
        ensures
            r == self@.buffered.len(),
    {
        self.writer_buf.len()
    }
}

} // verus!
