//! Where encoded bytes go.

use vstd::prelude::*;

use crate::buffer::{lemma_flush_keeps_output, lemma_write_appends, BufferIo};
use crate::text::push_bytes;

verus! {

/// The side of a connection that writing leaves alone.
#[verifier::ext_equal]
pub struct Receiving {
    /// Received bytes that were not consumed yet.
    pub input: Seq<u8>,
    /// The transport has reported the end of its input.
    pub closed: bool,
    /// The number of unread bytes for which there is room at least.
    pub asked: nat,
}

/// A destination of bytes that may accept a write in part.
pub trait Sink: Sized {
    spec fn sink_wf(&self) -> bool;

    /// Everything that was accepted so far.
    spec fn accepted(&self) -> Seq<u8>;

    /// The number of bytes that a write of `bytes` accepts.
    spec fn room_for(&self, bytes: Seq<u8>) -> nat;

    /// No accepted byte is held back.
    spec fn settled(&self) -> bool;

    /// What came from the other side, which writing leaves alone.
    spec fn receiving(&self) -> Receiving;

    fn write(&mut self, buf: &[u8]) -> (n: usize)
        requires
            old(self).sink_wf(),
        ensures
            final(self).sink_wf(),
            final(self).receiving() == old(self).receiving(),
            n == old(self).room_for(buf@),
            n <= buf@.len(),
            buf@.len() > 0 ==> n > 0,
            final(self).accepted() == old(self).accepted() + buf@.take(n as int),
    ;

    fn flush(&mut self)
        requires
            old(self).sink_wf(),
        ensures
            final(self).sink_wf(),
            final(self).receiving() == old(self).receiving(),
            final(self).accepted() == old(self).accepted(),
            final(self).settled(),
    ;
}

impl Sink for Vec<u8> {
    open spec fn sink_wf(&self) -> bool {
        true
    }

    open spec fn accepted(&self) -> Seq<u8> {
        self@
    }

    open spec fn room_for(&self, bytes: Seq<u8>) -> nat {
        bytes.len()
    }

    open spec fn settled(&self) -> bool {
        true
    }

    open spec fn receiving(&self) -> Receiving {
        Receiving { input: Seq::empty(), closed: true, asked: 0 }
    }

    fn write(&mut self, buf: &[u8]) -> (n: usize) {
        push_bytes(self, buf);
        proof {
            assert(buf@.take(buf@.len() as int) =~= buf@);
        }
        buf.len()
    }

    fn flush(&mut self) {
    }
}

impl Sink for BufferIo {
    open spec fn sink_wf(&self) -> bool {
        self.wf()
    }

    open spec fn accepted(&self) -> Seq<u8> {
        self@.output()
    }

    open spec fn room_for(&self, bytes: Seq<u8>) -> nat {
        self@.accepts(bytes)
    }

    open spec fn settled(&self) -> bool {
        self@.buffered.len() == 0
    }

    open spec fn receiving(&self) -> Receiving {
        Receiving { input: self@.input, closed: self@.closed, asked: self.asked() }
    }

    fn write(&mut self, buf: &[u8]) -> (n: usize)
        ensures
            final(self)@ == old(self)@.written(buf@),
    {
        proof {
            lemma_write_appends(self@, buf@);
        }
        BufferIo::write(self, buf)
    }

    fn flush(&mut self)
        ensures
            final(self)@ == old(self)@.flushed(),
    {
        proof {
            lemma_flush_keeps_output(self@);
        }
        BufferIo::flush(self)
    }
}

/// Write all bytes to a sink.
pub fn write_all<S: Sink>(out: &mut S, buf: &[u8])
    requires
        old(out).sink_wf(),
    ensures
        final(out).sink_wf(),
        final(out).receiving() == old(out).receiving(),
        final(out).accepted() == old(out).accepted() + buf@,
{
    let mut done: usize = 0;
    proof {
        assert(out.accepted() + buf@.take(0) =~= out.accepted());
    }
    while done < buf.len()
        invariant
            done <= buf@.len(),
            out.sink_wf(),
            out.receiving() == old(out).receiving(),
            out.accepted() == old(out).accepted() + buf@.take(done as int),
        decreases buf@.len() - done,
    {
        let rest = vstd::slice::slice_subrange(buf, done, buf.len());
        let n: usize = out.write(rest);
        proof {
            assert(old(out).accepted() + buf@.take(done as int) + rest@.take(n as int) =~= old(
                out,
            ).accepted() + buf@.take(done + n));
        }
        done += n;
    }
    proof {
        assert(buf@.take(done as int) =~= buf@);
    }
}

} // verus!
