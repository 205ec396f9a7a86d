//! The buffered transport of one connection, as requests and response bodies share it.

use vstd::prelude::*;

use crate::buffer::{buffer_limit, BufferIo, BufferView, INIT_BUFFER_SIZE};
use crate::error::{failure, Error, ErrorKind, ErrorView};

verus! {

/// A connection's buffered transport and whether a response on it is still being received.
#[derive(Debug)]
pub struct SharedStream {
    pub buffer: BufferIo,
    pub response_pending: bool,
}

/// The refusal of a request on a connection whose last response was not received to its end.
pub open spec fn response_pending_failure() -> ErrorView {
    failure(
        ErrorKind::ConnectionAborted,
        "previous response on this connection was not fully consumed"@,
    )
}

impl SharedStream {
    pub open spec fn wf(&self) -> bool {
        self.buffer.wf()
    }

    /// A connection on which nothing was exchanged yet.
    pub fn new() -> (r: SharedStream)
        ensures
            r.wf(),
            !r.response_pending,
            r.buffer.asked() == INIT_BUFFER_SIZE,
            r.buffer@ == (BufferView {
                input: Seq::empty(),
                closed: false,
                buffered: Seq::empty(),
                capacity: INIT_BUFFER_SIZE as nat,
                writes: Seq::empty(),
            }),
    {
        SharedStream { buffer: BufferIo::new(), response_pending: false }
    }

    /// A connection that has delivered `data` and nothing after it.
    pub fn test(data: &[u8]) -> (r: SharedStream)
        requires
            data@.len() <= buffer_limit(),
        ensures
            r.wf(),
            !r.response_pending,
            r.buffer@ == (BufferView {
                input: data@,
                closed: true,
                buffered: Seq::empty(),
                capacity: INIT_BUFFER_SIZE as nat,
                writes: Seq::empty(),
            }),
    {
        let mut buffer = BufferIo::new();
        let _delivered: usize = buffer.bump_read(data);
        let empty: Vec<u8> = Vec::new();
        let _ended: usize = buffer.bump_read(&empty);
        proof {
            assert(buffer@.input =~= data@);
        }
        SharedStream { buffer, response_pending: false }
    }

    /// A response is now being received.
    pub fn mark_response_pending(&mut self)
        ensures
            final(self).response_pending,
            final(self).buffer == old(self).buffer,
    {
        self.response_pending = true;
    }

    /// The response was received up to its framing boundary.
    pub fn mark_response_complete(&mut self)
        ensures
            !final(self).response_pending,
            final(self).buffer == old(self).buffer,
    {
        self.response_pending = false;
    }

    /// A request may start only when no response is being received.
    pub fn ensure_request_ready(&self) -> (r: Result<(), Error>)
        ensures
            match r {
                Ok(_) => !self.response_pending,
                Err(e) => self.response_pending && e@ == response_pending_failure(),
            },
    {
        if self.response_pending {
            return Err(
                Error::new(
                    ErrorKind::ConnectionAborted,
                    "previous response on this connection was not fully consumed",
                ),
            );
        }
        Ok(())
    }
}

} // verus!
