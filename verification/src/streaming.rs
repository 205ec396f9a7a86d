//! Responses whose bodies are read as they arrive.

use vstd::prelude::*;

use crate::body::body_reader::{
    body_read, lemma_freed_at_the_boundary, lemma_starved_read_changes_nothing, BodyReader,
    ReadView,
};
use crate::buffer::{is_starved, starved, BufferView};
use crate::builder::RedirectPolicy;
use crate::error::{class_of, failure, ClientErrorKind, Error, ErrorKind, ErrorView};
use crate::headers::Headers;
use crate::http_client::HttpClient;
use crate::message::Version;
use crate::observer::RequestTrace;
use crate::pool::{discarded, settled, Fate, PoolLease, PoolState};
use crate::response::Response;
use crate::stats::ClientStats;
use crate::time::{deadline_failure, remaining, Duration, Instant};
use crate::url::Url;

verus! {

/// The refusal to stream under a policy that follows redirects.
pub open spec fn streaming_redirect_failure() -> ErrorView {
    failure(
        ErrorKind::InvalidInput,
        "streaming responses require redirects to be disabled"@,
    )
}

/// Streaming responses require redirects to be disabled.
pub fn require_no_redirects(policy: RedirectPolicy) -> (r: Result<(), Error>)
    ensures
        match r {
            Ok(_) => policy == RedirectPolicy::Disabled,
            Err(e) => policy != RedirectPolicy::Disabled && e@ == streaming_redirect_failure(),
        },
{
    if policy != RedirectPolicy::Disabled {
        return Err(
            Error::new(
                ErrorKind::InvalidInput,
                "streaming responses require redirects to be disabled",
            ),
        );
    }
    Ok(())
}

/// How a streaming response ended, as observers are told once.
#[derive(Debug, Clone, Copy, PartialEq, Eq, Structural)]
pub enum Ending {
    Completed,
    Failed(ClientErrorKind),
    Cancelled,
    Abandoned,
}

/// What a step of a streaming response tells its surroundings.
#[derive(Debug, Clone, Copy, PartialEq, Eq, Structural)]
pub struct Notice {
    pub ending: Option<Ending>,
    pub fate: Fate,
}

/// Streaming response that owns its connection-pool lease.
///
/// Reading to EOF returns a reusable HTTP/1.x connection to the pool. Any read error, request
/// deadline, or early drop discards the connection without trying to drain the body.
#[derive(Debug)]
pub struct StreamingResponse<T> {
    pub response: Option<Response>,
    pub lease: Option<PoolLease<HttpClient<T>>>,
    pub reusable: bool,
    pub deadline: Instant,
    pub io_timeout: Duration,
    pub status: u16,
    pub version: Version,
    pub headers: Headers,
    pub final_url: Url,
    pub trace: RequestTrace,
    pub terminal_observed: bool,
}

/// The ending of a failed response.
pub open spec fn failed_ending(e: ErrorView) -> Ending {
    if e.cancelled() {
        Ending::Cancelled
    } else {
        Ending::Failed(class_of(e))
    }
}

/// What a step may tell of the end of a response: it is told once, and not again.
pub open spec fn tells(observed: bool, ending: Option<Ending>, observed_after: bool) -> bool {
    &&& ending is Some ==> !observed && observed_after
    &&& observed ==> observed_after
}

impl<T> StreamingResponse<T> {
    /// The lease holds a connection and a slot of the pool, and there is one as long as there is a
    /// response.
    pub open spec fn wf(&self, pool: &PoolState<HttpClient<T>>) -> bool {
        &&& self.lease matches Some(lease) ==> lease.accounted && lease.held_in(pool)
            && lease.connection is Some
        &&& self.response is Some ==> self.lease is Some
    }

    /// The parts of the response that do not change.
    pub open spec fn same_head(&self, other: &StreamingResponse<T>) -> bool {
        &&& self.reusable == other.reusable
        &&& self.deadline == other.deadline
        &&& self.io_timeout == other.io_timeout
        &&& self.status == other.status
        &&& self.version == other.version
        &&& self.headers == other.headers
        &&& self.final_url == other.final_url
        &&& self.trace == other.trace
    }

    pub fn status(&self) -> (r: u16)
        ensures
            r == self.status,
    {
        self.status
    }

    pub fn version(&self) -> (r: Version)
        ensures
            r == self.version,
    {
        self.version
    }

    pub fn headers(&self) -> (r: &Headers)
        ensures
            *r == self.headers,
    {
        &self.headers
    }

    pub fn final_url(&self) -> (r: &Url)
        ensures
            *r == self.final_url,
    {
        &self.final_url
    }

    /// The body was received to its end: the connection goes back to the pool if it can be used
    /// again.
    pub fn complete(
        &mut self,
        pool: &mut PoolState<HttpClient<T>>,
        stats: &mut ClientStats,
        now: Instant,
        lifetime: Duration,
    ) -> (notice: Notice)
        requires
            old(pool).wf(),
            old(self).wf(old(pool)),
        ensures
            final(pool).wf(),
            final(self).wf(final(pool)),
            final(self).same_head(old(self)),
            final(self).response is None,
            final(self).lease is None,
            tells(old(self).terminal_observed, notice.ending, final(self).terminal_observed),
            notice.ending is Some ==> !old(self).terminal_observed && final(self).terminal_observed,
            old(self).terminal_observed ==> final(self).terminal_observed,
            final(self).terminal_observed,
            notice.ending == (if old(self).terminal_observed {
                None
            } else {
                Some(Ending::Completed)
            }),
            (final(pool)@, *final(stats), notice.fate) == settled(
                old(pool)@,
                *old(stats),
                old(self).lease,
                old(self).reusable,
                now,
                lifetime,
            ),
    {
        self.response = None;
        let fate = match self.lease.take() {
            Some(lease) => lease.settle(self.reusable, pool, stats, now, lifetime),
            None => Fate::Kept,
        };
        let ending = if self.terminal_observed {
            None
        } else {
            Some(Ending::Completed)
        };
        self.terminal_observed = true;
        Notice { ending, fate }
    }

    fn discard_connection(
        &mut self,
        pool: &mut PoolState<HttpClient<T>>,
        stats: &mut ClientStats,
    ) -> (fate: Fate)
        requires
            old(pool).wf(),
            old(self).wf(old(pool)),
        ensures
            final(pool).wf(),
            final(self).wf(final(pool)),
            final(self).same_head(old(self)),
            final(self).terminal_observed == old(self).terminal_observed,
            final(self).response is None,
            final(self).lease is None,
            (final(pool)@, *final(stats), fate) == discarded(
                old(pool)@,
                *old(stats),
                old(self).lease,
            ),
    {
        self.response = None;
        match self.lease.take() {
            Some(lease) => {
                let _discarded = lease.release(pool, stats);
                Fate::Discarded
            },
            None => Fate::Kept,
        }
    }

    /// The response failed: its connection is discarded.
    pub fn fail(
        &mut self,
        error: &Error,
        pool: &mut PoolState<HttpClient<T>>,
        stats: &mut ClientStats,
    ) -> (notice: Notice)
        requires
            old(pool).wf(),
            old(self).wf(old(pool)),
        ensures
            final(pool).wf(),
            final(self).wf(final(pool)),
            final(self).same_head(old(self)),
            final(self).response is None,
            final(self).lease is None,
            tells(old(self).terminal_observed, notice.ending, final(self).terminal_observed),
            notice.ending is Some ==> !old(self).terminal_observed && final(self).terminal_observed,
            old(self).terminal_observed ==> final(self).terminal_observed,
            final(self).terminal_observed,
            notice.ending == (if old(self).terminal_observed {
                None
            } else {
                Some(failed_ending(error@))
            }),
            (final(pool)@, *final(stats), notice.fate) == discarded(
                old(pool)@,
                *old(stats),
                old(self).lease,
            ),
    {
        let fate = self.discard_connection(pool, stats);
        let ending = if self.terminal_observed {
            None
        } else if error.is_cancelled() {
            Some(Ending::Cancelled)
        } else {
            Some(Ending::Failed(ClientErrorKind::classify(error)))
        };
        self.terminal_observed = true;
        Notice { ending, fate }
    }

    /// The response is dropped: a body that was not received to its end is given up with its
    /// connection, without draining it.
    pub fn abandon(
        &mut self,
        pool: &mut PoolState<HttpClient<T>>,
        stats: &mut ClientStats,
    ) -> (notice: Notice)
        requires
            old(pool).wf(),
            old(self).wf(old(pool)),
        ensures
            final(pool).wf(),
            final(self).wf(final(pool)),
            final(self).same_head(old(self)),
            final(self).response is None,
            final(self).lease is None,
            tells(old(self).terminal_observed, notice.ending, final(self).terminal_observed),
            notice.ending is Some ==> !old(self).terminal_observed && final(self).terminal_observed,
            old(self).terminal_observed ==> final(self).terminal_observed,
            final(self).terminal_observed == (old(self).terminal_observed || old(
                self,
            ).response is Some),
            notice.ending == (if old(self).response is Some && !old(self).terminal_observed {
                Some(Ending::Abandoned)
            } else {
                None
            }),
            (final(pool)@, *final(stats), notice.fate) == discarded(
                old(pool)@,
                *old(stats),
                old(self).lease,
            ),
    {
        let incomplete = self.response.is_some();
        let fate = self.discard_connection(pool, stats);
        if incomplete && !self.terminal_observed {
            self.terminal_observed = true;
            return Notice { ending: Some(Ending::Abandoned), fate };
        }
        Notice { ending: None, fate }
    }
}

/// Nothing to tell.
pub open spec fn quiet() -> Notice {
    Notice { ending: None, fate: Fate::Kept }
}

/// A lease after `used` received bytes of its connection were consumed; the response on it may
/// have come to its end.
pub open spec fn lease_after_read<T>(
    before: PoolLease<HttpClient<T>>,
    after: PoolLease<HttpClient<T>>,
    used: nat,
    complete: bool,
) -> bool {
    &&& after.key == before.key
    &&& after.request_id == before.request_id
    &&& after.accounted == before.accounted
    &&& after.reused_idle_connection == before.reused_idle_connection
    &&& after.connection is Some
    &&& ({
        let a = before.connection->0;
        let b = after.connection->0;
        &&& b.created == a.created
        &&& b.idle_since == a.idle_since
        &&& b.client.transport == a.client.transport
        &&& b.client.host_header == a.client.host_header
        &&& b.client.expect_body == a.client.expect_body
        &&& b.client.max_response_header_bytes == a.client.max_response_header_bytes
        &&& b.client.conn.response_pending == (a.client.conn.response_pending && !complete)
        &&& b.client.conn.buffer@ == (BufferView {
            input: a.client.conn.buffer@.input.skip(used as int),
            ..a.client.conn.buffer@
        })
    })
}

/// A connection that a streamed body gives back holds no unread response.
pub proof fn lemma_returned_connection_is_ready<T>(
    reader: BodyReader,
    before: PoolLease<HttpClient<T>>,
    after: PoolLease<HttpClient<T>>,
    max: nat,
)
    requires
        !reader.complete(),
        ({
            let received = before.connection->0.client.conn.buffer@;
            let step = body_read(reader, received.input, received.closed, max);
            &&& step.result is Ok
            &&& step.next.complete()
            &&& lease_after_read(before, after, step.used, step.complete)
        }),
    ensures
        !after.connection->0.client.conn.response_pending,
{
    let received = before.connection->0.client.conn.buffer@;
    lemma_freed_at_the_boundary(reader, received.input, received.closed, max);
}

/// What one read of a streaming response comes to.
pub enum StreamView {
    /// There is nothing to read.
    Nothing,
    /// The deadline of the request has passed.
    Late,
    /// More bytes have to arrive.
    Starved,
    Failed(ErrorView),
    /// These bytes were read; they are the last ones, or not.
    Piece { bytes: Seq<u8>, last: bool },
}

/// What one read of at most `max` bytes comes to, for whether the deadline has passed, whether the
/// response is still open, and what was read of its body.
pub open spec fn stream_step(max: nat, late: bool, open: bool, step: ReadView) -> StreamView {
    if max == 0 {
        StreamView::Nothing
    } else if late {
        StreamView::Late
    } else if !open {
        StreamView::Nothing
    } else {
        match step.result {
            Err(e) => if e == starved() {
                StreamView::Starved
            } else {
                StreamView::Failed(e)
            },
            Ok(bytes) => StreamView::Piece { bytes, last: step.next.complete() },
        }
    }
}

impl<T> StreamingResponse<T> {
    /// A response whose head has arrived on a leased connection. One without a body is complete at
    /// once.
    pub fn open(
        response: Response,
        lease: PoolLease<HttpClient<T>>,
        reusable: bool,
        deadline: Instant,
        io_timeout: Duration,
        final_url: Url,
        trace: RequestTrace,
        pool: &mut PoolState<HttpClient<T>>,
        stats: &mut ClientStats,
        now: Instant,
        lifetime: Duration,
    ) -> (r: (StreamingResponse<T>, Notice))
        requires
            old(pool).wf(),
            lease.accounted,
            lease.held_in(old(pool)),
            lease.connection is Some,
        ensures
            final(pool).wf(),
            r.0.wf(final(pool)),
            r.0.reusable == reusable,
            r.0.deadline == deadline,
            r.0.io_timeout == io_timeout,
            r.0.status == response.status,
            r.0.version == response.version,
            r.0.headers@ == response.headers@,
            r.0.final_url == final_url,
            r.0.trace == trace,
            if response.body.complete() {
                &&& r.0.response is None
                &&& r.0.lease is None
                &&& r.0.terminal_observed
                &&& r.1.ending == Some(Ending::Completed)
                &&& (final(pool)@, *final(stats), r.1.fate) == settled(
                    old(pool)@,
                    *old(stats),
                    Some(lease),
                    reusable,
                    now,
                    lifetime,
                )
            } else {
                &&& r.0.response == Some(response)
                &&& r.0.lease == Some(lease)
                &&& !r.0.terminal_observed
                &&& r.1 == quiet()
                &&& *final(pool) == *old(pool)
                &&& *final(stats) == *old(stats)
            },
    {
        let done = response.body_complete();
        let headers = response.headers.clone();
        let mut streaming = StreamingResponse {
            status: response.status,
            version: response.version,
            headers,
            response: Some(response),
            lease: Some(lease),
            reusable,
            deadline,
            io_timeout,
            final_url,
            trace,
            terminal_observed: false,
        };
        if done {
            let notice = streaming.complete(pool, stats, now, lifetime);
            return (streaming, notice);
        }
        (streaming, Notice { ending: None, fate: Fate::Kept })
    }

    /// Read at most `max` bytes of the body. No bytes mean its end.
    ///
    /// While bytes that have not arrived are needed, the read is reported as starved and nothing
    /// has changed. A failure discards the connection; the end of the body settles it.
    pub fn read(
        &mut self,
        max: usize,
        pool: &mut PoolState<HttpClient<T>>,
        stats: &mut ClientStats,
        now: Instant,
        lifetime: Duration,
    ) -> (r: (Result<Vec<u8>, Error>, Notice))
        requires
            old(pool).wf(),
            old(self).wf(old(pool)),
        ensures
            final(pool).wf(),
            final(self).wf(final(pool)),
            final(self).same_head(old(self)),
            tells(old(self).terminal_observed, r.1.ending, final(self).terminal_observed),
            r.1.ending is Some ==> !old(self).terminal_observed && final(self).terminal_observed,
            old(self).terminal_observed ==> final(self).terminal_observed,
            ({
                let received = old(self).lease->0.connection->0.client.conn.buffer@;
                let step = body_read(
                    old(self).response->0.body,
                    received.input,
                    received.closed,
                    max as nat,
                );
                match stream_step(
                    max as nat,
                    now.nanos > old(self).deadline.nanos,
                    old(self).response is Some,
                    step,
                ) {
                    StreamView::Nothing => r.0 matches Ok(bytes) && bytes@.len() == 0
                        && *final(self) == *old(self),
                    StreamView::Late => r.0 is Err && r.0->Err_0@ == deadline_failure()
                        && final(self).lease is None,
                    StreamView::Starved => {
                        &&& r.0 is Err && r.0->Err_0@ == starved()
                        &&& final(self).response == old(self).response
                    },
                    StreamView::Failed(e) => {
                        &&& r.0 is Err && r.0->Err_0@ == e
                        &&& final(self).lease is None
                    },
                    StreamView::Piece { bytes, last } => {
                        &&& r.0 matches Ok(read) && read@ == bytes
                        &&& final(self).response is None <==> last
                    },
                }
            }),
            if max == 0 {
                &&& r.0 matches Ok(bytes) && bytes@.len() == 0
                &&& r.1 == quiet()
                &&& *final(self) == *old(self)
                &&& *final(pool) == *old(pool)
                &&& *final(stats) == *old(stats)
            } else if now.nanos > old(self).deadline.nanos {
                &&& r.0 is Err
                &&& r.0->Err_0@ == deadline_failure()
                &&& final(self).response is None
                &&& final(self).lease is None
                &&& final(self).terminal_observed
                &&& r.1.ending == (if old(self).terminal_observed {
                    None
                } else {
                    Some(failed_ending(deadline_failure()))
                })
                &&& (final(pool)@, *final(stats), r.1.fate) == discarded(
                    old(pool)@,
                    *old(stats),
                    old(self).lease,
                )
            } else if old(self).response is None {
                &&& r.0 matches Ok(bytes) && bytes@.len() == 0
                &&& r.1 == quiet()
                &&& *final(self) == *old(self)
                &&& *final(pool) == *old(pool)
                &&& *final(stats) == *old(stats)
            } else {
                let lease = old(self).lease->0;
                let received = lease.connection->0.client.conn.buffer@;
                let step = body_read(
                    old(self).response->0.body,
                    received.input,
                    received.closed,
                    max as nat,
                );
                match step.result {
                    Err(e) => {
                        &&& r.0 is Err
                        &&& r.0->Err_0@ == e
                        &&& if e == starved() {
                            &&& r.1 == quiet()
                            &&& *final(pool) == *old(pool)
                            &&& *final(stats) == *old(stats)
                            &&& final(self).terminal_observed == old(self).terminal_observed
                            &&& final(self).response == old(self).response
                            &&& final(self).lease is Some
                            &&& lease_after_read(lease, final(self).lease->0, 0, false)
                        } else {
                            &&& final(self).response is None
                            &&& final(self).lease is None
                            &&& final(self).terminal_observed
                            &&& r.1.ending == (if old(self).terminal_observed {
                                None
                            } else {
                                Some(failed_ending(e))
                            })
                            &&& (final(pool)@, *final(stats), r.1.fate) == discarded(
                                old(pool)@,
                                *old(stats),
                                Some(lease),
                            )
                        }
                    },
                    Ok(piece) => {
                        &&& r.0 matches Ok(bytes) && bytes@ == piece
                        &&& if step.next.complete() {
                            &&& final(self).response is None
                            &&& final(self).lease is None
                            &&& final(self).terminal_observed
                            &&& r.1.ending == (if old(self).terminal_observed {
                                None
                            } else {
                                Some(Ending::Completed)
                            })
                            &&& exists|done: PoolLease<HttpClient<T>>|
                                {
                                    &&& #[trigger] lease_after_read(
                                        lease,
                                        done,
                                        step.used,
                                        step.complete,
                                    )
                                    &&& (final(pool)@, *final(stats), r.1.fate) == settled(
                                        old(pool)@,
                                        *old(stats),
                                        Some(done),
                                        old(self).reusable,
                                        now,
                                        lifetime,
                                    )
                                }
                        } else {
                            &&& r.1 == quiet()
                            &&& *final(pool) == *old(pool)
                            &&& *final(stats) == *old(stats)
                            &&& final(self).terminal_observed == old(self).terminal_observed
                            &&& final(self).response == Some(
                                Response { body: step.next, ..old(self).response->0 },
                            )
                            &&& final(self).lease is Some
                            &&& lease_after_read(
                                lease,
                                final(self).lease->0,
                                step.used,
                                step.complete,
                            )
                        }
                    },
                }
            },
    {
        if max == 0 {
            return (Ok(Vec::new()), Notice { ending: None, fate: Fate::Kept });
        }
        match remaining(self.deadline, now) {
            Ok(_) => {},
            Err(error) => {
                let notice = self.fail(&error, pool, stats);
                return (Err(error), notice);
            },
        }
        let (outcome, done) = match (&mut self.response, &mut self.lease) {
            (Some(response), Some(lease)) => match &mut lease.connection {
                Some(connection) => {
                    proof {
                        let received = connection.client.conn.buffer@;
                        assert(received.input.skip(0) =~= received.input);
                        lemma_starved_read_changes_nothing(
                            response.body,
                            received.input,
                            received.closed,
                            max as nat,
                        );
                    }
                    let outcome = response.body.read(&mut connection.client.conn, max);
                    (outcome, response.body.is_complete())
                },
                None => {
                    return (Ok(Vec::new()), Notice { ending: None, fate: Fate::Kept });
                },
            },
            _ => {
                return (Ok(Vec::new()), Notice { ending: None, fate: Fate::Kept });
            },
        };
        match outcome {
            Ok(bytes) => {
                if done {
                    proof {
                        let lease = old(self).lease->0;
                        let received = lease.connection->0.client.conn.buffer@;
                        let step = body_read(
                            old(self).response->0.body,
                            received.input,
                            received.closed,
                            max as nat,
                        );
                        assert(lease_after_read(lease, self.lease->0, step.used, step.complete));
                    }
                    let notice = self.complete(pool, stats, now, lifetime);
                    return (Ok(bytes), notice);
                }
                (Ok(bytes), Notice { ending: None, fate: Fate::Kept })
            },
            Err(error) => {
                if is_starved(&error) {
                    return (Err(error), Notice { ending: None, fate: Fate::Kept });
                }
                let notice = self.fail(&error, pool, stats);
                (Err(error), notice)
            },
        }
    }
}

} // verus!
