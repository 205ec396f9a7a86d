//! Failures of client operations and their stable classification.

use vstd::prelude::*;

use crate::text::{contains_text, has_text, lowercase, lowercase_chars};

verus! {

/// The condition that a failure reports.
#[derive(Debug, Clone, Copy, PartialEq, Eq, Structural)]
pub enum ErrorKind {
    NotFound,
    PermissionDenied,
    ConnectionRefused,
    ConnectionReset,
    ConnectionAborted,
    NotConnected,
    AddrInUse,
    AddrNotAvailable,
    BrokenPipe,
    AlreadyExists,
    WouldBlock,
    InvalidInput,
    InvalidData,
    TimedOut,
    WriteZero,
    Interrupted,
    Unsupported,
    UnexpectedEof,
    OutOfMemory,
    Other,
    Uncategorized,
}

/// What made an operation fail.
#[derive(Debug, Clone, Copy, PartialEq, Eq, Structural)]
pub enum Cause {
    /// The operation itself.
    Operation,
    /// The owner of the request, who cancelled it.
    Cancellation,
    /// The header fields that were supplied for the request.
    Metadata,
}

/// A failed operation: its condition, a message, and what made it fail.
#[derive(Debug)]
pub struct Error {
    kind: ErrorKind,
    message: String,
    cause: Cause,
}

/// The contents of an [`Error`].
pub struct ErrorView {
    pub kind: ErrorKind,
    pub message: Seq<char>,
    pub cause: Cause,
}

impl ErrorView {
    /// The failure reports a cancelled operation.
    pub open spec fn cancelled(self) -> bool {
        self.cause == Cause::Cancellation
    }
}

impl View for Error {
    type V = ErrorView;

    closed spec fn view(&self) -> ErrorView {
        ErrorView { kind: self.kind, message: self.message@, cause: self.cause }
    }
}

/// An ordinary failure with a kind and a message.
pub open spec fn failure(kind: ErrorKind, message: Seq<char>) -> ErrorView {
    ErrorView { kind, message, cause: Cause::Operation }
}

/// The text that marks an operation that its owner cancelled.
pub open spec fn cancelled_text() -> Seq<char> {
    "HTTP request cancelled"@
}

/// The failure of an operation that its owner cancelled.
pub open spec fn cancellation() -> ErrorView {
    ErrorView {
        kind: ErrorKind::Interrupted,
        message: cancelled_text(),
        cause: Cause::Cancellation,
    }
}

/// The failure of a request whose supplied header fields cannot be sent.
pub open spec fn metadata_failure(kind: ErrorKind, message: Seq<char>) -> ErrorView {
    ErrorView { kind, message, cause: Cause::Metadata }
}

impl Error {
    pub fn new(kind: ErrorKind, message: &str) -> (r: Error)
        ensures
            r@ == failure(kind, message@),
    {
        Error { kind, message: message.to_owned(), cause: Cause::Operation }
    }

    /// A failure whose message was put together at run time.
    pub fn with_message(kind: ErrorKind, message: String) -> (r: Error)
        ensures
            r@ == failure(kind, message@),
    {
        Error { kind, message, cause: Cause::Operation }
    }

    /// The failure that reports a cancelled operation.
    pub fn cancelled() -> (r: Error)
        ensures
            r@ == cancellation(),
    {
        Error {
            kind: ErrorKind::Interrupted,
            message: "HTTP request cancelled".to_owned(),
            cause: Cause::Cancellation,
        }
    }

    /// The failure that reports supplied header fields that cannot be sent.
    pub fn metadata(kind: ErrorKind, message: &str) -> (r: Error)
        ensures
            r@ == metadata_failure(kind, message@),
    {
        Error { kind, message: message.to_owned(), cause: Cause::Metadata }
    }

    pub fn kind(&self) -> (r: ErrorKind)
        ensures
            r == self@.kind,
    {
        self.kind
    }

    pub fn message(&self) -> (r: &str)
        ensures
            r@ == self@.message,
    {
        self.message.as_str()
    }

    /// Whether the failure reports a cancelled operation.
    pub fn is_cancelled(&self) -> (r: bool)
        ensures
            r == self@.cancelled(),
    {
        self.cause == Cause::Cancellation
    }

    /// What made the operation fail.
    pub fn cause(&self) -> (r: Cause)
        ensures
            r == self@.cause,
    {
        self.cause
    }
}

impl Clone for Error {
    fn clone(&self) -> (r: Error)
        ensures
            r@ == self@,
    {
        Error { kind: self.kind, message: self.message.clone(), cause: self.cause }
    }
}

/// Stable high-level classification for client failures.
#[derive(Debug, Clone, Copy, PartialEq, Eq, Structural)]
pub enum ClientErrorKind {
    InvalidRequest,
    Dns,
    Connection,
    Tls,
    Timeout,
    Cancelled,
    Metadata,
    Protocol,
    BodyTooLarge,
    BodyNotReplayable,
    Redirect,
    Io,
}

/// The class of a failure: by its kind, and by what its message says where the kind is shared.
pub open spec fn class_of(e: ErrorView) -> ClientErrorKind {
    let message = lowercase(e.message);
    if e.cause == Cause::Cancellation {
        ClientErrorKind::Cancelled
    } else if e.cause == Cause::Metadata {
        ClientErrorKind::Metadata
    } else if has_text(message, "body is not replayable"@) {
        ClientErrorKind::BodyNotReplayable
    } else {
        match e.kind {
            ErrorKind::InvalidInput => ClientErrorKind::InvalidRequest,
            ErrorKind::AddrNotAvailable => ClientErrorKind::Dns,
            ErrorKind::TimedOut => ClientErrorKind::Timeout,
            ErrorKind::PermissionDenied => ClientErrorKind::Redirect,
            ErrorKind::InvalidData => if has_text(message, "body exceeds"@) {
                ClientErrorKind::BodyTooLarge
            } else if has_text(message, "redirect"@) {
                ClientErrorKind::Redirect
            } else {
                ClientErrorKind::Protocol
            },
            ErrorKind::UnexpectedEof => ClientErrorKind::Protocol,
            ErrorKind::BrokenPipe
            | ErrorKind::ConnectionAborted
            | ErrorKind::ConnectionRefused
            | ErrorKind::ConnectionReset
            | ErrorKind::NotConnected
            | ErrorKind::WriteZero => ClientErrorKind::Connection,
            ErrorKind::Other => if has_text(message, "tls"@) || has_text(message, "certificate"@) {
                ClientErrorKind::Tls
            } else {
                ClientErrorKind::Io
            },
            _ => ClientErrorKind::Io,
        }
    }
}

impl ClientErrorKind {
    /// Classify a failure.
    pub fn classify(source: &Error) -> (r: ClientErrorKind)
        ensures
            r == class_of(source@),
    {
        match source.cause() {
            Cause::Cancellation => {
                return ClientErrorKind::Cancelled;
            },
            Cause::Metadata => {
                return ClientErrorKind::Metadata;
            },
            Cause::Operation => {},
        }
        let message = lowercase_chars(source.message());
        if contains_text(&message, "body is not replayable") {
            return ClientErrorKind::BodyNotReplayable;
        }
        match source.kind() {
            ErrorKind::InvalidInput => ClientErrorKind::InvalidRequest,
            ErrorKind::AddrNotAvailable => ClientErrorKind::Dns,
            ErrorKind::TimedOut => ClientErrorKind::Timeout,
            ErrorKind::PermissionDenied => ClientErrorKind::Redirect,
            ErrorKind::InvalidData => {
                if contains_text(&message, "body exceeds") {
                    ClientErrorKind::BodyTooLarge
                } else if contains_text(&message, "redirect") {
                    ClientErrorKind::Redirect
                } else {
                    ClientErrorKind::Protocol
                }
            },
            ErrorKind::UnexpectedEof => ClientErrorKind::Protocol,
            ErrorKind::BrokenPipe
            | ErrorKind::ConnectionAborted
            | ErrorKind::ConnectionRefused
            | ErrorKind::ConnectionReset
            | ErrorKind::NotConnected
            | ErrorKind::WriteZero => ClientErrorKind::Connection,
            ErrorKind::Other => {
                if contains_text(&message, "tls") || contains_text(&message, "certificate") {
                    ClientErrorKind::Tls
                } else {
                    ClientErrorKind::Io
                }
            },
            _ => ClientErrorKind::Io,
        }
    }
}

/// A failure together with its class.
#[derive(Debug)]
pub struct ClientError {
    kind: ClientErrorKind,
    source: Error,
}

impl ClientError {
    /// The failure that was classified.
    pub closed spec fn source_view(self) -> ErrorView {
        self.source@
    }

    /// The class that the error carries.
    pub closed spec fn kind_view(self) -> ClientErrorKind {
        self.kind
    }

    /// The error that carries `source` and its class.
    pub closed spec fn classified(source: Error) -> ClientError {
        ClientError { kind: class_of(source@), source }
    }

    /// An error made from a failure holds that failure and its class.
    pub proof fn lemma_classified(source: Error)
        ensures
            ClientError::classified(source).source_view() == source@,
            ClientError::classified(source).kind_view() == class_of(source@),
    {
    }

    pub fn kind(&self) -> (r: ClientErrorKind)
        ensures
            r == self.kind_view(),
    {
        self.kind
    }

    pub fn into_io_error(self) -> (r: Error)
        ensures
            r@ == self.source_view(),
    {
        self.source
    }

    /// The text shown for the error: the message of its source.
    pub fn message(&self) -> (r: &str)
        ensures
            r@ == self.source_view().message,
    {
        self.source.message()
    }
}

impl From<Error> for ClientError {
    fn from(source: Error) -> (r: ClientError) {
        let kind = ClientErrorKind::classify(&source);
        ClientError { kind, source }
    }
}

impl vstd::std_specs::convert::FromSpecImpl<Error> for ClientError {
    open spec fn obeys_from_spec() -> bool {
        true
    }

    open spec fn from_spec(source: Error) -> ClientError {
        ClientError::classified(source)
    }
}

} // verus!
