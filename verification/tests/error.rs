use may_minihttp::{ClientError, ClientErrorKind, Error, ErrorKind};

#[test]
fn typed_errors_preserve_source_and_classification() {
    let error = ClientError::from(Error::new(
        ErrorKind::InvalidData,
        "HTTP response body exceeds configured limit",
    ));
    assert_eq!(error.kind(), ClientErrorKind::BodyTooLarge);
    assert!(error.message().contains("body exceeds"));
    assert_eq!(error.into_io_error().kind(), ErrorKind::InvalidData);
}

#[test]
fn every_class_has_a_cause() {
    let cases = [
        (ErrorKind::InvalidInput, "x", ClientErrorKind::InvalidRequest),
        (ErrorKind::AddrNotAvailable, "x", ClientErrorKind::Dns),
        (ErrorKind::TimedOut, "x", ClientErrorKind::Timeout),
        (ErrorKind::PermissionDenied, "x", ClientErrorKind::Redirect),
        (
            ErrorKind::InvalidData,
            "Body EXCEEDS",
            ClientErrorKind::BodyTooLarge,
        ),
        (
            ErrorKind::InvalidData,
            "a redirect loop",
            ClientErrorKind::Redirect,
        ),
        (ErrorKind::InvalidData, "x", ClientErrorKind::Protocol),
        (ErrorKind::UnexpectedEof, "x", ClientErrorKind::Protocol),
        (ErrorKind::BrokenPipe, "x", ClientErrorKind::Connection),
        (ErrorKind::ConnectionAborted, "x", ClientErrorKind::Connection),
        (ErrorKind::ConnectionRefused, "x", ClientErrorKind::Connection),
        (ErrorKind::ConnectionReset, "x", ClientErrorKind::Connection),
        (ErrorKind::NotConnected, "x", ClientErrorKind::Connection),
        (ErrorKind::WriteZero, "x", ClientErrorKind::Connection),
        (ErrorKind::Other, "TLS handshake", ClientErrorKind::Tls),
        (ErrorKind::Other, "bad Certificate", ClientErrorKind::Tls),
        (ErrorKind::Other, "x", ClientErrorKind::Io),
        (ErrorKind::NotFound, "x", ClientErrorKind::Io),
        (
            ErrorKind::PermissionDenied,
            "request body is NOT replayable",
            ClientErrorKind::BodyNotReplayable,
        ),
        (
            ErrorKind::InvalidInput,
            "redirect: Body is not replayable",
            ClientErrorKind::BodyNotReplayable,
        ),
    ];
    for (kind, message, class) in cases {
        assert_eq!(ClientErrorKind::classify(&Error::new(kind, message)), class);
    }
    assert_eq!(
        ClientErrorKind::classify(&Error::cancelled()),
        ClientErrorKind::Cancelled
    );
    assert_eq!(
        ClientErrorKind::classify(&Error::new(ErrorKind::Interrupted, "HTTP request cancelled")),
        ClientErrorKind::Io
    );
}

#[test]
fn a_client_error_shows_its_source() {
    let error = ClientError::from(Error::new(ErrorKind::Other, "certificate expired"));
    assert_eq!(error.message(), "certificate expired");
    assert_eq!(error.kind(), ClientErrorKind::Tls);
}
