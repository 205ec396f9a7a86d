//! Limits and policies of a client.

use vstd::prelude::*;

use crate::error::{failure, Error, ErrorKind, ErrorView};
use crate::headers::{has_name, names, with_name, FieldName};
use crate::response::DEFAULT_MAX_RESPONSE_HEADER_BYTES;
use crate::time::Duration;

verus! {

pub const DEFAULT_MAX_RESPONSE_BODY: usize = 8_388_608;

/// Policy governing whether HTTP redirects are followed.
#[derive(Debug, Clone, Copy, PartialEq, Eq, Structural)]
pub enum RedirectPolicy {
    /// Return 3xx responses to the caller. This is the default.
    Disabled,
    /// Follow at most `max_hops` redirects within the original origin.
    SameOrigin { max_hops: usize },
    /// Follow cross-origin redirects, stripping credentials first.
    CrossOrigin {
        max_hops: usize,
        /// HTTPS-to-HTTP transitions remain forbidden unless this is explicitly true.
        allow_https_downgrade: bool,
    },
}

impl Default for RedirectPolicy {
    fn default() -> (r: RedirectPolicy)
        ensures
            r == RedirectPolicy::Disabled,
    {
        RedirectPolicy::Disabled
    }
}

impl RedirectPolicy {
    /// The number of redirects that may be followed; nothing where none is.
    pub open spec fn hop_limit(self) -> Option<usize> {
        match self {
            RedirectPolicy::Disabled => None,
            RedirectPolicy::SameOrigin { max_hops } => Some(max_hops),
            RedirectPolicy::CrossOrigin { max_hops, .. } => Some(max_hops),
        }
    }

    /// The number of redirects that may be followed; nothing where none is.
    pub fn max_hops(self) -> (r: Option<usize>)
        ensures
            r == self.hop_limit(),
    {
        match self {
            RedirectPolicy::Disabled => None,
            RedirectPolicy::SameOrigin { max_hops } => Some(max_hops),
            RedirectPolicy::CrossOrigin { max_hops, .. } => Some(max_hops),
        }
    }
}

/// The settings of a client.
#[derive(Debug)]
pub struct ClientConfigValues {
    pub max_connections: usize,
    pub max_connections_per_origin: usize,
    pub idle_timeout: Duration,
    pub max_connection_lifetime: Duration,
    pub connect_timeout: Duration,
    pub io_timeout: Duration,
    pub request_timeout: Duration,
    pub max_response_header_bytes: usize,
    pub max_response_body: usize,
    pub redirect_policy: RedirectPolicy,
    pub sensitive_headers: Vec<FieldName>,
}

/// What is wrong with the limits of a client, if anything is.
pub open spec fn limits_failure(config: ClientConfigValues) -> Option<ErrorView> {
    if config.max_connections == 0 || config.max_connections_per_origin == 0 {
        Some(failure(ErrorKind::InvalidInput, "connection limits must be greater than zero"@))
    } else if config.max_connections_per_origin > config.max_connections {
        Some(
            failure(
                ErrorKind::InvalidInput,
                "per-origin connection limit cannot exceed the global limit"@,
            ),
        )
    } else if config.max_response_body == 0 || config.max_response_header_bytes < 4 {
        Some(
            failure(
                ErrorKind::InvalidInput,
                "response body limit must be non-zero and header limit at least four bytes"@,
            ),
        )
    } else {
        None
    }
}

/// Builder for the settings of a client.
#[derive(Debug)]
pub struct ClientBuilder {
    config: ClientConfigValues,
}

impl ClientBuilder {
    /// The settings as chosen so far.
    pub closed spec fn chosen(&self) -> ClientConfigValues {
        self.config
    }
}

impl Default for ClientBuilder {
    fn default() -> (r: ClientBuilder)
        ensures
            ({
                let config = r.chosen();
                &&& config.max_connections == 64
                &&& config.max_connections_per_origin == 8
                &&& config.idle_timeout.nanos == 90_000_000_000
                &&& config.max_connection_lifetime.nanos == 900_000_000_000
                &&& config.connect_timeout.nanos == 10_000_000_000
                &&& config.io_timeout.nanos == 30_000_000_000
                &&& config.request_timeout.nanos == 30_000_000_000
                &&& config.max_response_header_bytes == DEFAULT_MAX_RESPONSE_HEADER_BYTES
                &&& config.max_response_body == DEFAULT_MAX_RESPONSE_BODY
                &&& config.redirect_policy == RedirectPolicy::Disabled
                &&& names(config.sensitive_headers@) == seq![
                    "authorization"@,
                    "cookie"@,
                    "proxy-authorization"@,
                ]
                &&& limits_failure(config) is None
            }),
    {
        let mut sensitive_headers: Vec<FieldName> = Vec::new();
        sensitive_headers.push(FieldName::authorization());
        sensitive_headers.push(FieldName::cookie());
        sensitive_headers.push(FieldName::proxy_authorization());
        proof {
            assert(names(sensitive_headers@) =~= seq![
                "authorization"@,
                "cookie"@,
                "proxy-authorization"@,
            ]);
        }
        ClientBuilder {
            config: ClientConfigValues {
                max_connections: 64,
                max_connections_per_origin: 8,
                idle_timeout: Duration::from_secs(90),
                max_connection_lifetime: Duration::from_secs(900),
                connect_timeout: Duration::from_secs(10),
                io_timeout: Duration::from_secs(30),
                request_timeout: Duration::from_secs(30),
                max_response_header_bytes: DEFAULT_MAX_RESPONSE_HEADER_BYTES,
                max_response_body: DEFAULT_MAX_RESPONSE_BODY,
                redirect_policy: RedirectPolicy::Disabled,
                sensitive_headers,
            },
        }
    }
}

impl ClientBuilder {
    /// Create a builder with conservative finite limits and redirects disabled.
    pub fn new() -> (r: ClientBuilder)
        ensures
            limits_failure(r.chosen()) is None,
            r.chosen().redirect_policy == RedirectPolicy::Disabled,
            r.chosen().max_connections == 64,
            r.chosen().max_connections_per_origin == 8,
            r.chosen().idle_timeout.nanos == 90_000_000_000,
            r.chosen().max_connection_lifetime.nanos == 900_000_000_000,
            r.chosen().connect_timeout.nanos == 10_000_000_000,
            r.chosen().io_timeout.nanos == 30_000_000_000,
            r.chosen().request_timeout.nanos == 30_000_000_000,
            r.chosen().max_response_header_bytes == DEFAULT_MAX_RESPONSE_HEADER_BYTES,
            r.chosen().max_response_body == DEFAULT_MAX_RESPONSE_BODY,
            names(r.chosen().sensitive_headers@) == seq![
                "authorization"@,
                "cookie"@,
                "proxy-authorization"@,
            ],
    {
        ClientBuilder::default()
    }

    pub fn max_connections(self, value: usize) -> (r: ClientBuilder)
        ensures
            r.chosen() == (ClientConfigValues { max_connections: value, ..self.chosen() }),
    {
        let mut config = self.config;
        config.max_connections = value;
        ClientBuilder { config }
    }

    pub fn max_connections_per_origin(self, value: usize) -> (r: ClientBuilder)
        ensures
            r.chosen() == (ClientConfigValues {
                max_connections_per_origin: value,
                ..self.chosen()
            }),
    {
        let mut config = self.config;
        config.max_connections_per_origin = value;
        ClientBuilder { config }
    }

    pub fn idle_timeout(self, value: Duration) -> (r: ClientBuilder)
        ensures
            r.chosen() == (ClientConfigValues { idle_timeout: value, ..self.chosen() }),
    {
        let mut config = self.config;
        config.idle_timeout = value;
        ClientBuilder { config }
    }

    pub fn max_connection_lifetime(self, value: Duration) -> (r: ClientBuilder)
        ensures
            r.chosen() == (ClientConfigValues { max_connection_lifetime: value, ..self.chosen() }),
    {
        let mut config = self.config;
        config.max_connection_lifetime = value;
        ClientBuilder { config }
    }

    pub fn connect_timeout(self, value: Duration) -> (r: ClientBuilder)
        ensures
            r.chosen() == (ClientConfigValues { connect_timeout: value, ..self.chosen() }),
    {
        let mut config = self.config;
        config.connect_timeout = value;
        ClientBuilder { config }
    }

    pub fn io_timeout(self, value: Duration) -> (r: ClientBuilder)
        ensures
            r.chosen() == (ClientConfigValues { io_timeout: value, ..self.chosen() }),
    {
        let mut config = self.config;
        config.io_timeout = value;
        ClientBuilder { config }
    }

    pub fn request_timeout(self, value: Duration) -> (r: ClientBuilder)
        ensures
            r.chosen() == (ClientConfigValues { request_timeout: value, ..self.chosen() }),
    {
        let mut config = self.config;
        config.request_timeout = value;
        ClientBuilder { config }
    }

    pub fn max_response_body(self, value: usize) -> (r: ClientBuilder)
        ensures
            r.chosen() == (ClientConfigValues { max_response_body: value, ..self.chosen() }),
    {
        let mut config = self.config;
        config.max_response_body = value;
        ClientBuilder { config }
    }

    pub fn max_response_header_bytes(self, value: usize) -> (r: ClientBuilder)
        ensures
            r.chosen() == (ClientConfigValues {
                max_response_header_bytes: value,
                ..self.chosen()
            }),
    {
        let mut config = self.config;
        config.max_response_header_bytes = value;
        ClientBuilder { config }
    }

    pub fn redirect_policy(self, value: RedirectPolicy) -> (r: ClientBuilder)
        ensures
            r.chosen() == (ClientConfigValues { redirect_policy: value, ..self.chosen() }),
    {
        let mut config = self.config;
        config.redirect_policy = value;
        ClientBuilder { config }
    }

    /// Mark an additional header for removal before a cross-origin redirect.
    pub fn sensitive_header(self, value: FieldName) -> (r: ClientBuilder)
        ensures
            names(r.chosen().sensitive_headers@) == with_name(
                names(self.chosen().sensitive_headers@),
                value@,
            ),
            r.chosen() == (ClientConfigValues {
                sensitive_headers: r.chosen().sensitive_headers,
                ..self.chosen()
            }),
    {
        let mut config = self.config;
        let marked = has_name(&config.sensitive_headers, &value);
        if !marked {
            config.sensitive_headers.push(value);
            proof {
                assert(names(config.sensitive_headers@) =~= names(
                    self.config.sensitive_headers@,
                ).push(value@));
            }
        }
        ClientBuilder { config }
    }

    /// Check the limits and settle the settings.
    pub fn build(self) -> (r: Result<ClientConfigValues, Error>)
        ensures
            match r {
                Ok(config) => limits_failure(self.chosen()) is None && config == self.chosen(),
                Err(e) => limits_failure(self.chosen()) == Some(e@),
            },
    {
        if self.config.max_connections == 0 || self.config.max_connections_per_origin == 0 {
            return Err(
                Error::new(ErrorKind::InvalidInput, "connection limits must be greater than zero"),
            );
        }
        if self.config.max_connections_per_origin > self.config.max_connections {
            return Err(
                Error::new(
                    ErrorKind::InvalidInput,
                    "per-origin connection limit cannot exceed the global limit",
                ),
            );
        }
        if self.config.max_response_body == 0 || self.config.max_response_header_bytes < 4 {
            return Err(
                Error::new(
                    ErrorKind::InvalidInput,
                    "response body limit must be non-zero and header limit at least four bytes",
                ),
            );
        }
        Ok(self.config)
    }
}

} // verus!
