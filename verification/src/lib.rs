//! Coroutine HTTP/1.1 client: wire formats, connection accounting and request policy.
//!
//! Nothing here touches a socket, a lock or the clock. Received bytes are handed in, bytes to send
//! are handed out, and every step that waits for something outside returns what it waits for.

pub mod body;
pub mod buffer;
pub mod builder;
pub mod cancellation;
pub mod checkout;
pub mod classes;
pub mod error;
pub mod exchange;
pub mod headers;
pub mod http_client;
pub mod laws;
pub mod ledger;
pub mod list;
pub mod message;
pub mod metadata;
pub mod multipart;
pub mod observer;
pub mod policy;
pub mod pool;
pub mod redirect;
pub mod request;
pub mod request_builder;
pub mod resolver;
pub mod response;
pub mod shared;
pub mod sink;
pub mod stats;
pub mod streaming;
pub mod table;
pub mod text;
pub mod time;
pub mod tls;
pub mod uri;
pub mod url;

pub use builder::{ClientBuilder, RedirectPolicy};
pub use cancellation::CancellationToken;
pub use error::{ClientError, ClientErrorKind, Error, ErrorKind};
pub use exchange::BufferedResponse;
pub use http_client::HttpClient;
pub use metadata::{RequestMetadata, RequestMetadataContext};
pub use multipart::MultipartForm;
pub use observer::{ClientEvent, ObservedOrigin};
pub use request::Request;
pub use request_builder::RequestBuilder;
pub use resolver::{
    CachingResolver, Resolution, ResolutionSource, ResolverCacheConfig, ServiceResolver,
    ServiceResolverConfig, SystemResolver,
};
pub use response::Response;
pub use stats::ClientStats;
pub use streaming::StreamingResponse;
pub use tls::{TlsConfigFailurePolicy, TlsConfigSnapshot};
