//! What callers can rely on across operations: each law is stated over what goes in and what comes
//! out, apart from how the operations work.

pub mod buffers;
pub mod chunks;
pub mod collecting;
pub mod connections;
pub mod failures;
pub mod fields;
pub mod forms;
pub mod framing;
pub mod heads;
pub mod lists;
pub mod lookups;
pub mod origins;
pub mod redirects;
pub mod responses;
pub mod retries;
pub mod rotation;
pub mod scan;
pub mod steps;
pub mod targets;
pub mod uploads;
