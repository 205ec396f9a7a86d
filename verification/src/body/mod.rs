//! Message bodies: what a response delivers and what a request sends.

pub mod body_reader;
pub mod body_writer;
pub mod framing;

pub use body_reader::BodyReader;
pub use body_writer::BodyWriter;
