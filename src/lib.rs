//! Request framing for an HTTP/1.1 server: turns the bytes a connection receives, however they
//! were split into reads, into complete requests framed by `Content-Length` or by chunked
//! transfer encoding, with a ceiling on the bytes held per connection.
use vstd::prelude::*;

pub mod bytes;
pub mod headers;
pub mod request;
pub mod framer;
pub mod connection;
pub mod laws;

pub use connection::{Connection, DriverAction, FrameBuffer};
pub use framer::frame_request;
pub use headers::HeaderMap;
pub use request::{ParseError, Request, RequestMetadata, Route, Rpress};

verus! {

} // verus!
