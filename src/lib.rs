//! A small HTTP/1.1 server core: request parsing, response serialisation,
//! routing by exact path and the per-connection framing state machine.

pub mod text;
pub mod headers;
pub mod request;
pub mod response;
pub mod router;
pub mod connection;

pub use connection::{Action, BodyLength, Connection, RequestReadStatus};
pub use headers::HeaderMap;
pub use request::{parse_request_header, ParseError, Request};
pub use response::{bad_request, internal_error, not_found, Response};
pub use router::App;
