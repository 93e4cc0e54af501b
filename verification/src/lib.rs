//! A minimal HTTP/1.1 server core: an incremental request parser over raw
//! bytes, a case-insensitive header multimap, and a response serializer.
//! The connection plumbing that drives these over a socket lives outside
//! the verified library.

pub mod error;
pub mod headers;
pub mod reader;
pub mod request;
pub mod response;
pub mod server;
pub mod text;

pub use error::ParseError;
pub use headers::Headers;
pub use request::Request;
pub use response::StatusCode;
pub use server::HandlerError;
