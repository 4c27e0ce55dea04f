//! A minimal model of HTTP/1.1 messages: a parser from the text of a request
//! to its parts, and a response that writes itself in wire format.
//!
//! Every function is verified against a contract over sequences of
//! characters and maps of texts. Sockets are the caller's business: the
//! parser takes a complete request as text, and a response writes to a sink
//! that the caller opened.

pub mod headers;
pub mod httprequest;
pub mod httpresponse;
pub mod order;
pub mod text;
