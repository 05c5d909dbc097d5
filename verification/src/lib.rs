//! A minimal HTTP request parser and router.
//!
//! The crate turns the raw text lines of a request head (plus an optional
//! trailing body fragment) into a structured [`request::ParsedRequest`],
//! looks the route up in an exact-match [`router::Router`] table, and
//! assembles the literal response bytes (status line, `Content-Length`
//! header, blank line, body). All of the parsing and routing logic is
//! verified; reading the connection and the backing files is left to the
//! caller.

pub mod request;
pub mod router;
pub mod text;
