//! A verified decoder for Gopher (RFC 1436) menu responses.
//!
//! The heart of the crate is [`protocol::Parser`], which turns a raw byte
//! buffer received from a Gopher server into a sequence of typed directory
//! entries. Every parsing function carries a contract that pins its result
//! to a mathematical model of the wire format, so decoding is proved to
//! follow the protocol's tab-delimited, CRLF-terminated record grammar.
//! [`client::Gopher`] holds a server address and builds request lines; the
//! actual socket work is left to the embedding program.

pub mod client;
pub mod protocol;
