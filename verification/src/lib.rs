//! Core of a line-oriented TCP client: a decoder that splits a byte stream
//! into terminator-delimited lines, and a client state machine that runs a
//! single connect-and-stream lifetime, fanning each decoded line out to a
//! set of subscribers in order.
//!
//! The crate holds only the decisions: what a chunk of bytes decodes to,
//! which state follows which event, and what every subscriber has received.
//! Opening the socket, reading from it, and printing lines are left to the
//! surrounding program, which feeds bytes and events in and takes lines out.

pub mod client;
pub mod decoder;
