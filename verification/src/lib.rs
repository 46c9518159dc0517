//! Client-side codec and session logic for the UDP "server query" protocol
//! used by game servers: a handshake exchange that yields a numeric challenge
//! token, followed by a full-stat exchange that returns the online player list
//! and a key/value table of server information.
//!
//! The wire codec ([`packet`]) and the session sequencing ([`session`]) are
//! pure: they map byte sequences to structured values and back. All socket
//! I/O is left to the caller, which feeds received datagrams in and sends the
//! produced request bytes out.
pub mod laws;
pub mod num;
pub mod packet;
pub mod session;
pub mod text;
