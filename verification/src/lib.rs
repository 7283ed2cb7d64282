//! A msgpack-rpc transport library for commanding a remote simulated vehicle.
//!
//! The library is organised around a small verified core:
//!
//! - [`value`] — the dynamic wire value (nil, booleans, integers, floats as
//!   bit patterns, strings, binary, arrays, maps, extensions);
//! - [`codec`] — the byte-level codec for values, with proofs that decoding
//!   inverts encoding and that truncated input is always recognised as such;
//! - [`message`] — the three message kinds (request, response, notification)
//!   and their array-tagged framing;
//! - [`idalloc`] — the correlation-id allocator with its wraparound policy;
//! - [`pending`] — the pending-call table mapping in-flight correlation ids
//!   to completion tokens;
//! - [`transport`] — the client-side multiplexing engine, as a state machine
//!   from events (outbound calls, inbound bytes, connection loss) to actions
//!   (frame writes, response deliveries, failure notices);
//! - [`server`] — the reference server dispatcher and its fixed method table;
//! - [`airsim`] — builders and reply parsers for the simulator's methods.
//!
//! Socket I/O, task scheduling and channel plumbing live outside the library;
//! they hand events to the state machines here and perform the actions those
//! return.

pub mod airsim;
pub mod codec;
pub mod errors;
pub mod idalloc;
pub mod message;
pub mod pending;
pub mod server;
pub mod transport;
pub mod value;
