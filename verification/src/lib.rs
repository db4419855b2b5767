//! A verified core for a single-threaded, readiness-driven HTTP listener.
//!
//! The crate models the pieces that carry the design's logic: the wire
//! codec, the per-connection state machine, the deferred task queue, and
//! the shared upload buffer, tied together by a reactor that decides what
//! to do on each readiness event. Socket handling itself lives outside.

use vstd::prelude::*;

pub mod client;
pub mod global;
pub mod http_parse;
pub mod reactor;

verus! {

/// The failure classes a connection can run into.
///
/// Only `Fatal` is meant to stop the process; every other kind fails the
/// single connection it belongs to and leaves the listener running.
#[derive(Clone, Copy, PartialEq, Eq, Structural, Debug)]
pub enum ErrKind {
    /// A method other than GET reached a browser connection.
    UnsupportedMethod,
    /// The request bytes do not follow the expected line framing.
    MalformedRequest,
    /// The peer reset or closed the connection mid-exchange.
    PeerReset,
    /// An unrecoverable fault; the process should stop.
    Fatal,
}

} // verus!
