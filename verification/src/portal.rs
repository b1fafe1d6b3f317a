//! The host-side portal's session semantics.
//!
//! A portal session runs two loops over one bidirectional byte stream: a
//! writer that frames and ships queued requests, and a reader that splits
//! frames off the stream and publishes decoded responses. The two loops
//! race; whichever ends first decides the whole session's outcome, and the
//! other loop is cancelled. Framing and decoding themselves are in the
//! codec; this module fixes how a loop's end maps to the session verdict.

use vstd::prelude::*;

use crate::codec::ProtocolError;

verus! {

/// How the first-finishing portal loop ended.
#[derive(Debug, Clone, Copy, PartialEq, Eq, Structural)]
pub enum LoopEnd {
    /// The writer's request source closed and every request was shipped.
    WriterDrained,
    /// The writer could no longer write to the stream.
    WriterFailed,
    /// The reader could no longer read from the stream, or it closed.
    ReaderFailed,
    /// The reader received a frame whose payload does not decode.
    ReaderMalformed,
}

/// Why a portal session ended abnormally.
#[derive(Debug, Clone, Copy, PartialEq, Eq, Structural)]
pub enum SessionError {
    /// The underlying stream failed in either direction.
    Io,
    /// A received frame or payload was not well-formed.
    Protocol(ProtocolError),
}

/// The session verdict, decided by whichever loop ended first. Only the
/// writer draining its source is a clean shutdown; any reader end is
/// fatal, since a broken read direction means responses can never again be
/// correlated even if writes still succeed. The loser of the race is
/// cancelled, so a reader failure dominates a writer that would have
/// drained later, never the other way around.
pub fn session_verdict(first: LoopEnd) -> (r: Result<(), SessionError>)
    ensures
        r == match first {
            LoopEnd::WriterDrained => Ok::<(), SessionError>(()),
            LoopEnd::WriterFailed => Err::<(), SessionError>(SessionError::Io),
            LoopEnd::ReaderFailed => Err::<(), SessionError>(SessionError::Io),
            LoopEnd::ReaderMalformed => Err::<(), SessionError>(
                SessionError::Protocol(ProtocolError::Malformed),
            ),
        },
        first is WriterDrained <==> r is Ok,
{
    match first {
        LoopEnd::WriterDrained => Ok(()),
        LoopEnd::WriterFailed => Err(SessionError::Io),
        LoopEnd::ReaderFailed => Err(SessionError::Io),
        LoopEnd::ReaderMalformed => Err(SessionError::Protocol(ProtocolError::Malformed)),
    }
}

} // verus!
