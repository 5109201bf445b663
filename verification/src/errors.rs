//! Error taxonomy of the protocol core.

use vstd::prelude::*;

verus! {

/// How the underlying transport failed: the operation timed out, the
/// connection or stream was closed (locally or by the peer), or some other
/// I/O fault occurred.
#[derive(Clone, Copy, Debug, PartialEq, Eq, Structural)]
pub enum TransportError {
    Timeout,
    Closed,
    Io,
}

/// Every failure the protocol core can surface.
///
/// `Transport` and `ProtocolViolation` are fatal to the whole session;
/// `HandshakeRejected` carries the peer's refusal reason so callers can show
/// it; `Serialization`, `Deserialization` and `FrameTooLarge` stay local to
/// the operation that hit them.
#[derive(Clone, Debug, PartialEq, Eq)]
pub enum NetworkError {
    /// The underlying connection or stream failed, including peer close.
    Transport(TransportError),
    /// A frame arrived in a state that forbids it.
    ProtocolViolation,
    /// The peer explicitly refused the session, with its reason.
    HandshakeRejected(String),
    /// Encoding an outbound payload failed.
    Serialization,
    /// An inbound payload did not match the expected schema.
    Deserialization,
    /// A frame exceeded the configured ceiling.
    FrameTooLarge,
}

/// The mathematical content of a [`NetworkError`]: the same variants with
/// the refusal reason as a character sequence.
pub enum ErrorView {
    Transport(TransportError),
    ProtocolViolation,
    HandshakeRejected(Seq<char>),
    Serialization,
    Deserialization,
    FrameTooLarge,
}

impl View for NetworkError {
    type V = ErrorView;

    open spec fn view(&self) -> ErrorView {
        match self {
            NetworkError::Transport(e) => ErrorView::Transport(*e),
            NetworkError::ProtocolViolation => ErrorView::ProtocolViolation,
            NetworkError::HandshakeRejected(reason) => ErrorView::HandshakeRejected(reason@),
            NetworkError::Serialization => ErrorView::Serialization,
            NetworkError::Deserialization => ErrorView::Deserialization,
            NetworkError::FrameTooLarge => ErrorView::FrameTooLarge,
        }
    }
}

} // verus!
