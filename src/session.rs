//! Decisions of an exchange producer on each websocket frame it receives.
use vstd::prelude::*;

verus! {

/// The kinds of frame a websocket session delivers.
#[derive(Debug, Clone, Copy, PartialEq, Eq, Structural)]
pub enum FrameKind {
    Text,
    Binary,
    Ping,
    Pong,
    Close,
    /// A raw frame below the message level.
    Raw,
}

/// What the producer does with a frame.
#[derive(Debug, Clone, Copy, PartialEq, Eq, Structural)]
pub enum FrameAction {
    /// Decode the text as a depth message and forward it.
    Decode,
    /// Answer a keep-alive with a pong carrying the same payload.
    Reply,
    /// Log the frame and go on.
    Ignore,
    /// End the session with a recoverable failure: the peer closed it, or
    /// sent a frame the protocol does not allow.
    Fail,
}

/// The producer's answer to one frame.
pub fn on_frame(kind: FrameKind) -> (r: FrameAction)
    ensures
        r == match kind {
            FrameKind::Text => FrameAction::Decode,
            FrameKind::Ping => FrameAction::Reply,
            FrameKind::Pong | FrameKind::Raw => FrameAction::Ignore,
            FrameKind::Binary | FrameKind::Close => FrameAction::Fail,
        },
{
    match kind {
        FrameKind::Text => FrameAction::Decode,
        FrameKind::Ping => FrameAction::Reply,
        FrameKind::Pong => FrameAction::Ignore,
        FrameKind::Raw => FrameAction::Ignore,
        FrameKind::Binary => FrameAction::Fail,
        FrameKind::Close => FrameAction::Fail,
    }
}

} // verus!
