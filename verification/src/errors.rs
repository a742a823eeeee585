//! The closed error taxonomy of the coordination layer.

use vstd::prelude::*;

verus! {

/// Every failure the coordination layer can report.
///
/// Decode failures of a single inbound payload (`MalformedMessage`) are
/// contained to that payload; workflow failures abort the join/create
/// transition; a send against an empty registry is refused up front.
#[derive(Clone, Copy, Debug, PartialEq, Eq, Structural)]
pub enum ChatError {
    /// The ticket string is not a valid encoding of any ticket.
    MalformedTicket,
    /// The ticket decodes, but lists no seed peer to dial.
    EmptyTicket,
    /// The payload bytes are not a valid encoding of any message.
    MalformedMessage,
    /// The registry already holds a session under this key.
    DuplicateKey,
    /// The registry holds no session under this key.
    UnknownKey,
    /// No session is marked active, so there is nothing to send to.
    NoActiveSession,
    /// The transport substrate failed to subscribe, dial or broadcast.
    TransportFailure,
}

impl ChatError {
    /// A short human-readable rendering, surfaced to the user by the shell.
    pub fn describe(&self) -> (r: &'static str)
        ensures
            r@ =~= self.describe_spec(),
    {
        proof {
            reveal_strlit("malformed ticket");
            reveal_strlit("ticket has no seed peers");
            reveal_strlit("malformed message payload");
            reveal_strlit("a topic with this key already exists");
            reveal_strlit("no topic with this key");
            reveal_strlit("no active topic");
            reveal_strlit("transport failure");
        }
        match self {
            ChatError::MalformedTicket => "malformed ticket",
            ChatError::EmptyTicket => "ticket has no seed peers",
            ChatError::MalformedMessage => "malformed message payload",
            ChatError::DuplicateKey => "a topic with this key already exists",
            ChatError::UnknownKey => "no topic with this key",
            ChatError::NoActiveSession => "no active topic",
            ChatError::TransportFailure => "transport failure",
        }
    }

    /// What `describe` returns for each variant.
    pub open spec fn describe_spec(&self) -> Seq<char> {
        match self {
            ChatError::MalformedTicket => "malformed ticket"@,
            ChatError::EmptyTicket => "ticket has no seed peers"@,
            ChatError::MalformedMessage => "malformed message payload"@,
            ChatError::DuplicateKey => "a topic with this key already exists"@,
            ChatError::UnknownKey => "no topic with this key"@,
            ChatError::NoActiveSession => "no active topic"@,
            ChatError::TransportFailure => "transport failure"@,
        }
    }
}

} // verus!
