//! Wire messages exchanged during the synchronization handshake, one closed
//! variant set per direction, and the protocol-level error taxonomy. The
//! transport that frames and carries them is outside the library.

use vstd::prelude::*;
use crate::resource;
use crate::resource::{SessionID, Type};

verus! {

/// Messages the server sends to the client.
#[derive(Debug, PartialEq, Eq, Clone)]
pub enum SMessage {
    /// First message. Tells the client whether it is accepted and a reason
    /// why not, for ban lists or a full server.
    Welcome(bool, String),
    /// The full manifest of required resources, as
    /// (package, resource id, version, session id) tuples in store order.
    CheckResources(Vec<(String, String, u64, SessionID)>),
    /// The body of one resource.
    Resource(SessionID, Type, Vec<u8>),
    Chat(String),
    Goodbye(String),
}

impl SMessage {
    /// The welcome payload, when this is a welcome.
    pub fn as_welcome(self) -> (r: Option<(bool, String)>)
        ensures
            match self {
                SMessage::Welcome(b, s) => r == Some((b, s)),
                _ => r is None,
            },
    {
        match self {
            SMessage::Welcome(b, s) => Some((b, s)),
            _ => None,
        }
    }

    /// The manifest tuples, when this is a manifest.
    pub fn as_check_resources(self) -> (r: Option<Vec<(String, String, u64, SessionID)>>)
        ensures
            match self {
                SMessage::CheckResources(v) => r == Some(v),
                _ => r is None,
            },
    {
        match self {
            SMessage::CheckResources(v) => Some(v),
            _ => None,
        }
    }

    /// The resource body, when this is a resource.
    pub fn as_resource(self) -> (r: Option<(SessionID, Type, Vec<u8>)>)
        ensures
            match self {
                SMessage::Resource(s, t, v) => r == Some((s, t, v)),
                _ => r is None,
            },
    {
        match self {
            SMessage::Resource(s, t, v) => Some((s, t, v)),
            _ => None,
        }
    }
}

/// Messages the client sends to the server.
#[derive(Debug, PartialEq, Eq, Clone)]
pub enum CMessage {
    /// The session ids, among those in the manifest, that the client lacks
    /// and asks the server to send.
    RequestResources(Vec<SessionID>),
    /// The client holds every resource and is ready to start.
    Ready,
    Chat(String, String),
    Goodbye(String),
}

impl CMessage {
    /// The requested ids, when this is a want-list.
    pub fn as_request_resources(self) -> (r: Option<Vec<SessionID>>)
        ensures
            match self {
                CMessage::RequestResources(v) => r == Some(v),
                _ => r is None,
            },
    {
        match self {
            CMessage::RequestResources(v) => Some(v),
            _ => None,
        }
    }

    /// Whether this is the readiness signal.
    pub fn is_ready(self) -> (r: bool)
        ensures
            r == (self matches CMessage::Ready),
    {
        match self {
            CMessage::Ready => true,
            _ => false,
        }
    }
}

/// The errors of the protocol layer. Every one of them is fatal for its
/// connection: the handshake is never resumed partway.
#[derive(Debug, PartialEq, Eq)]
pub enum Error {
    /// A socket or file failure in the surrounding code.
    Io,
    /// A store failure, carried through.
    Res(resource::Error),
    /// A wire payload that does not decode.
    Decode,
    /// A message whose shape does not match the step the state machine is
    /// at, or a resource body nobody asked for.
    WrongMessage,
    /// The server declined the client, or a peer ended the handshake; a
    /// clean abort, not a defect.
    Rejected,
}

} // verus!
