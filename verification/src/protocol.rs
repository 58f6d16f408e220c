//! The typed envelope model: a message is {src, dest, body}, the body
//! carries an optional `msg_id`, an optional `in_reply_to` and a typed
//! payload. A request carries `msg_id`; its reply carries `in_reply_to`
//! equal to that `msg_id` and the matching `..Ok` payload, or an error.

use vstd::prelude::*;
use crate::ids::{NodeId, PeerId};

verus! {

/// One line on the wire: where it came from, where it goes, and its body.
#[derive(Debug, Clone, PartialEq, Eq)]
pub struct Message {
    pub src: PeerId,
    pub dest: PeerId,
    pub body: Body,
}

/// The flat body: correlation ids and the payload distinguished by its
/// `type` field.
#[derive(Debug, Clone, PartialEq, Eq)]
pub struct Body {
    pub msg_id: Option<u64>,
    pub in_reply_to: Option<u64>,
    pub value: Payload,
}

/// The request and reply payloads of the workloads. Text is carried as
/// its UTF-8 bytes.
#[derive(Debug, Clone, PartialEq, Eq)]
pub enum Payload {
    Echo { echo: Vec<u8> },
    EchoOk { echo: Vec<u8> },
    Init { node_id: NodeId, node_ids: Vec<NodeId> },
    InitOk,
    Broadcast { message: u64 },
    BroadcastOk,
    Read,
    ReadOk { messages: Vec<u64> },
    Generate,
    GenerateOk { id: u64 },
    Topology { topology: Vec<(NodeId, Vec<NodeId>)> },
    TopologyOk,
    Error { code: ErrorCode, text: Vec<u8> },
}

/// The error codes of the protocol, serialized as integers.
#[derive(Debug, Clone, Copy, PartialEq, Eq, Structural)]
pub enum ErrorCode {
    Timeout,
    NodeNotFound,
    NotSupported,
    TemporarilyUnavailable,
    MalformedRequest,
    Crash,
    Abort,
    KeyDoesNotExist,
    KeyAlreadyExists,
    PreconditionFailed,
    TxnConflict,
}

/// An error reply's content.
#[derive(Debug, Clone, PartialEq, Eq)]
pub struct ErrorResponse {
    pub code: ErrorCode,
    pub text: Vec<u8>,
}

/// Why a `send` failed: the peer answered with an error, or its reply
/// did not decode as the expected payload.
#[derive(Debug, Clone, PartialEq, Eq)]
pub enum SendError {
    Decode,
    Response(ErrorResponse),
}

/// A message seen as a request: its `msg_id` and its payload.
#[derive(Debug, Clone, PartialEq, Eq)]
pub struct Request {
    pub msg_id: u64,
    pub payload: Payload,
}

impl ErrorCode {
    /// The integer of this code on the wire.
    pub open spec fn spec_code(self) -> u64 {
        match self {
            ErrorCode::Timeout => 0,
            ErrorCode::NodeNotFound => 1,
            ErrorCode::NotSupported => 10,
            ErrorCode::TemporarilyUnavailable => 11,
            ErrorCode::MalformedRequest => 12,
            ErrorCode::Crash => 13,
            ErrorCode::Abort => 14,
            ErrorCode::KeyDoesNotExist => 20,
            ErrorCode::KeyAlreadyExists => 21,
            ErrorCode::PreconditionFailed => 22,
            ErrorCode::TxnConflict => 30,
        }
    }

    /// The integer of this code on the wire.
    pub fn code(&self) -> (r: u64)
        ensures
            r == self.spec_code(),
    {
        match self {
            ErrorCode::Timeout => 0,
            ErrorCode::NodeNotFound => 1,
            ErrorCode::NotSupported => 10,
            ErrorCode::TemporarilyUnavailable => 11,
            ErrorCode::MalformedRequest => 12,
            ErrorCode::Crash => 13,
            ErrorCode::Abort => 14,
            ErrorCode::KeyDoesNotExist => 20,
            ErrorCode::KeyAlreadyExists => 21,
            ErrorCode::PreconditionFailed => 22,
            ErrorCode::TxnConflict => 30,
        }
    }

    /// The code with integer `c`, or `None` when no code has it.
    pub fn from_code(c: u64) -> (r: Option<ErrorCode>)
        ensures
            r matches Some(e) ==> e.spec_code() == c,
            r is None ==> forall|e: ErrorCode| e.spec_code() != c,
    {
        let r = match c {
            0 => Some(ErrorCode::Timeout),
            1 => Some(ErrorCode::NodeNotFound),
            10 => Some(ErrorCode::NotSupported),
            11 => Some(ErrorCode::TemporarilyUnavailable),
            12 => Some(ErrorCode::MalformedRequest),
            13 => Some(ErrorCode::Crash),
            14 => Some(ErrorCode::Abort),
            20 => Some(ErrorCode::KeyDoesNotExist),
            21 => Some(ErrorCode::KeyAlreadyExists),
            22 => Some(ErrorCode::PreconditionFailed),
            30 => Some(ErrorCode::TxnConflict),
            _ => None,
        };
        proof {
            if r is None {
                assert forall|e: ErrorCode| e.spec_code() != c by {
                    match e {
                        ErrorCode::Timeout => {},
                        ErrorCode::NodeNotFound => {},
                        ErrorCode::NotSupported => {},
                        ErrorCode::TemporarilyUnavailable => {},
                        ErrorCode::MalformedRequest => {},
                        ErrorCode::Crash => {},
                        ErrorCode::Abort => {},
                        ErrorCode::KeyDoesNotExist => {},
                        ErrorCode::KeyAlreadyExists => {},
                        ErrorCode::PreconditionFailed => {},
                        ErrorCode::TxnConflict => {},
                    }
                }
            }
        }
        r
    }
}

/// Whether `reply` is the well-correlated answer to a request carrying
/// `req`: the matching `..Ok` payload, or an error.
pub open spec fn is_ok_reply_for(reply: Payload, req: Payload) -> bool {
    let direct = match req {
        Payload::Echo { .. } => (reply matches Payload::EchoOk { .. }),
        Payload::Init { .. } => (reply matches Payload::InitOk),
        Payload::Broadcast { .. } => (reply matches Payload::BroadcastOk),
        Payload::Read => (reply matches Payload::ReadOk { .. }),
        Payload::Generate => (reply matches Payload::GenerateOk { .. }),
        Payload::Topology { .. } => (reply matches Payload::TopologyOk),
        _ => (reply matches Payload::Error { .. }),
    };
    direct || (reply matches Payload::Error { .. })
}

/// The reply envelope a node `n` sends for `req` with payload `value`:
/// addressed back to the requester, correlated by the request's
/// `msg_id`.
pub open spec fn spec_reply(n: NodeId, req: Message, value: Payload) -> Message {
    Message {
        src: PeerId::Node(n),
        dest: req.src,
        body: Body { msg_id: None, in_reply_to: req.body.msg_id, value },
    }
}

impl Message {
    /// Where this message came from.
    pub fn source(&self) -> (r: &PeerId)
        ensures
            *r == self.src,
    {
        &self.src
    }

    /// The `in_reply_to` correlation id, when the message is a reply.
    pub fn in_reply_to(&self) -> (r: Option<u64>)
        ensures
            r == self.body.in_reply_to,
    {
        self.body.in_reply_to
    }

    /// Builds the outbound request from `src` to `dest` carrying
    /// `payload` under the fresh `msg_id`.
    pub fn request_to(src: NodeId, dest: PeerId, msg_id: u64, payload: Payload) -> (r: Message)
        ensures
            r == (Message {
                src: PeerId::Node(src),
                dest,
                body: Body { msg_id: Some(msg_id), in_reply_to: None, value: payload },
            }),
    {
        Message {
            src: PeerId::Node(src),
            dest,
            body: Body { msg_id: Some(msg_id), in_reply_to: None, value: payload },
        }
    }

    /// This message seen as a request: its `msg_id` and payload, when it
    /// carries a `msg_id`.
    pub fn as_request(self) -> (r: Option<Request>)
        ensures
            match r {
                Some(req) => self.body.msg_id == Some(req.msg_id) && req.payload
                    == self.body.value,
                None => self.body.msg_id is None,
            },
    {
        match self.body.msg_id {
            Some(id) => Some(Request { msg_id: id, payload: self.body.value }),
            None => None,
        }
    }

    /// Builds the reply to `request` carrying `value`: source and
    /// destination swapped, `in_reply_to` set to the request's `msg_id`.
    /// A message without `msg_id` is no request: `MalformedRequest`.
    pub fn reply_for(request: &Message, value: Payload) -> (r: Result<Message, ErrorCode>)
        ensures
            request.body.msg_id is Some ==> r == Ok::<Message, ErrorCode>(
                Message {
                    src: request.dest,
                    dest: request.src,
                    body: Body {
                        msg_id: None,
                        in_reply_to: request.body.msg_id,
                        value,
                    },
                },
            ),
            request.body.msg_id is None ==> r == Err::<Message, ErrorCode>(
                ErrorCode::MalformedRequest,
            ),
    {
        match request.body.msg_id {
            Some(id) => Ok(
                Message {
                    src: request.dest,
                    dest: request.src,
                    body: Body { msg_id: None, in_reply_to: Some(id), value },
                },
            ),
            None => Err(ErrorCode::MalformedRequest),
        }
    }
}

} // verus!
