use crate::key::Key;
use crate::node::NodeDistance;
use vstd::prelude::*;

verus! {

/// A request one peer sends another.
#[derive(Clone, Debug)]
pub enum Request {
    Ping,
    FindNode(Key),
}

/// The answer to a [`Request`] of the same name.
#[derive(Clone, Debug)]
pub enum Response {
    Pong,
    FindNode(Vec<NodeDistance>),
}

#[derive(Clone, Debug)]
pub enum Message {
    Request(Request),
    Response(Response),
}

/// A datagram's contents: the token that pairs a response with its
/// request, the sender's port, and the message.
#[derive(Clone, Debug)]
pub struct RpcMessage {
    pub token: usize,
    pub source: u16,
    pub message: Message,
}

/// An inbound request, as handed from the transport to the protocol.
#[derive(Clone, Debug)]
pub struct RpcRequest {
    pub token: usize,
    pub source: u16,
    pub payload: Request,
}

} // verus!
