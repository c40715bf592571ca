use crate::key::KEY_BITS;
use crate::messages::{Message, Request, Response, RpcMessage, RpcRequest};
use crate::node::{port_id, Node, NodeDistance};
use crate::table::{
    closest_result, has_node, lemma_removed_id_is_not_found, lemma_updated_node_is_found, removed,
    updated, RoutingTable,
};
use vstd::prelude::*;

verus! {

/// The parameters of a node.
#[derive(Clone, Copy, Debug)]
pub struct KademliaConfig {
    /// Bytes in a key.
    pub key_length: usize,
    /// Buckets in the routing table.
    pub n_buckets: usize,
    /// Capacity of a bucket, and size of a lookup's result.
    pub k_param: usize,
    /// Queries per lookup round.
    pub alpha: usize,
}

impl Default for KademliaConfig {
    fn default() -> (r: KademliaConfig)
        ensures
            r.key_length == 32,
            r.n_buckets == KEY_BITS,
            r.k_param == 20,
            r.alpha == 3,
    {
        KademliaConfig { key_length: 32, n_buckets: KEY_BITS, k_param: 20, alpha: 3 }
    }
}

/// Whether `n` is the node that listens on `port`.
pub open spec fn is_port_node(n: Node, port: u16) -> bool {
    n.port == port && n.id@ == port_id(port)
}

/// What answering `request` does: its sender is recorded as known, and the
/// response carries the request's token and this node's port.
pub open spec fn responded(
    before: RoutingTable,
    after: RoutingTable,
    request: RpcRequest,
    own_port: u16,
    k_param: nat,
    r: RpcMessage,
) -> bool {
    &&& exists|n: Node| is_port_node(n, request.source) && #[trigger] updated(before, after, n)
    &&& r.token == request.token
    &&& r.source == own_port
    &&& r.message is Response
    &&& request.payload is Ping ==> r.message->Response_0 is Pong
    &&& request.payload is FindNode ==> {
        &&& r.message->Response_0 is FindNode
        &&& closest_result(
            after,
            request.payload->FindNode_0@,
            k_param,
            r.message->Response_0->FindNode_0@,
        )
    }
}

/// Answers an inbound request: learns its sender, then replies `Pong` to a
/// ping and the `k_param` closest known nodes to a node search.
pub fn respond(routes: &mut RoutingTable, request: RpcRequest, own_port: u16, k_param: usize) -> (r:
    RpcMessage)
    requires
        old(routes).wf(),
    ensures
        final(routes).wf(),
        responded(*old(routes), *final(routes), request, own_port, k_param as nat, r),
{
    let source_node = Node::for_port(request.source);
    routes.update(source_node);
    let response = match request.payload {
        Request::Ping => Response::Pong,
        Request::FindNode(id) => Response::FindNode(routes.get_closest_nodes(&id, k_param)),
    };
    RpcMessage { token: request.token, source: own_port, message: Message::Response(response) }
}

/// What a ping's outcome does: a `Pong` marks the peer as known and gives
/// true; anything else, or no reply, forgets it and gives false.
pub open spec fn pinged(
    before: RoutingTable,
    after: RoutingTable,
    dst: Node,
    reply: Option<Response>,
    r: bool,
) -> bool {
    &&& r == (reply is Some && reply->Some_0 is Pong)
    &&& r ==> updated(before, after, dst)
    &&& !r ==> removed(before, after, dst.id@)
}

/// Acts on the reply to a ping of `dst`; `None` stands for a timeout.
pub fn on_ping_reply(routes: &mut RoutingTable, dst: Node, reply: Option<Response>) -> (r: bool)
    requires
        old(routes).wf(),
    ensures
        final(routes).wf(),
        pinged(*old(routes), *final(routes), dst, reply, r),
{
    match reply {
        Some(Response::Pong) => {
            routes.update(dst);
            true
        },
        _ => {
            routes.remove(&dst.id);
            false
        },
    }
}

/// What a node search's outcome does: a `FindNode` reply marks the peer as
/// known and hands its entries on; anything else, or no reply, forgets the
/// peer and gives nothing.
pub open spec fn searched(
    before: RoutingTable,
    after: RoutingTable,
    dst: Node,
    reply: Option<Response>,
    r: Option<Vec<NodeDistance>>,
) -> bool {
    if reply is Some && reply->Some_0 is FindNode {
        &&& r == Some(reply->Some_0->FindNode_0)
        &&& updated(before, after, dst)
    } else {
        &&& r is None
        &&& removed(before, after, dst.id@)
    }
}

/// Acts on the reply to a node search sent to `dst`; `None` stands for a
/// timeout.
pub fn on_find_node_reply(routes: &mut RoutingTable, dst: Node, reply: Option<Response>) -> (r:
    Option<Vec<NodeDistance>>)
    requires
        old(routes).wf(),
    ensures
        final(routes).wf(),
        searched(*old(routes), *final(routes), dst, reply, r),
{
    match reply {
        Some(Response::FindNode(entries)) => {
            routes.update(dst);
            Some(entries)
        },
        _ => {
            routes.remove(&dst.id);
            None
        },
    }
}

/// A ping answered with `Pong` gives true, and when the peer's bucket had
/// room, a query for at least as many nodes as the table knows returns the
/// peer.
pub proof fn lemma_ping_answered(
    before: RoutingTable,
    after: RoutingTable,
    dst: Node,
    r: bool,
    key: Seq<u8>,
    count: nat,
    found: Seq<NodeDistance>,
)
    requires
        before.wf(),
        pinged(before, after, dst, Some(Response::Pong), r),
        before.bucket(before.bucket_for(dst.id@)).len() < before.k(),
        closest_result(after, key, count, found),
        count >= after.known_count(),
    ensures
        r,
        has_node(found, dst),
{
    lemma_updated_node_is_found(before, after, dst, key, count, found);
}

/// A ping that times out gives false, and no query returns a node with the
/// peer's identifier.
pub proof fn lemma_ping_unanswered(
    before: RoutingTable,
    after: RoutingTable,
    dst: Node,
    r: bool,
    key: Seq<u8>,
    count: nat,
    found: Seq<NodeDistance>,
)
    requires
        before.wf(),
        pinged(before, after, dst, None, r),
        closest_result(after, key, count, found),
    ensures
        !r,
        forall|i: int| 0 <= i < found.len() ==> (#[trigger] found[i]).node.id@ != dst.id@,
{
    lemma_removed_id_is_not_found(before, after, dst.id@, key, count, found);
}

} // verus!
