//! Core of a Kademlia node: the XOR key space, a bucketed routing table,
//! the wire messages, the table of requests that wait for an answer, and
//! the decisions of the protocol and of the iterative node lookup.

pub mod key;
pub mod lookup;
pub mod messages;
pub mod metric;
pub mod node;
pub mod pending;
pub mod protocol;
pub mod table;

pub use key::{Distance, Key};
pub use messages::{Message, Request, Response, RpcMessage, RpcRequest};
pub use metric::bucket_index;
pub use node::{Node, NodeDistance};
pub use table::{KBucket, RoutingTable};
