use kademlia::key::{Key, KEY_BITS, KEY_SIZE};
use kademlia::lookup::Lookup;
use kademlia::messages::{Message, Request, Response, RpcRequest};
use kademlia::node::{Node, NodeDistance};
use kademlia::protocol::{on_find_node_reply, on_ping_reply, respond, KademliaConfig};
use kademlia::table::RoutingTable;

fn table_for(port: u16) -> RoutingTable {
    RoutingTable::new(Node::for_port(port), KEY_BITS, 20)
}

fn entry(target: &Key, node: Node) -> NodeDistance {
    NodeDistance::new(node, node.id.distance(target))
}

#[test]
fn default_config() {
    let c = KademliaConfig::default();
    assert_eq!((c.key_length, c.n_buckets, c.k_param, c.alpha), (32, 256, 20, 3));
}

#[test]
fn respond_to_ping_learns_sender() {
    let mut t = table_for(10000);
    let req = RpcRequest { token: 77, source: 10001, payload: Request::Ping };
    let msg = respond(&mut t, req, 10000, 20);
    assert_eq!(msg.token, 77);
    assert_eq!(msg.source, 10000);
    assert!(matches!(msg.message, Message::Response(Response::Pong)));
    assert_eq!(t.known_nodes(), vec![Node::for_port(10001)]);
}

#[test]
fn respond_to_find_node_lists_closest() {
    let mut t = table_for(10000);
    for p in 10001..10006u16 {
        t.update(Node::for_port(p));
    }
    let target = Node::for_port(10003).id;
    let req = RpcRequest { token: 5, source: 10009, payload: Request::FindNode(target) };
    let msg = respond(&mut t, req, 10000, 3);
    match msg.message {
        Message::Response(Response::FindNode(entries)) => {
            assert_eq!(entries.len(), 3);
            assert_eq!(entries[0].node, Node::for_port(10003));
            assert!(entries.windows(2).all(|w| w[0].distance <= w[1].distance));
        },
        _ => panic!("expected a node list"),
    }
    assert_eq!(t.known_nodes().len(), 6);
}

#[test]
fn ping_reply_updates_or_evicts() {
    let mut t = table_for(10000);
    let peer = Node::for_port(10001);
    assert!(on_ping_reply(&mut t, peer, Some(Response::Pong)));
    assert_eq!(t.known_nodes(), vec![peer]);
    let r = t.get_closest_nodes(&peer.id, 20);
    assert_eq!(r[0].node, peer);
    assert!(!on_ping_reply(&mut t, peer, None));
    assert!(t.known_nodes().is_empty());
    assert!(!on_ping_reply(&mut t, peer, Some(Response::FindNode(vec![]))));
    let ghost_peer = Node::for_port(9999);
    assert!(!on_ping_reply(&mut t, ghost_peer, None));
    assert!(t.get_closest_nodes(&ghost_peer.id, 20).is_empty());
}

#[test]
fn find_node_reply_hands_entries_on() {
    let mut t = table_for(10000);
    let peer = Node::for_port(10002);
    let target = Node::for_port(10005).id;
    let listed = vec![entry(&target, Node::for_port(10005))];
    let got = on_find_node_reply(&mut t, peer, Some(Response::FindNode(listed.clone())));
    assert_eq!(got, Some(listed));
    assert_eq!(t.known_nodes(), vec![peer]);
    assert_eq!(on_find_node_reply(&mut t, peer, Some(Response::Pong)), None);
    assert!(t.known_nodes().is_empty());
    t.update(peer);
    assert_eq!(on_find_node_reply(&mut t, peer, None), None);
    assert!(t.known_nodes().is_empty());
}

#[test]
fn lookup_rounds_take_nearest_first() {
    let target = Key([0; KEY_SIZE]);
    let mut nodes = vec![];
    for i in 1..8u8 {
        let mut k = Key([0; KEY_SIZE]);
        k.0[KEY_SIZE - 1] = i;
        nodes.push(Node::new(i as u16, k));
    }
    let initial = vec![entry(&target, nodes[4]), entry(&target, nodes[0]), entry(&target, nodes[2])];
    let mut l = Lookup::new(target, initial);
    assert!(!l.is_done());
    let round = l.next_round(2);
    let ports: Vec<u16> = round.iter().map(|e| e.node.port).collect();
    assert_eq!(ports, vec![1, 3]);
    l.record(round[0], Some(vec![entry(&target, nodes[1]), entry(&target, nodes[4])]));
    l.record(round[1], None);
    let round = l.next_round(3);
    let ports: Vec<u16> = round.iter().map(|e| e.node.port).collect();
    assert_eq!(ports, vec![2, 5]);
    assert!(l.is_done());
    l.record(round[0], Some(vec![entry(&target, nodes[6])]));
    l.record(round[1], Some(vec![]));
    let round = l.next_round(3);
    assert_eq!(round.len(), 1);
    l.record(round[0], Some(vec![entry(&target, nodes[0])]));
    assert!(l.is_done());
    let r = l.finish(20);
    let ports: Vec<u16> = r.iter().map(|e| e.node.port).collect();
    assert_eq!(ports, vec![1, 2, 5, 7]);
}

#[test]
fn lookup_result_is_bounded_and_distinct() {
    let target = Key([0; KEY_SIZE]);
    let mut l = Lookup::new(target, vec![]);
    assert!(l.is_done());
    let mut k1 = Key([0; KEY_SIZE]);
    k1.0[0] = 9;
    let mut k2 = Key([0; KEY_SIZE]);
    k2.0[0] = 4;
    let a = Node::new(1, k1);
    let b = Node::new(2, k2);
    l.record(entry(&target, a), Some(vec![]));
    l.record(entry(&target, b), Some(vec![]));
    l.record(entry(&target, a), Some(vec![]));
    let r = l.finish(1);
    assert_eq!(r.len(), 1);
    assert_eq!(r[0].node, b);
    let mut l = Lookup::new(target, vec![]);
    l.record(entry(&target, a), Some(vec![]));
    l.record(entry(&target, b), Some(vec![]));
    l.record(entry(&target, a), Some(vec![]));
    let r = l.finish(20);
    let ports: Vec<u16> = r.iter().map(|e| e.node.port).collect();
    assert_eq!(ports, vec![2, 1]);
}
