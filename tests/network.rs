use kademlia::key::{Key, KEY_BITS};
use kademlia::lookup::Lookup;
use kademlia::messages::{Message, Request, Response, RpcRequest};
use kademlia::node::{Node, NodeDistance};
use kademlia::protocol::{on_find_node_reply, on_ping_reply, respond, KademliaConfig};
use kademlia::table::RoutingTable;

const NODE_COUNT: usize = 64;
const BASE_PORT: u16 = 10000;

/// Peers that exchange messages by direct calls instead of datagrams.
struct Network {
    tables: Vec<RoutingTable>,
    config: KademliaConfig,
    next_token: usize,
}

impl Network {
    fn new() -> Self {
        Network { tables: vec![], config: KademliaConfig::default(), next_token: 0 }
    }

    fn start(&mut self) -> usize {
        let port = BASE_PORT + self.tables.len() as u16;
        let node = Node::new(port, Key::new(port.to_string()));
        let mut table = RoutingTable::new(node, KEY_BITS, self.config.k_param);
        table.update(node);
        self.tables.push(table);
        self.tables.len() - 1
    }

    fn node(&self, i: usize) -> Node {
        Node::for_port(BASE_PORT + i as u16)
    }

    fn known(&self, i: usize) -> Vec<Node> {
        self.tables[i].known_nodes()
    }

    fn call(&mut self, from: usize, dst: Node, payload: Request) -> Option<Response> {
        let to = dst.port.checked_sub(BASE_PORT)? as usize;
        if to >= self.tables.len() {
            return None;
        }
        self.next_token += 1;
        let request = RpcRequest { token: self.next_token, source: self.node(from).port, payload };
        let reply = respond(&mut self.tables[to], request, dst.port, self.config.k_param);
        assert_eq!(reply.token, self.next_token);
        match reply.message {
            Message::Response(r) => Some(r),
            Message::Request(_) => None,
        }
    }

    fn ping(&mut self, from: usize, dst: Node) -> bool {
        let reply = self.call(from, dst, Request::Ping);
        on_ping_reply(&mut self.tables[from], dst, reply)
    }

    fn find_node(&mut self, from: usize, dst: Node, id: Key) -> Option<Vec<NodeDistance>> {
        let reply = self.call(from, dst, Request::FindNode(id));
        on_find_node_reply(&mut self.tables[from], dst, reply)
    }

    fn lookup(&mut self, from: usize, id: Key) -> Vec<NodeDistance> {
        let initial = self.tables[from].get_closest_nodes(&id, self.config.k_param);
        let mut lookup = Lookup::new(id, initial);
        while !lookup.is_done() {
            let queries = lookup.next_round(self.config.alpha);
            for query in queries {
                let reply = self.find_node(from, query.node, id);
                lookup.record(query, reply);
            }
        }
        lookup.finish(self.config.k_param)
    }

    fn bootstrap(&mut self, from: usize, seed: Node) {
        self.tables[from].update(seed);
        let own = self.node(from).id;
        self.lookup(from, own);
    }
}

#[test]
fn node_finding_in_memory() {
    let mut net = Network::new();
    let nodes: Vec<usize> = (0..NODE_COUNT).map(|_| net.start()).collect();
    for &n in &nodes {
        assert_eq!(net.known(n), vec![net.node(n)], "Nodes shouldn't have any node but itself");
    }

    let seed = net.start();
    for &n in &nodes {
        assert!(net.ping(seed, net.node(n)));
        assert_eq!(net.known(n).len(), 2);
    }

    let new_node = net.start();
    let new_node_id = net.node(new_node).id;
    assert_eq!(net.known(new_node).len(), 1, "There should be only one know node, itself");
    assert!(net.ping(new_node, net.node(seed)));
    assert_eq!(net.known(new_node).len(), 2, "There should be two nodes seed and itself");

    for &n in &nodes {
        let f = net.find_node(n, net.node(seed), new_node_id);
        assert!(f.is_some(), "Node should be able to find any node");
        net.bootstrap(n, net.node(seed));
    }

    assert!(net.known(new_node).len() > 2, "At least 1 node should have connected to node in process");

    let missing = Node::new(9999, Key::new(9999.to_string()));
    assert!(!net.ping(new_node, missing), "This node should not exist");
    assert!(net.known(new_node).iter().all(|n| n.id != missing.id));
}

#[test]
fn lookup_finds_sorted_distinct_bounded_results() {
    let mut net = Network::new();
    let nodes: Vec<usize> = (0..30).map(|_| net.start()).collect();
    for &n in &nodes[1..] {
        assert!(net.ping(n, net.node(0)));
    }
    let target = Key::new("target".to_owned());
    let r = net.lookup(5, target);
    assert!(!r.is_empty());
    assert!(r.len() <= net.config.k_param);
    assert!(r.windows(2).all(|w| w[0].distance < w[1].distance));
    for e in &r {
        assert_eq!(e.distance, e.node.id.distance(&target));
    }
}
