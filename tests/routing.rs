use kademlia::key::{Key, KEY_BITS, KEY_SIZE};
use kademlia::metric::bucket_index;
use kademlia::node::{Node, NodeDistance};
use kademlia::table::{KBucket, RoutingTable};

fn key_with_bit(p: usize, low: u8) -> Key {
    let mut k = Key([0; KEY_SIZE]);
    k.0[p / 8] |= 0x80 >> (p % 8);
    k.0[KEY_SIZE - 1] |= low;
    k
}

fn owner() -> Node {
    Node::new(1, Key([0; KEY_SIZE]))
}

fn sorted(v: &[NodeDistance]) -> bool {
    v.windows(2).all(|w| w[0].distance <= w[1].distance)
}

#[test]
fn new_table_is_empty() {
    let t = RoutingTable::new(owner(), KEY_BITS, 20);
    assert_eq!(t.get_kbuckets().len(), KEY_BITS);
    for (i, b) in t.get_kbuckets().iter().enumerate() {
        assert_eq!(b.size, i);
        assert!(b.nodes.is_empty());
    }
    assert!(t.known_nodes().is_empty());
    assert!(t.get_closest_nodes(&Key([9; KEY_SIZE]), 5).is_empty());
}

#[test]
fn kbucket_new_is_empty() {
    let b = KBucket::new(4);
    assert_eq!(b.size, 4);
    assert!(b.nodes.is_empty());
}

#[test]
fn update_places_node_in_its_bucket() {
    let mut t = RoutingTable::new(owner(), KEY_BITS, 20);
    let n = Node::new(2, key_with_bit(10, 0));
    t.update(n);
    assert_eq!(t.get_kbuckets()[10].nodes, vec![n]);
    assert_eq!(t.known_nodes(), vec![n]);
    let r = t.get_closest_nodes(&n.id, 5);
    assert_eq!(r.len(), 1);
    assert_eq!(r[0].node, n);
    assert_eq!(r[0].distance, n.id.distance(&n.id));
}

#[test]
fn update_refreshes_existing_node() {
    let mut t = RoutingTable::new(owner(), KEY_BITS, 20);
    let a = Node::new(2, key_with_bit(10, 1));
    let b = Node::new(3, key_with_bit(10, 2));
    t.update(a);
    t.update(b);
    let a2 = Node::new(4, a.id);
    t.update(a2);
    assert_eq!(t.get_kbuckets()[10].nodes, vec![b, a2]);
}

#[test]
fn full_bucket_ignores_new_node() {
    let mut t = RoutingTable::new(owner(), KEY_BITS, 2);
    let a = Node::new(2, key_with_bit(5, 1));
    let b = Node::new(3, key_with_bit(5, 2));
    let c = Node::new(4, key_with_bit(5, 3));
    t.update(a);
    t.update(b);
    t.update(c);
    assert_eq!(t.get_kbuckets()[5].nodes, vec![a, b]);
    t.update(a);
    assert_eq!(t.get_kbuckets()[5].nodes, vec![a, b]);
}

#[test]
fn remove_forgets_node_and_tolerates_absent() {
    let mut t = RoutingTable::new(owner(), KEY_BITS, 20);
    let a = Node::new(2, key_with_bit(7, 1));
    let b = Node::new(3, key_with_bit(7, 2));
    t.update(a);
    t.update(b);
    t.remove(&a.id);
    assert_eq!(t.get_kbuckets()[7].nodes, vec![b]);
    let r = t.get_closest_nodes(&a.id, 10);
    assert!(r.iter().all(|e| e.node.id != a.id));
    t.remove(&a.id);
    t.remove(&Key([0xaa; KEY_SIZE]));
    assert_eq!(t.known_nodes(), vec![b]);
}

#[test]
fn closest_nodes_sorted_and_bounded() {
    let mut t = RoutingTable::new(owner(), KEY_BITS, 20);
    let mut all = vec![];
    for p in [0usize, 3, 9, 40, 100, 200, 247] {
        for low in 1..4u8 {
            let n = Node::new(p as u16 * 10 + low as u16, key_with_bit(p, low));
            t.update(n);
            all.push(n);
        }
    }
    assert_eq!(t.known_nodes().len(), all.len());
    let target = key_with_bit(40, 0);
    assert_eq!(bucket_index(&owner().id, &target), 40);
    assert!(t.get_closest_nodes(&target, 0).is_empty());
    for count in [1usize, 2, 3, 4, 10, 21, 50] {
        let r = t.get_closest_nodes(&target, count);
        assert_eq!(r.len(), count.min(all.len()));
        assert!(sorted(&r));
        for e in &r {
            assert!(all.contains(&e.node));
            assert_eq!(e.distance, e.node.id.distance(&target));
        }
    }
    let r = t.get_closest_nodes(&target, 3);
    let ports: Vec<u16> = r.iter().map(|e| e.node.port).collect();
    assert_eq!(ports, vec![401, 402, 403]);
    let everything = t.get_closest_nodes(&target, 100);
    assert_eq!(everything.len(), all.len());
}
