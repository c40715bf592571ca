use kademlia::key::{Distance, Key, KEY_BITS, KEY_SIZE};
use kademlia::metric::bucket_index;
use kademlia::node::{Node, NodeDistance};

fn key_with_bit(p: usize) -> Key {
    let mut k = Key([0; KEY_SIZE]);
    k.0[p / 8] |= 0x80 >> (p % 8);
    k
}

#[test]
fn bucket_index_test() {
    let key = Key::new("test".to_owned());
    assert_eq!(bucket_index(&key, &key), KEY_BITS - 1);

    let a = Key([0; KEY_SIZE]);
    let mut b = Key([0; KEY_SIZE]);
    b.0[KEY_SIZE - 1] = u8::MAX;
    assert_eq!(bucket_index(&a, &b), (KEY_SIZE - 1) * 8);
}

#[test]
fn key_is_sha256_of_seed() {
    let key = Key::new("test".to_owned());
    let expected: [u8; 32] = [
        0x9f, 0x86, 0xd0, 0x81, 0x88, 0x4c, 0x7d, 0x65, 0x9a, 0x2f, 0xea, 0xa0, 0xc5, 0x5a, 0xd0,
        0x15, 0xa3, 0xbf, 0x4f, 0x1b, 0x2b, 0x0b, 0x82, 0x2c, 0xd1, 0x5d, 0x6c, 0x15, 0xb0, 0xf0,
        0x0a, 0x08,
    ];
    assert_eq!(key.0, expected);
    assert_eq!(Key::new("test".to_owned()), key);
    assert_ne!(Key::new("tesu".to_owned()), key);
}

#[test]
fn distance_to_self_is_zero() {
    let a = Key::new("10000".to_owned());
    assert_eq!(a.distance(&a), Distance([0; KEY_SIZE]));
    assert_eq!(bucket_index(&a, &a), KEY_BITS - 1);
}

#[test]
fn distance_is_symmetric_xor() {
    let a = Key::new("a".to_owned());
    let b = Key::new("b".to_owned());
    assert_eq!(a.distance(&b), b.distance(&a));
    let d = Distance::new(&a, &b);
    for i in 0..KEY_SIZE {
        assert_eq!(d.0[i], a.0[i] ^ b.0[i]);
    }
}

#[test]
fn single_bit_difference_gives_its_position() {
    let zero = Key([0; KEY_SIZE]);
    for p in [0usize, 1, 7, 8, 100, 254, 255] {
        assert_eq!(bucket_index(&zero, &key_with_bit(p)), p);
    }
    let base = Key::new("x".to_owned());
    let mut other = base;
    other.0[3] ^= 0x10;
    assert_eq!(bucket_index(&base, &other), 3 * 8 + 3);
}

#[test]
fn highest_set_bit_decides_bucket() {
    let zero = Key([0; KEY_SIZE]);
    let mut k = Key([0; KEY_SIZE]);
    k.0[2] = 0b0010_0101;
    k.0[9] = 0xff;
    assert_eq!(bucket_index(&zero, &k), 2 * 8 + 2);
}

#[test]
fn node_address_and_port_identity() {
    let n = Node::for_port(10000);
    assert_eq!(n.port, 10000);
    assert_eq!(n.id, Key::new("10000".to_owned()));
    assert_eq!(n.get_addr(), "192.168.1.102:10000");
    let m = Node::new(7, Key([1; KEY_SIZE]));
    assert_eq!(m.get_addr(), "192.168.1.102:7");
}

#[test]
fn node_distance_equality_is_by_distance() {
    let target = Key::new("t".to_owned());
    let a = Node::new(1, Key::new("a".to_owned()));
    let b = Node::new(2, Key::new("b".to_owned()));
    let ea = NodeDistance::new(a, a.id.distance(&target));
    let eb = NodeDistance::new(b, b.id.distance(&target));
    assert_ne!(ea, eb);
    let moved = NodeDistance::new(Node::new(9, a.id), a.id.distance(&target));
    assert_eq!(ea, moved);
}
