use crate::key::{sha256_of_text, Distance, Key, KEY_SIZE};
use vstd::multiset::Multiset;
use vstd::prelude::*;

verus! {

/// The host on which every peer of this deployment listens.
pub const LOCAL_HOST: &'static str = "192.168.1.102";

/// The character of a decimal digit.
pub open spec fn digit_char(d: nat) -> char {
    seq!['0', '1', '2', '3', '4', '5', '6', '7', '8', '9'][d as int]
}

/// The decimal digits of `n`, most significant first, without leading zeros.
pub open spec fn decimal_digits(n: nat) -> Seq<char>
    decreases n,
{
    if n < 10 {
        seq![digit_char(n)]
    } else {
        decimal_digits(n / 10).push(digit_char(n % 10))
    }
}

/// The decimal text of a port number.
pub open spec fn decimal_text(port: u16) -> Seq<char> {
    decimal_digits(port as nat)
}

/// Relies on `format!` with u16's `Display`: the host, a colon, then the
/// port's decimal digits.
#[verifier::external_body]
fn join_host_port(host: &str, port: u16) -> (r: String)
    ensures
        r@ == host@ + seq![':'] + decimal_text(port),
{
    format!("{}:{}", host, port)
}

/// Relies on u16's `Display` (through `to_string`): the port's decimal digits.
#[verifier::external_body]
fn decimal(port: u16) -> (r: String)
    ensures
        r@ == decimal_text(port),
{
    port.to_string()
}

/// The identifier of the peer that listens on `port`: the hash of the
/// port's decimal text.
pub open spec fn port_id(port: u16) -> Seq<u8> {
    sha256_of_text(decimal_text(port))
}

/// A routing entry: the port a peer listens on and its identifier.
#[derive(Clone, Copy, PartialEq, Eq, Hash, Debug)]
pub struct Node {
    pub port: u16,
    pub id: Key,
}

impl Node {
    pub fn new(port: u16, id: Key) -> (r: Node)
        ensures
            r.port == port,
            r.id == id,
    {
        Node { port, id }
    }

    /// The node that listens on `port`, named after it.
    pub fn for_port(port: u16) -> (r: Node)
        ensures
            r.port == port,
            r.id@ == port_id(port),
    {
        Node { port, id: Key::new(decimal(port)) }
    }

    /// The socket address of this peer on the shared host.
    pub fn get_addr(&self) -> (r: String)
        ensures
            r@ == LOCAL_HOST@ + seq![':'] + decimal_text(self.port),
    {
        join_host_port(LOCAL_HOST, self.port)
    }
}

/// A node together with its distance to some target key. Two entries are
/// equal when their distances are: for one target, that is when their
/// identifiers are.
#[derive(Clone, Copy, Eq, Debug)]
pub struct NodeDistance {
    pub node: Node,
    pub distance: Distance,
}

impl NodeDistance {
    pub fn new(node: Node, distance: Distance) -> (r: NodeDistance)
        ensures
            r.node == node,
            r.distance == distance,
    {
        NodeDistance { node, distance }
    }
}

impl PartialEq for NodeDistance {
    fn eq(&self, other: &NodeDistance) -> (r: bool) {
        let mut i: usize = 0;
        while i < KEY_SIZE
            invariant
                i <= KEY_SIZE,
                forall|j: int| 0 <= j < i ==> self.distance@[j] == other.distance@[j],
            decreases KEY_SIZE - i,
        {
            if self.distance.0[i] != other.distance.0[i] {
                return false;
            }
            i = i + 1;
        }
        assert(self.distance@ =~= other.distance@);
        true
    }
}

impl vstd::std_specs::cmp::PartialEqSpecImpl for NodeDistance {
    open spec fn obeys_eq_spec() -> bool {
        true
    }

    open spec fn eq_spec(&self, other: &NodeDistance) -> bool {
        self.distance@ == other.distance@
    }
}

/// Whether the entries of `s` carry pairwise distinct node identifiers.
pub open spec fn distinct_ids(s: Seq<NodeDistance>) -> bool {
    forall|i: int, j: int|
        0 <= i < s.len() && 0 <= j < s.len() && i != j ==> (#[trigger] s[i]).node.id@ != (
        #[trigger] s[j]).node.id@
}

/// A reordering of entries with distinct identifiers keeps them distinct.
pub proof fn lemma_reorder_keeps_distinct_ids(a: Seq<NodeDistance>, b: Seq<NodeDistance>)
    requires
        a.to_multiset() == b.to_multiset(),
        distinct_ids(a),
    ensures
        distinct_ids(b),
{
    broadcast use vstd::seq_lib::group_seq_properties;

    assert(a.no_duplicates()) by {
        assert forall|i: int, j: int| 0 <= i < a.len() && 0 <= j < a.len() && i != j implies a[i] != a[j] by {
            assert(a[i].node.id@ != a[j].node.id@);
        }
    }
    a.lemma_multiset_has_no_duplicates();
    b.lemma_multiset_has_no_duplicates_conv();
    assert forall|i: int, j: int|
        0 <= i < b.len() && 0 <= j < b.len() && i != j implies (#[trigger] b[i]).node.id@ != (
        #[trigger] b[j]).node.id@ by {
        assert(b[i] != b[j]);
        assert(b.to_multiset().count(b[i]) > 0 && b.to_multiset().count(b[j]) > 0);
        assert(a.contains(b[i]) && a.contains(b[j]));
        let p = choose|p: int| 0 <= p < a.len() && a[p] == b[i];
        let q = choose|q: int| 0 <= q < a.len() && a[q] == b[j];
        assert(p != q);
    }
}

/// Byte-wise comparison of `a` and `b` from byte `i` on: whether `a` is no
/// greater than `b`, most significant byte first.
pub open spec fn le_from(a: Seq<u8>, b: Seq<u8>, i: int) -> bool
    decreases KEY_SIZE - i,
{
    if i < 0 || i >= KEY_SIZE {
        true
    } else if a[i] < b[i] {
        true
    } else if a[i] > b[i] {
        false
    } else {
        le_from(a, b, i + 1)
    }
}

/// Whether distance `a` is no greater than distance `b`.
pub open spec fn dist_le(a: Seq<u8>, b: Seq<u8>) -> bool {
    le_from(a, b, 0)
}

/// Whether entries are in non-decreasing order of distance.
pub open spec fn sorted_by_distance(s: Seq<NodeDistance>) -> bool {
    forall|i: int, j: int|
        0 <= i < j < s.len() ==> dist_le(#[trigger] s[i].distance@, #[trigger] s[j].distance@)
}

pub proof fn lemma_le_total(a: Seq<u8>, b: Seq<u8>, i: int)
    ensures
        le_from(a, b, i) || le_from(b, a, i),
    decreases KEY_SIZE - i,
{
    if 0 <= i < KEY_SIZE && a[i] == b[i] {
        lemma_le_total(a, b, i + 1);
    }
}

pub proof fn lemma_le_transitive(a: Seq<u8>, b: Seq<u8>, c: Seq<u8>, i: int)
    requires
        le_from(a, b, i),
        le_from(b, c, i),
    ensures
        le_from(a, c, i),
    decreases KEY_SIZE - i,
{
    if 0 <= i < KEY_SIZE && a[i] == b[i] && b[i] == c[i] {
        lemma_le_transitive(a, b, c, i + 1);
    }
}

/// Whether distance `a` is no greater than distance `b`.
pub fn distance_le(a: &Distance, b: &Distance) -> (r: bool)
    ensures
        r == dist_le(a@, b@),
{
    let mut i: usize = 0;
    while i < KEY_SIZE
        invariant
            i <= KEY_SIZE,
            le_from(a@, b@, 0) == le_from(a@, b@, i as int),
        decreases KEY_SIZE - i,
    {
        if a.0[i] < b.0[i] {
            return true;
        }
        if a.0[i] > b.0[i] {
            return false;
        }
        i = i + 1;
    }
    true
}

proof fn lemma_insert_multiset<A>(s: Seq<A>, p: int, x: A)
    requires
        0 <= p <= s.len(),
    ensures
        s.insert(p, x).to_multiset() == s.to_multiset().insert(x),
{
    broadcast use vstd::seq_lib::group_seq_properties;

    let t = s.insert(p, x);
    s.insert_ensures(p, x);
    assert(t.remove(p) =~= s);
    t.to_multiset_ensures();
    assert(t.to_multiset().count(x) > 0) by {
        assert(t[p] == x);
        assert(t.contains(x));
    }
    assert(t.to_multiset() =~= s.to_multiset().insert(x));
}

/// Sorts entries by ascending distance; equal distances keep no particular order.
pub fn sort_by_distance(v: Vec<NodeDistance>) -> (r: Vec<NodeDistance>)
    ensures
        r@.to_multiset() == v@.to_multiset(),
        sorted_by_distance(r@),
{
    broadcast use vstd::seq_lib::group_seq_properties;

    let mut out: Vec<NodeDistance> = Vec::new();
    let mut i: usize = 0;
    while i < v.len()
        invariant
            i <= v.len(),
            out@.to_multiset() == v@.subrange(0, i as int).to_multiset(),
            sorted_by_distance(out@),
        decreases v.len() - i,
    {
        let x = v[i];
        let mut p: usize = 0;
        while p < out.len() && distance_le(&out[p].distance, &x.distance)
            invariant
                p <= out.len(),
                forall|q: int| 0 <= q < p ==> dist_le(#[trigger] out@[q].distance@, x.distance@),
            decreases out.len() - p,
        {
            p = p + 1;
        }
        let ghost before = out@;
        proof {
            if p < out.len() {
                lemma_le_total(before[p as int].distance@, x.distance@, 0);
                assert forall|q: int| p <= q < before.len() implies dist_le(
                    x.distance@,
                    #[trigger] before[q].distance@,
                ) by {
                    if q > p {
                        lemma_le_transitive(
                            x.distance@,
                            before[p as int].distance@,
                            before[q].distance@,
                            0,
                        );
                    }
                }
            }
            before.insert_ensures(p as int, x);
            lemma_insert_multiset(before, p as int, x);
        }
        out.insert(p, x);
        proof {
            assert(v@.subrange(0, i + 1) =~= v@.subrange(0, i as int).push(x));
            v@.subrange(0, i as int).to_multiset_ensures();
            assert(out@ == before.insert(p as int, x));
            assert forall|a: int, b: int| 0 <= a < b < out@.len() implies dist_le(
                #[trigger] out@[a].distance@,
                #[trigger] out@[b].distance@,
            ) by {
                if a < p && b > p {
                    assert(out@[b] == before[b - 1]);
                } else if a > p {
                    assert(out@[a] == before[a - 1] && out@[b] == before[b - 1]);
                }
            }
        }
        i = i + 1;
    }
    assert(v@.subrange(0, v.len() as int) =~= v@);
    out
}

} // verus!
