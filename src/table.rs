use crate::key::{xor_bytes, Key, KEY_BITS};
use crate::metric::{bit_set, bucket_index, bucket_of, first_set_bit_from};
use crate::node::{
    dist_le, distinct_ids, lemma_reorder_keeps_distinct_ids, sort_by_distance, sorted_by_distance,
    Node, NodeDistance,
};
use vstd::prelude::*;

verus! {

/// A capacity-bounded list of peers, oldest first; `size` is the bucket's
/// index in its table, fixed at creation.
#[derive(Debug)]
pub struct KBucket {
    pub nodes: Vec<Node>,
    pub size: usize,
}

impl KBucket {
    pub fn new(size: usize) -> (r: KBucket)
        ensures
            r.nodes@ == Seq::<Node>::empty(),
            r.size == size,
    {
        KBucket { nodes: Vec::new(), size }
    }
}

/// Keeps the nodes whose identifier is not `id`.
pub open spec fn other_id(id: Seq<u8>) -> spec_fn(Node) -> bool {
    |n: Node| n.id@ != id
}

/// The nodes of `s` without the ones whose identifier is `id`, in order.
pub open spec fn without_id(s: Seq<Node>, id: Seq<u8>) -> Seq<Node> {
    s.filter(other_id(id))
}

/// Whether no two nodes of `s` share an identifier.
pub open spec fn distinct_node_ids(s: Seq<Node>) -> bool {
    forall|i: int, j: int| 0 <= i < j < s.len() ==> (#[trigger] s[i]).id@ != (#[trigger] s[j]).id@
}

proof fn lemma_without_id_distinct(s: Seq<Node>, id: Seq<u8>)
    requires
        distinct_node_ids(s),
    ensures
        distinct_node_ids(without_id(s, id)),
    decreases s.len(),
{
    reveal(Seq::filter);
    if s.len() > 0 {
        let rest = s.drop_last();
        assert(distinct_node_ids(rest)) by {
            assert forall|i: int, j: int| 0 <= i < j < rest.len() implies (#[trigger] rest[i]).id@ != (
            #[trigger] rest[j]).id@ by {
                assert(rest[i] == s[i] && rest[j] == s[j]);
            }
        }
        lemma_without_id_distinct(rest, id);
        let f = without_id(rest, id);
        if other_id(id)(s.last()) {
            assert(s.filter(other_id(id)) == f.push(s.last()));
            assert forall|i: int| 0 <= i < f.len() implies (#[trigger] f[i]).id@ != s.last().id@ by {
                assert(f.contains(f[i]));
                rest.lemma_filter_contains_rev(other_id(id), f[i]);
                let k = choose|k: int| 0 <= k < rest.len() && rest[k] == f[i];
                assert(s[k] == rest[k]);
            }
            let g = f.push(s.last());
            assert forall|i: int, j: int| 0 <= i < j < g.len() implies (#[trigger] g[i]).id@ != (
            #[trigger] g[j]).id@ by {
                if j < f.len() {
                    assert(g[i] == f[i] && g[j] == f[j]);
                } else {
                    assert(g[i] == f[i]);
                }
            }
        } else {
            assert(s.filter(other_id(id)) == f);
        }
    }
}

/// Whether some entry of `s` is for node `n`.
pub open spec fn has_node(s: Seq<NodeDistance>, n: Node) -> bool {
    exists|i: int| 0 <= i < s.len() && (#[trigger] s[i]).node == n
}

/// Total number of nodes in buckets `lo .. hi`.
pub open spec fn lens_sum(b: Seq<KBucket>, lo: int, hi: int) -> int
    decreases hi - lo,
{
    if hi <= lo {
        0
    } else {
        lens_sum(b, lo, hi - 1) + b[hi - 1].nodes@.len()
    }
}

proof fn lemma_lens_sum_down(b: Seq<KBucket>, lo: int, hi: int)
    requires
        0 < lo <= hi,
    ensures
        lens_sum(b, lo - 1, hi) == b[lo - 1].nodes@.len() + lens_sum(b, lo, hi),
    decreases hi - lo,
{
    reveal_with_fuel(lens_sum, 2);
    if lo < hi {
        lemma_lens_sum_down(b, lo, hi - 1);
    }
}

proof fn lemma_lens_sum_nonneg(b: Seq<KBucket>, lo: int, hi: int)
    ensures
        lens_sum(b, lo, hi) >= 0,
    decreases hi - lo,
{
    if lo < hi {
        lemma_lens_sum_nonneg(b, lo, hi - 1);
    }
}

proof fn lemma_lens_sum_split(b: Seq<KBucket>, x: int, y: int, z: int)
    requires
        x <= y <= z,
    ensures
        lens_sum(b, x, z) == lens_sum(b, x, y) + lens_sum(b, y, z),
    decreases z - y,
{
    if y < z {
        lemma_lens_sum_split(b, x, y, z - 1);
    }
}

proof fn lemma_lens_sum_zero(b: Seq<KBucket>, x: int, y: int, j: int)
    requires
        x <= j < y,
        lens_sum(b, x, y) == 0,
    ensures
        b[j].nodes@.len() == 0,
    decreases y - x,
{
    lemma_lens_sum_nonneg(b, x, y - 1);
    if j < y - 1 {
        lemma_lens_sum_zero(b, x, y - 1, j);
    }
}

proof fn lemma_lens_sum_within(b: Seq<KBucket>, lo: int, hi: int, n: int)
    requires
        0 <= lo <= hi <= n,
    ensures
        0 <= lens_sum(b, lo, hi) <= lens_sum(b, 0, n),
    decreases lo + (n - hi),
{
    lemma_lens_sum_nonneg(b, lo, hi);
    if hi < n {
        lemma_lens_sum_within(b, lo, hi + 1, n);
    } else if lo > 0 {
        lemma_lens_sum_down(b, lo, hi);
        lemma_lens_sum_within(b, lo - 1, hi, n);
    }
}

proof fn lemma_first_set_bit_range(d: Seq<u8>, p: int)
    requires
        p >= 0,
    ensures
        0 <= first_set_bit_from(d, p) < KEY_BITS,
    decreases KEY_BITS - p,
{
    if p < KEY_BITS && !bit_set(d, p) {
        lemma_first_set_bit_range(d, p + 1);
    }
}

/// Every key has a bucket index below the number of key bits.
pub proof fn lemma_bucket_of_range(owner: Seq<u8>, other: Seq<u8>)
    ensures
        0 <= bucket_of(owner, other) < KEY_BITS,
{
    lemma_first_set_bit_range(xor_bytes(owner, other), 0);
}

/// The nodes known to a peer, filed in buckets by their distance to it.
#[derive(Debug)]
pub struct RoutingTable {
    node: Node,
    kbuckets: Vec<KBucket>,
    k_param: usize,
}

impl RoutingTable {
    /// The node that owns this table.
    pub closed spec fn owner(&self) -> Node {
        self.node
    }

    /// The capacity of each bucket.
    pub closed spec fn k(&self) -> nat {
        self.k_param as nat
    }

    pub closed spec fn buckets(&self) -> Seq<KBucket> {
        self.kbuckets@
    }

    /// The nodes of bucket `i`, oldest first.
    pub open spec fn bucket(&self, i: int) -> Seq<Node> {
        self.buckets()[i].nodes@
    }

    /// The bucket in which a node with identifier `id` is filed.
    pub open spec fn bucket_for(&self, id: Seq<u8>) -> int {
        bucket_of(self.owner().id@, id)
    }

    /// Whether `n` is a known node.
    pub open spec fn knows(&self, n: Node) -> bool {
        self.bucket(self.bucket_for(n.id@)).contains(n)
    }

    /// The number of known nodes.
    pub open spec fn known_count(&self) -> int {
        lens_sum(self.buckets(), 0, self.buckets().len() as int)
    }

    /// The table's invariant: one bucket per key bit at least, each bucket
    /// remembers its index, holds at most `k` nodes, holds only nodes that
    /// belong in it, and holds no identifier twice.
    pub open spec fn wf(&self) -> bool {
        &&& self.buckets().len() >= KEY_BITS
        &&& forall|i: int|
            0 <= i < self.buckets().len() ==> (#[trigger] self.buckets()[i]).size == i
                && self.buckets()[i].nodes@.len() <= self.k()
        &&& forall|i: int, j: int|
            0 <= i < self.buckets().len() && 0 <= j < self.bucket(i).len() ==> self.bucket_for(
                (#[trigger] self.buckets()[i].nodes@[j]).id@,
            ) == i
        &&& forall|i: int| 0 <= i < self.buckets().len() ==> distinct_node_ids(#[trigger] self.bucket(i))
    }

    /// A table for `node` with `n_buckets` empty buckets of capacity `k_param`.
    pub fn new(node: Node, n_buckets: usize, k_param: usize) -> (r: RoutingTable)
        requires
            n_buckets >= KEY_BITS,
        ensures
            r.wf(),
            r.owner() == node,
            r.k() == k_param,
            r.buckets().len() == n_buckets,
            forall|i: int| 0 <= i < n_buckets ==> #[trigger] r.bucket(i).len() == 0,
    {
        let mut kbuckets: Vec<KBucket> = Vec::new();
        let mut i: usize = 0;
        while i < n_buckets
            invariant
                i <= n_buckets,
                kbuckets@.len() == i,
                forall|j: int|
                    0 <= j < i ==> (#[trigger] kbuckets@[j]).size == j && kbuckets@[j].nodes@.len()
                        == 0,
            decreases n_buckets - i,
        {
            kbuckets.push(KBucket::new(i));
            i = i + 1;
        }
        RoutingTable { node, kbuckets, k_param }
    }

    pub fn get_kbuckets(&self) -> (r: &[KBucket])
        ensures
            r@ == self.buckets(),
    {
        self.kbuckets.as_slice()
    }

    /// Records `node` as the most recently seen node of its bucket, unless
    /// the bucket is full; a full bucket is left as it is.
    pub fn update(&mut self, node: Node)
        requires
            old(self).wf(),
        ensures
            updated(*old(self), *final(self), node),
    {
        let b = bucket_index(&self.node.id, &node.id);
        if self.kbuckets[b].nodes.len() < self.k_param {
            let mut nodes = nodes_without(&self.kbuckets[b].nodes, &node.id);
            nodes.push(node);
            let size = self.kbuckets[b].size;
            proof {
                let old_nodes = self.kbuckets@[b as int].nodes@;
                broadcast use vstd::seq_lib::group_filter_ensures;
                assert forall|j: int| 0 <= j < nodes@.len() implies self.bucket_for(
                    (#[trigger] nodes@[j]).id@,
                ) == b by {
                    if j < nodes@.len() - 1 {
                        let f = without_id(old_nodes, node.id@);
                        assert(nodes@[j] == f[j]);
                        assert(f.contains(f[j]));
                        old_nodes.lemma_filter_contains_rev(other_id(node.id@), f[j]);
                    }
                }
                let f = without_id(old_nodes, node.id@);
                assert(distinct_node_ids(old_nodes) == distinct_node_ids(self.bucket(b as int)));
                lemma_without_id_distinct(old_nodes, node.id@);
                assert(nodes@ == f.push(node));
                assert forall|i: int, j: int| 0 <= i < j < nodes@.len() implies (#[trigger] nodes@[i]).id@ != (
                #[trigger] nodes@[j]).id@ by {
                    assert(nodes@[i] == f[i]);
                    if j < f.len() {
                        assert(nodes@[j] == f[j]);
                    }
                }
            }
            self.kbuckets.set(b, KBucket { nodes, size });
        }
    }

    /// Forgets the node with identifier `node_id`; nothing happens when no
    /// such node is known.
    pub fn remove(&mut self, node_id: &Key)
        requires
            old(self).wf(),
        ensures
            removed(*old(self), *final(self), node_id@),
    {
        let b = bucket_index(&self.node.id, node_id);
        let nodes = nodes_without(&self.kbuckets[b].nodes, node_id);
        let size = self.kbuckets[b].size;
        proof {
            let old_nodes = self.kbuckets@[b as int].nodes@;
            broadcast use vstd::seq_lib::group_filter_ensures;
            assert forall|j: int| 0 <= j < nodes@.len() implies self.bucket_for(
                (#[trigger] nodes@[j]).id@,
            ) == b by {
                assert(nodes@.contains(nodes@[j]));
                old_nodes.lemma_filter_contains_rev(other_id(node_id@), nodes@[j]);
            }
            assert(distinct_node_ids(old_nodes) == distinct_node_ids(self.bucket(b as int)));
            lemma_without_id_distinct(old_nodes, node_id@);
        }
        self.kbuckets.set(b, KBucket { nodes, size });
    }
    /// Up to `count` known nodes near `key`, with their distances to it, in
    /// ascending order of distance. The scan starts at the bucket of `key`,
    /// widens towards higher indices, then towards lower ones, and stops once
    /// `count` candidates are collected; when fewer than `count` come back,
    /// every known node is among them.
    pub fn get_closest_nodes(&self, key: &Key, count: usize) -> (r: Vec<NodeDistance>)
        requires
            self.wf(),
        ensures
            closest_result(*self, key@, count as nat, r@),
    {
        if count == 0 {
            proof {
                lemma_lens_sum_nonneg(self.kbuckets@, 0, self.kbuckets@.len() as int);
                if self.known_count() == 0 {
                    assert forall|n: Node| #[trigger] self.knows(n) implies has_node(
                        Seq::<NodeDistance>::empty(),
                        n,
                    ) by {
                        lemma_bucket_of_range(self.node.id@, n.id@);
                        lemma_lens_sum_zero(
                            self.kbuckets@,
                            0,
                            self.kbuckets@.len() as int,
                            self.bucket_for(n.id@),
                        );
                    }
                }
            }
            return Vec::new();
        }
        let ghost bs = self.kbuckets@;
        let nb = self.kbuckets.len();
        let mut ret: Vec<NodeDistance> = Vec::new();
        let b = bucket_index(&self.node.id, key);
        proof {
            lemma_bucket_of_range(self.node.id@, key@);
        }
        append_bucket(&mut ret, &self.kbuckets[b].nodes, key);
        let mut hi: usize = b;
        let mut lo: usize = b;
        proof {
            reveal_with_fuel(lens_sum, 2);
            self.lemma_after_append(Seq::empty(), ret@, b as int, key@);
        }
        while ret.len() < count && hi < nb - 1
            invariant
                self.wf(),
                bs == self.kbuckets@,
                nb == bs.len(),
                lo == b,
                b <= hi < nb,
                ret@.len() == lens_sum(bs, lo as int, hi + 1),
                distinct_ids(ret@),
                hi == b || lens_sum(bs, b as int, hi as int) < count,
                forall|i: int|
                    0 <= i < ret@.len() ==> self.knows((#[trigger] ret@[i]).node) && ret@[i].distance@
                        == xor_bytes(ret@[i].node.id@, key@) && lo <= self.bucket_for(
                        ret@[i].node.id@,
                    ) <= hi,
                forall|i: int, n: Node|
                    lo <= i <= hi && #[trigger] self.bucket(i).contains(n) ==> has_node(ret@, n),
            decreases nb - hi,
        {
            hi = hi + 1;
            let ghost before = ret@;
            append_bucket(&mut ret, &self.kbuckets[hi].nodes, key);
            proof {
                self.lemma_after_append(before, ret@, hi as int, key@);
            }
        }
        while ret.len() < count && lo > 0
            invariant
                self.wf(),
                bs == self.kbuckets@,
                nb == bs.len(),
                0 <= lo <= b <= hi < nb,
                ret@.len() == lens_sum(bs, lo as int, hi + 1),
                distinct_ids(ret@),
                ret@.len() < count ==> hi == nb - 1,
                hi == b || lens_sum(bs, b as int, hi as int) < count,
                hi == nb - 1 || lens_sum(bs, b as int, hi + 1) >= count,
                lo == b || lens_sum(bs, lo + 1, hi + 1) < count,
                forall|i: int|
                    0 <= i < ret@.len() ==> self.knows((#[trigger] ret@[i]).node) && ret@[i].distance@
                        == xor_bytes(ret@[i].node.id@, key@) && lo <= self.bucket_for(
                        ret@[i].node.id@,
                    ) <= hi,
                forall|i: int, n: Node|
                    lo <= i <= hi && #[trigger] self.bucket(i).contains(n) ==> has_node(ret@, n),
            decreases lo,
        {
            lo = lo - 1;
            let ghost before = ret@;
            append_bucket(&mut ret, &self.kbuckets[lo].nodes, key);
            proof {
                lemma_lens_sum_down(bs, lo + 1, hi + 1);
                self.lemma_after_append(before, ret@, lo as int, key@);
            }
        }
        proof {
            lemma_lens_sum_within(bs, lo as int, hi + 1, nb as int);
        }
        let ghost unsorted = ret@;
        let mut sorted = sort_by_distance(ret);
        proof {
            broadcast use vstd::seq_lib::group_seq_properties;

            assert forall|i: int| 0 <= i < sorted@.len() implies self.knows(
                (#[trigger] sorted@[i]).node,
            ) && sorted@[i].distance@ == xor_bytes(sorted@[i].node.id@, key@) by {
                assert(sorted@.to_multiset().count(sorted@[i]) > 0);
                assert(unsorted.contains(sorted@[i]));
            }
            sorted@.to_multiset_ensures();
            unsorted.to_multiset_ensures();
            if sorted@.len() < count {
                assert(lo == 0 && hi == nb - 1);
                assert forall|n: Node| #[trigger] self.knows(n) implies has_node(sorted@, n) by {
                    lemma_bucket_of_range(self.node.id@, n.id@);
                    assert(self.bucket(self.bucket_for(n.id@)).contains(n));
                    assert(has_node(unsorted, n));
                    let i = choose|i: int| 0 <= i < unsorted.len() && (#[trigger] unsorted[i]).node == n;
                    assert(unsorted.to_multiset().count(unsorted[i]) > 0);
                    assert(sorted@.contains(unsorted[i]));
                }
            }
        }
        let ghost full = sorted@;
        proof {
            lemma_reorder_keeps_distinct_ids(unsorted, full);
            if count >= self.known_count() {
                lemma_lens_sum_within(bs, lo as int, hi + 1, nb as int);
                if !(lo == 0 && hi == nb - 1) {
                    self.lemma_full_window(lo as int, hi as int);
                }
                assert forall|n: Node| #[trigger] self.knows(n) implies has_node(full, n) by {
                    lemma_bucket_of_range(self.node.id@, n.id@);
                    assert(self.bucket(self.bucket_for(n.id@)).contains(n));
                    assert(has_node(unsorted, n));
                    let i = choose|i: int| 0 <= i < unsorted.len() && (#[trigger] unsorted[i]).node == n;
                    assert(unsorted.to_multiset().count(unsorted[i]) > 0);
                    assert(full.contains(unsorted[i]));
                }
            }
        }
        sorted.truncate(count);
        proof {
            broadcast use vstd::seq_lib::group_seq_properties;

            let r = sorted@;
            assert(distinct_ids(r)) by {
                assert forall|x: int, y: int|
                    0 <= x < r.len() && 0 <= y < r.len() && x != y implies (#[trigger] r[x]).node.id@
                    != (#[trigger] r[y]).node.id@ by {
                    assert(r[x] == full[x] && r[y] == full[y]);
                }
            }
            if count >= self.known_count() {
                assert(full.len() == unsorted.len());
                assert(r == full);
            }
            assert(scan_window(*self, b as int, count as nat, lo as int, hi as int));
            assert forall|i: int| 0 <= i < r.len() implies lo <= self.bucket_for(
                (#[trigger] r[i]).node.id@,
            ) <= hi by {
                assert(r[i] == full[i]);
                assert(full.to_multiset().count(full[i]) > 0);
                assert(unsorted.contains(full[i]));
            }
            assert forall|j: int, n: Node|
                lo <= j <= hi && #[trigger] self.bucket(j).contains(n) implies has_node(r, n)
                    || forall|i: int|
                    0 <= i < r.len() ==> dist_le(
                        (#[trigger] r[i]).distance@,
                        xor_bytes(n.id@, key@),
                    ) by {
                assert(has_node(unsorted, n));
                let q = choose|q: int| 0 <= q < unsorted.len() && (#[trigger] unsorted[q]).node == n;
                assert(unsorted.to_multiset().count(unsorted[q]) > 0);
                assert(full.contains(unsorted[q]));
                let m = choose|m: int| 0 <= m < full.len() && full[m] == unsorted[q];
                if m < r.len() {
                    assert(r[m] == full[m]);
                } else {
                    assert forall|i: int| 0 <= i < r.len() implies dist_le(
                        (#[trigger] r[i]).distance@,
                        xor_bytes(n.id@, key@),
                    ) by {
                        assert(r[i] == full[i]);
                        assert(dist_le(full[i].distance@, full[m].distance@));
                    }
                }
            }
            assert(nearest_in_window(*self, key@, lo as int, hi as int, r));
            assert(b == self.bucket_for(key@));
            assert(scan_window(*self, self.bucket_for(key@), count as nat, lo as int, hi as int));
        }
        sorted
    }

    /// When the buckets `lo ..= hi` hold every known node, the others are empty.
    proof fn lemma_full_window(&self, lo: int, hi: int)
        requires
            self.wf(),
            0 <= lo <= hi < self.buckets().len(),
            lens_sum(self.buckets(), lo, hi + 1) == self.known_count(),
        ensures
            forall|j: int, n: Node|
                0 <= j < self.buckets().len() && #[trigger] self.bucket(j).contains(n) ==> lo <= j <= hi,
    {
        let bs = self.buckets();
        let nb = bs.len() as int;
        lemma_lens_sum_split(bs, 0, lo, hi + 1);
        lemma_lens_sum_split(bs, 0, hi + 1, nb);
        lemma_lens_sum_nonneg(bs, 0, lo);
        lemma_lens_sum_nonneg(bs, hi + 1, nb);
        assert forall|j: int, n: Node|
            0 <= j < nb && #[trigger] self.bucket(j).contains(n) implies lo <= j <= hi by {
            if j < lo {
                lemma_lens_sum_zero(bs, 0, lo, j);
            } else if j > hi {
                lemma_lens_sum_zero(bs, hi + 1, nb, j);
            }
        }
    }

    proof fn lemma_after_append(
        &self,
        before: Seq<NodeDistance>,
        after: Seq<NodeDistance>,
        b: int,
        key: Seq<u8>,
    )
        requires
            self.wf(),
            0 <= b < self.buckets().len(),
            after.len() == before.len() + self.bucket(b).len(),
            forall|i: int| 0 <= i < before.len() ==> #[trigger] after[i] == before[i],
            forall|j: int|
                0 <= j < self.bucket(b).len() ==> (#[trigger] after[before.len() + j]).node
                    == self.bucket(b)[j] && after[before.len() + j].distance@ == xor_bytes(
                    self.bucket(b)[j].id@,
                    key,
                ),
            forall|i: int|
                0 <= i < before.len() ==> self.knows((#[trigger] before[i]).node)
                    && before[i].distance@ == xor_bytes(before[i].node.id@, key),
            distinct_ids(before),
            forall|i: int| 0 <= i < before.len() ==> self.bucket_for((#[trigger] before[i]).node.id@) != b,
        ensures
            distinct_ids(after),
            forall|i: int|
                0 <= i < after.len() ==> self.knows((#[trigger] after[i]).node) && after[i].distance@
                    == xor_bytes(after[i].node.id@, key),
            forall|i: int|
                before.len() <= i < after.len() ==> self.bucket_for((#[trigger] after[i]).node.id@)
                    == b,
            forall|n: Node| #[trigger] self.bucket(b).contains(n) ==> has_node(after, n),
            forall|n: Node| has_node(before, n) ==> has_node(after, n),
    {
        self.lemma_bucket_nodes_known(b);
        assert forall|i: int| 0 <= i < after.len() implies self.knows((#[trigger] after[i]).node)
            && after[i].distance@ == xor_bytes(after[i].node.id@, key) by {
            if i >= before.len() {
                let j = i - before.len();
                assert(after[before.len() + j].node == self.bucket(b)[j]);
                assert(self.bucket(b).contains(self.bucket(b)[j]));
            }
        }
        assert forall|i: int| before.len() <= i < after.len() implies self.bucket_for(
            (#[trigger] after[i]).node.id@,
        ) == b by {
            let j = i - before.len();
            assert(after[before.len() + j].node == self.bucket(b)[j]);
            assert(self.buckets()[b].nodes@[j] == self.bucket(b)[j]);
        }
        assert forall|n: Node| #[trigger] self.bucket(b).contains(n) implies has_node(after, n) by {
            let j = choose|j: int| 0 <= j < self.bucket(b).len() && self.bucket(b)[j] == n;
            assert(after[before.len() + j].node == n);
        }
        assert forall|x: int, y: int|
            0 <= x < after.len() && 0 <= y < after.len() && x != y implies (#[trigger] after[x]).node.id@
            != (#[trigger] after[y]).node.id@ by {
            if x < before.len() && y < before.len() {
                assert(after[x] == before[x] && after[y] == before[y]);
            } else if x < before.len() {
                assert(after[x] == before[x]);
                assert(self.bucket_for(after[y].node.id@) == b);
            } else if y < before.len() {
                assert(after[y] == before[y]);
                assert(self.bucket_for(after[x].node.id@) == b);
            } else {
                let jx = x - before.len();
                let jy = y - before.len();
                assert(after[before.len() + jx].node == self.bucket(b)[jx]);
                assert(after[before.len() + jy].node == self.bucket(b)[jy]);
                assert(distinct_node_ids(self.bucket(b)));
                if jx < jy {
                    assert(self.bucket(b)[jx].id@ != self.bucket(b)[jy].id@);
                } else {
                    assert(self.bucket(b)[jy].id@ != self.bucket(b)[jx].id@);
                }
            }
        }
        assert forall|n: Node| has_node(before, n) implies has_node(after, n) by {
            let i = choose|i: int| 0 <= i < before.len() && (#[trigger] before[i]).node == n;
            assert(after[i] == before[i]);
        }
    }

    proof fn lemma_bucket_nodes_known(&self, i: int)
        requires
            self.wf(),
            0 <= i < self.buckets().len(),
        ensures
            forall|n: Node| #[trigger] self.bucket(i).contains(n) ==> self.knows(n),
    {
        assert forall|n: Node| #[trigger] self.bucket(i).contains(n) implies self.knows(n) by {
            let j = choose|j: int| 0 <= j < self.bucket(i).len() && self.bucket(i)[j] == n;
            assert(self.buckets()[i].nodes@[j] == n);
        }
    }

    /// Every known node, bucket by bucket.
    pub fn known_nodes(&self) -> (r: Vec<Node>)
        requires
            self.wf(),
        ensures
            r@.len() == self.known_count(),
            forall|i: int| 0 <= i < r@.len() ==> self.knows(#[trigger] r@[i]),
            forall|n: Node| #[trigger] self.knows(n) ==> r@.contains(n),
    {
        let mut r: Vec<Node> = Vec::new();
        let mut b: usize = 0;
        while b < self.kbuckets.len()
            invariant
                self.wf(),
                b <= self.kbuckets@.len(),
                r@.len() == lens_sum(self.kbuckets@, 0, b as int),
                forall|i: int| 0 <= i < r@.len() ==> self.knows(#[trigger] r@[i]),
                forall|i: int, n: Node|
                    0 <= i < b && #[trigger] self.bucket(i).contains(n) ==> r@.contains(n),
            decreases self.kbuckets@.len() - b,
        {
            let nodes = &self.kbuckets[b].nodes;
            let ghost before = r@;
            let mut j: usize = 0;
            proof {
                self.lemma_bucket_nodes_known(b as int);
            }
            while j < nodes.len()
                invariant
                    self.wf(),
                    b < self.kbuckets@.len(),
                    nodes@ == self.bucket(b as int),
                    j <= nodes@.len(),
                    r@ == before + nodes@.subrange(0, j as int),
                    forall|i: int| 0 <= i < before.len() ==> self.knows(#[trigger] before[i]),
                    forall|n: Node| #[trigger] self.bucket(b as int).contains(n) ==> self.knows(n),
                    forall|i: int, n: Node|
                        0 <= i < b && #[trigger] self.bucket(i).contains(n) ==> before.contains(n),
                decreases nodes@.len() - j,
            {
                r.push(nodes[j]);
                j = j + 1;
                proof {
                    assert(r@ =~= before + nodes@.subrange(0, j as int));
                }
            }
            proof {
                assert(nodes@.subrange(0, nodes@.len() as int) =~= nodes@);
                assert forall|i: int| 0 <= i < r@.len() implies self.knows(#[trigger] r@[i]) by {
                    if i >= before.len() {
                        assert(r@[i] == nodes@[i - before.len()]);
                        assert(nodes@.contains(nodes@[i - before.len()]));
                    }
                }
                assert forall|i: int, n: Node|
                    0 <= i < b + 1 && #[trigger] self.bucket(i).contains(n) implies r@.contains(
                    n,
                ) by {
                    if i < b {
                        let k = choose|k: int| 0 <= k < before.len() && before[k] == n;
                        assert(r@[k] == n);
                    } else {
                        let k = choose|k: int| 0 <= k < nodes@.len() && nodes@[k] == n;
                        assert(r@[before.len() + k] == n);
                    }
                }
            }
            b = b + 1;
        }
        proof {
            assert forall|n: Node| #[trigger] self.knows(n) implies r@.contains(n) by {
                lemma_bucket_of_range(self.node.id@, n.id@);
            }
        }
        r
    }
}

/// Appends each node of `nodes` with its distance to `key`.
fn append_bucket(ret: &mut Vec<NodeDistance>, nodes: &Vec<Node>, key: &Key)
    ensures
        final(ret)@.len() == old(ret)@.len() + nodes@.len(),
        forall|i: int| 0 <= i < old(ret)@.len() ==> #[trigger] final(ret)@[i] == old(ret)@[i],
        forall|j: int|
            0 <= j < nodes@.len() ==> (#[trigger] final(ret)@[old(ret)@.len() + j]).node
                == nodes@[j] && final(ret)@[old(ret)@.len() + j].distance@ == xor_bytes(
                nodes@[j].id@,
                key@,
            ),
{
    let ghost start = ret@;
    let mut j: usize = 0;
    while j < nodes.len()
        invariant
            j <= nodes@.len(),
            ret@.len() == start.len() + j,
            forall|i: int| 0 <= i < start.len() ==> #[trigger] ret@[i] == start[i],
            forall|q: int|
                0 <= q < j ==> (#[trigger] ret@[start.len() + q]).node == nodes@[q]
                    && ret@[start.len() + q].distance@ == xor_bytes(nodes@[q].id@, key@),
        decreases nodes@.len() - j,
    {
        let n = nodes[j];
        let d = n.id.distance(key);
        ret.push(NodeDistance::new(n, d));
        j = j + 1;
    }
}
/// What `update` does: the table keeps its owner, capacity and invariant;
/// a node's bucket, when not full, loses any entry with the node's
/// identifier and gains the node at its end; a full bucket and all others
/// stay as they were.
pub open spec fn updated(before: RoutingTable, after: RoutingTable, node: Node) -> bool {
    let b = before.bucket_for(node.id@);
    &&& after.wf()
    &&& after.owner() == before.owner()
    &&& after.k() == before.k()
    &&& after.buckets().len() == before.buckets().len()
    &&& before.bucket(b).len() < before.k() ==> after.bucket(b) == without_id(
        before.bucket(b),
        node.id@,
    ).push(node)
    &&& before.bucket(b).len() >= before.k() ==> after.bucket(b) == before.bucket(b)
    &&& forall|i: int|
        0 <= i < before.buckets().len() && i != b ==> #[trigger] after.bucket(i) == before.bucket(i)
}

/// What `remove` does: the bucket of `id` loses any entry with that
/// identifier; everything else stays as it was.
pub open spec fn removed(before: RoutingTable, after: RoutingTable, id: Seq<u8>) -> bool {
    let b = before.bucket_for(id);
    &&& after.wf()
    &&& after.owner() == before.owner()
    &&& after.k() == before.k()
    &&& after.buckets().len() == before.buckets().len()
    &&& after.bucket(b) == without_id(before.bucket(b), id)
    &&& forall|i: int|
        0 <= i < before.buckets().len() && i != b ==> #[trigger] after.bucket(i) == before.bucket(i)
}

/// Whether a query for `count` nodes that starts at bucket `b` scans
/// buckets `lo ..= hi`: upwards from `b` until `count` nodes are collected or
/// the last bucket is reached, then downwards in the same way.
pub open spec fn scan_window(t: RoutingTable, b: int, count: nat, lo: int, hi: int) -> bool {
    let bs = t.buckets();
    &&& 0 <= lo <= b <= hi < bs.len()
    &&& hi == b || lens_sum(bs, b, hi) < count
    &&& hi == bs.len() - 1 || lens_sum(bs, b, hi + 1) >= count
    &&& lo == b || lens_sum(bs, lo + 1, hi + 1) < count
    &&& lo == 0 || lens_sum(bs, lo, hi + 1) >= count
}

/// Whether `r` holds only nodes of buckets `lo ..= hi`, and each node of
/// those buckets that it leaves out is no nearer to `key` than any it holds.
pub open spec fn nearest_in_window(t: RoutingTable, key: Seq<u8>, lo: int, hi: int, r: Seq<NodeDistance>) -> bool {
    &&& forall|i: int| 0 <= i < r.len() ==> lo <= t.bucket_for((#[trigger] r[i]).node.id@) <= hi
    &&& forall|j: int, n: Node|
        lo <= j <= hi && #[trigger] t.bucket(j).contains(n) ==> has_node(r, n) || forall|i: int|
            0 <= i < r.len() ==> dist_le((#[trigger] r[i]).distance@, xor_bytes(n.id@, key))
}

/// What `get_closest_nodes(key, count)` returns: at most `count` entries and
/// no more than the table knows, in ascending order of distance, each a
/// known node with its distance to `key`, no node twice; every known node
/// when fewer than `count` come back or `count` covers all known nodes; the entries are the nearest ones among the
/// buckets that the scan visits.
pub open spec fn closest_result(t: RoutingTable, key: Seq<u8>, count: nat, r: Seq<NodeDistance>) -> bool {
    &&& r.len() <= count
    &&& r.len() <= t.known_count()
    &&& sorted_by_distance(r)
    &&& forall|i: int|
        0 <= i < r.len() ==> t.knows((#[trigger] r[i]).node) && r[i].distance@ == xor_bytes(
            r[i].node.id@,
            key,
        )
    &&& distinct_ids(r)
    &&& r.len() < count ==> forall|n: Node| #[trigger] t.knows(n) ==> has_node(r, n)
    &&& count >= t.known_count() ==> forall|n: Node| #[trigger] t.knows(n) ==> has_node(r, n)
    &&& count > 0 ==> exists|lo: int, hi: int|
        #[trigger] scan_window(t, t.bucket_for(key), count, lo, hi) && nearest_in_window(
            t,
            key,
            lo,
            hi,
            r,
        )
}

/// Once `update` has placed a node in a bucket that was not full, a query
/// for at least as many nodes as the table knows returns it.
pub proof fn lemma_updated_node_is_found(
    before: RoutingTable,
    after: RoutingTable,
    node: Node,
    key: Seq<u8>,
    count: nat,
    r: Seq<NodeDistance>,
)
    requires
        before.wf(),
        updated(before, after, node),
        before.bucket(before.bucket_for(node.id@)).len() < before.k(),
        closest_result(after, key, count, r),
        count >= after.known_count(),
    ensures
        has_node(r, node),
{
    let b = before.bucket_for(node.id@);
    let s = without_id(before.bucket(b), node.id@).push(node);
    assert(s[s.len() - 1] == node);
    assert(after.bucket(b).contains(node));
    assert(after.knows(node));
}

/// A table holds at most one entry per identifier: two known nodes with the
/// same identifier are the same node, filed in the same bucket.
pub proof fn lemma_one_entry_per_id(t: RoutingTable, a: Node, b: Node)
    requires
        t.wf(),
        t.knows(a),
        t.knows(b),
        a.id@ == b.id@,
    ensures
        a == b,
{
    let i = t.bucket_for(a.id@);
    lemma_bucket_of_range(t.owner().id@, a.id@);
    let s = t.bucket(i);
    let p = choose|p: int| 0 <= p < s.len() && s[p] == a;
    let q = choose|q: int| 0 <= q < s.len() && s[q] == b;
    assert(distinct_node_ids(s));
    if p < q {
        assert(s[p].id@ != s[q].id@);
    } else if q < p {
        assert(s[q].id@ != s[p].id@);
    }
}

/// Once `remove` has dropped an identifier, no query returns a node with it.
pub proof fn lemma_removed_id_is_not_found(
    before: RoutingTable,
    after: RoutingTable,
    id: Seq<u8>,
    key: Seq<u8>,
    count: nat,
    r: Seq<NodeDistance>,
)
    requires
        before.wf(),
        removed(before, after, id),
        closest_result(after, key, count, r),
    ensures
        forall|i: int| 0 <= i < r.len() ==> (#[trigger] r[i]).node.id@ != id,
{
    assert forall|i: int| 0 <= i < r.len() implies (#[trigger] r[i]).node.id@ != id by {
        let n = r[i].node;
        if n.id@ == id {
            let b = before.bucket_for(id);
            assert(after.knows(n));
            assert(after.bucket(b).contains(n));
            before.bucket(b).lemma_filter_contains_rev(other_id(id), n);
            let f = without_id(before.bucket(b), id);
            let j = choose|j: int| 0 <= j < f.len() && f[j] == n;
            broadcast use vstd::seq_lib::group_filter_ensures;
        }
    }
}

/// The nodes of `nodes` whose identifier is not `id`, in order.
fn nodes_without(nodes: &Vec<Node>, id: &Key) -> (r: Vec<Node>)
    ensures
        r@ == without_id(nodes@, id@),
{
    let mut r: Vec<Node> = Vec::new();
    let mut j: usize = 0;
    while j < nodes.len()
        invariant
            j <= nodes.len(),
            r@ == nodes@.subrange(0, j as int).filter(other_id(id@)),
        decreases nodes.len() - j,
    {
        let n = nodes[j];
        proof {
            assert(nodes@.subrange(0, j + 1) =~= nodes@.subrange(0, j as int).push(n));
            nodes@.subrange(0, j as int).lemma_filter_push(n, other_id(id@));
        }
        if !n.id.same_as(id) {
            r.push(n);
        }
        j = j + 1;
    }
    assert(nodes@.subrange(0, nodes.len() as int) =~= nodes@);
    r
}

} // verus!
