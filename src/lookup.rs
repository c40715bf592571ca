use crate::key::{xor_bytes, Key};
use crate::node::{
    dist_le, distance_le, distinct_ids, lemma_le_total, lemma_le_transitive, sort_by_distance,
    sorted_by_distance, Node, NodeDistance,
};
use vstd::prelude::*;

verus! {

/// Whether each entry of `s` carries its node's distance to `target`.
pub open spec fn measured_from(s: Seq<NodeDistance>, target: Seq<u8>) -> bool {
    forall|i: int| 0 <= i < s.len() ==> (#[trigger] s[i]).distance@ == xor_bytes(s[i].node.id@, target)
}

/// Whether some entry of `s` is for a node with identifier `id`.
pub open spec fn has_id(s: Seq<NodeDistance>, id: Seq<u8>) -> bool {
    exists|i: int| 0 <= i < s.len() && (#[trigger] s[i]).node.id@ == id
}

/// The byte views of a sequence of keys.
pub open spec fn key_views(s: Seq<Key>) -> Seq<Seq<u8>> {
    s.map_values(|k: Key| k@)
}

/// Whether some entry of `s` has identifier `id`.
fn contains_id(s: &Vec<NodeDistance>, id: &Key) -> (r: bool)
    ensures
        r == has_id(s@, id@),
{
    let mut i: usize = 0;
    while i < s.len()
        invariant
            i <= s@.len(),
            forall|j: int| 0 <= j < i ==> (#[trigger] s@[j]).node.id@ != id@,
        decreases s@.len() - i,
    {
        if s[i].node.id.same_as(id) {
            return true;
        }
        i = i + 1;
    }
    false
}

/// Whether `keys` holds `id`.
fn contains_key(keys: &Vec<Key>, id: &Key) -> (r: bool)
    ensures
        r == key_views(keys@).contains(id@),
{
    let mut i: usize = 0;
    while i < keys.len()
        invariant
            i <= keys@.len(),
            forall|j: int| 0 <= j < i ==> (#[trigger] keys@[j])@ != id@,
        decreases keys@.len() - i,
    {
        if keys[i].same_as(id) {
            assert(key_views(keys@)[i as int] == id@);
            return true;
        }
        i = i + 1;
    }
    false
}

/// Index of an entry whose distance is no greater than any other's.
fn index_of_nearest(v: &Vec<NodeDistance>) -> (m: usize)
    requires
        v@.len() > 0,
    ensures
        m < v@.len(),
        forall|j: int| 0 <= j < v@.len() ==> dist_le(v@[m as int].distance@, #[trigger] v@[j].distance@),
{
    let mut m: usize = 0;
    let mut i: usize = 1;
    proof {
        lemma_le_total(v@[0].distance@, v@[0].distance@, 0);
    }
    while i < v.len()
        invariant
            0 < i <= v@.len(),
            m < v@.len(),
            forall|j: int| 0 <= j < i ==> dist_le(v@[m as int].distance@, #[trigger] v@[j].distance@),
        decreases v@.len() - i,
    {
        if !distance_le(&v[m].distance, &v[i].distance) {
            proof {
                lemma_le_total(v@[m as int].distance@, v@[i as int].distance@, 0);
                assert forall|j: int| 0 <= j < i + 1 implies dist_le(v@[i as int].distance@, #[trigger] v@[j].distance@) by {
                    if j < i {
                        lemma_le_transitive(v@[i as int].distance@, v@[m as int].distance@, v@[j].distance@, 0);
                    } else {
                        lemma_le_total(v@[i as int].distance@, v@[i as int].distance@, 0);
                    }
                }
            }
            m = i;
        }
        i = i + 1;
    }
    m
}

/// How the candidates grow when `entries` come back: each entry whose
/// identifier was not seen before becomes a candidate, and every new
/// candidate is such an entry.
pub open spec fn joined(before: Lookup, after: Lookup, entries: Seq<NodeDistance>) -> bool {
    &&& forall|i: int|
        0 <= i < entries.len() && !before.seen().contains((#[trigger] entries[i]).node.id@) ==> has_id(
            after.pending(),
            entries[i].node.id@,
        )
    &&& forall|j: int|
        before.pending().len() <= j < after.pending().len() ==> !before.seen().contains(
            (#[trigger] after.pending()[j]).node.id@,
        ) && has_id(entries, after.pending()[j].node.id@)
}

/// The state of an iterative search for the nodes closest to a target:
/// the candidates not yet queried, every identifier seen so far, and the
/// nodes that answered.
pub struct Lookup {
    target: Key,
    to_query: Vec<NodeDistance>,
    seen: Vec<Key>,
    results: Vec<NodeDistance>,
}

impl Lookup {
    pub closed spec fn target(&self) -> Key {
        self.target
    }

    /// The candidates not yet queried.
    pub closed spec fn pending(&self) -> Seq<NodeDistance> {
        self.to_query@
    }

    /// The identifiers seen so far.
    pub closed spec fn seen(&self) -> Seq<Seq<u8>> {
        key_views(self.seen@)
    }

    /// The nodes that answered a query, in the order they answered.
    pub closed spec fn results(&self) -> Seq<NodeDistance> {
        self.results@
    }

    /// Every candidate and answer carries its distance to the target, and
    /// every candidate has been seen.
    pub open spec fn wf(&self) -> bool {
        &&& measured_from(self.pending(), self.target()@)
        &&& measured_from(self.results(), self.target()@)
        &&& forall|i: int|
            0 <= i < self.pending().len() ==> self.seen().contains(
                (#[trigger] self.pending()[i]).node.id@,
            )
    }

    /// Starts a search for `target` from the nodes already known near it.
    pub fn new(target: Key, initial: Vec<NodeDistance>) -> (r: Lookup)
        ensures
            r.wf(),
            r.target() == target,
            r.results().len() == 0,
            forall|i: int| 0 <= i < initial@.len() ==> r.seen().contains(
                (#[trigger] initial@[i]).node.id@,
            ),
            forall|i: int|
                0 <= i < r.pending().len() ==> has_id(initial@, (#[trigger] r.pending()[i]).node.id@),
            forall|i: int| 0 <= i < initial@.len() ==> has_id(r.pending(), (#[trigger] initial@[i]).node.id@),
    {
        let mut l = Lookup { target, to_query: Vec::new(), seen: Vec::new(), results: Vec::new() };
        let mut i: usize = 0;
        while i < initial.len()
            invariant
                i <= initial@.len(),
                l.wf(),
                l.target() == target,
                l.results().len() == 0,
                forall|j: int| 0 <= j < i ==> l.seen().contains((#[trigger] initial@[j]).node.id@),
                forall|id: Seq<u8>| #[trigger] l.seen().contains(id) ==> has_id(l.pending(), id),
                forall|j: int|
                    0 <= j < l.pending().len() ==> has_id(
                        initial@.subrange(0, i as int),
                        (#[trigger] l.pending()[j]).node.id@,
                    ),
            decreases initial@.len() - i,
        {
            let ghost before = l.pending();
            let ghost cur = l;
            l.add_candidate(initial[i].node);
            proof {
                assert forall|id: Seq<u8>| #[trigger] l.seen().contains(id) implies has_id(l.pending(), id) by {
                    if cur.seen().contains(id) {
                        let q = choose|q: int| 0 <= q < before.len() && (#[trigger] before[q]).node.id@ == id;
                        assert(l.pending()[q] == before[q]);
                    } else {
                        assert(l.pending().last().node == initial@[i as int].node);
                        assert(l.pending()[l.pending().len() - 1].node.id@ == id);
                    }
                }
                let sub = initial@.subrange(0, i + 1);
                assert(sub[i as int] == initial@[i as int]);
                assert forall|j: int| 0 <= j < l.pending().len() implies has_id(
                    sub,
                    (#[trigger] l.pending()[j]).node.id@,
                ) by {
                    if j < before.len() {
                        let q = choose|q: int|
                            0 <= q < i && (#[trigger] initial@.subrange(0, i as int)[q]).node.id@
                                == before[j].node.id@;
                        assert(sub[q] == initial@.subrange(0, i as int)[q]);
                    }
                }
            }
            i = i + 1;
        }
        proof {
            assert(initial@.subrange(0, initial@.len() as int) =~= initial@);
            assert forall|i: int| 0 <= i < initial@.len() implies has_id(l.pending(), (#[trigger] initial@[i]).node.id@) by {
                assert(l.seen().contains(initial@[i].node.id@));
            }
        }
        l
    }

    /// Adds `node` as a candidate unless its identifier was seen before.
    fn add_candidate(&mut self, node: Node)
        requires
            old(self).wf(),
        ensures
            final(self).wf(),
            final(self).target() == old(self).target(),
            final(self).results() == old(self).results(),
            final(self).seen().contains(node.id@),
            forall|id: Seq<u8>| old(self).seen().contains(id) ==> #[trigger] final(self).seen().contains(
                id,
            ),
            forall|id: Seq<u8>| #[trigger] final(self).seen().contains(id) ==> old(self).seen().contains(id) || id == node.id@,
            old(self).seen().contains(node.id@) ==> final(self).pending() == old(self).pending(),
            !old(self).seen().contains(node.id@) ==> final(self).pending().len() == old(
                self,
            ).pending().len() + 1 && final(self).pending().last().node == node,
            forall|i: int|
                0 <= i < old(self).pending().len() ==> #[trigger] final(self).pending()[i] == old(
                    self,
                ).pending()[i],
    {
        if !contains_key(&self.seen, &node.id) {
            let ghost before = self.seen@;
            self.seen.push(node.id);
            let d = node.id.distance(&self.target);
            self.to_query.push(NodeDistance::new(node, d));
            proof {
                assert(key_views(self.seen@) =~= key_views(before).push(
                    node.id@,
                ));
                assert(self.seen().last() == node.id@);
                assert forall|id: Seq<u8>| key_views(before).contains(id) implies #[trigger] self.seen().contains(id) by {
                    let q = choose|q: int| 0 <= q < before.len() && key_views(before)[q] == id;
                    assert(self.seen()[q] == id);
                }
                assert forall|id: Seq<u8>| #[trigger] self.seen().contains(id) implies key_views(before).contains(id) || id == node.id@ by {
                    let q = choose|q: int| 0 <= q < self.seen().len() && self.seen()[q] == id;
                    if q < before.len() {
                        assert(key_views(before)[q] == id);
                    }
                }
            }
        }
    }

    /// Takes up to `alpha` of the nearest candidates out of the pending
    /// ones, nearest first.
    pub fn next_round(&mut self, alpha: usize) -> (r: Vec<NodeDistance>)
        requires
            old(self).wf(),
        ensures
            final(self).wf(),
            final(self).target() == old(self).target(),
            final(self).seen() == old(self).seen(),
            final(self).results() == old(self).results(),
            r@.len() == if alpha < old(self).pending().len() {
                alpha as int
            } else {
                old(self).pending().len() as int
            },
            (r@ + final(self).pending()).to_multiset() == old(self).pending().to_multiset(),
            sorted_by_distance(r@),
            forall|i: int, j: int|
                0 <= i < r@.len() && 0 <= j < final(self).pending().len() ==> dist_le(
                    #[trigger] r@[i].distance@,
                    #[trigger] final(self).pending()[j].distance@,
                ),
    {
        broadcast use vstd::seq_lib::group_seq_properties;
        broadcast use vstd::seq_lib::lemma_multiset_commutative;

        let ghost start = self.to_query@;
        let mut out: Vec<NodeDistance> = Vec::new();
        proof {
            assert(out@ + self.to_query@ =~= start);
        }
        while out.len() < alpha && self.to_query.len() > 0
            invariant
                self.wf(),
                self.target() == old(self).target(),
                self.seen() == old(self).seen(),
                self.results() == old(self).results(),
                start == old(self).pending(),
                out@.len() + self.to_query@.len() == start.len(),
                out@.len() <= alpha,
                (out@ + self.to_query@).to_multiset() == start.to_multiset(),
                sorted_by_distance(out@),
                forall|i: int, j: int|
                    0 <= i < out@.len() && 0 <= j < self.to_query@.len() ==> dist_le(
                        #[trigger] out@[i].distance@,
                        #[trigger] self.to_query@[j].distance@,
                    ),
            decreases self.to_query@.len(),
        {
            let m = index_of_nearest(&self.to_query);
            let ghost before_q = self.to_query@;
            let ghost before_o = out@;
            let e = self.to_query.remove(m);
            out.push(e);
            proof {
                before_q.remove_ensures(m as int);
                assert(self.to_query@ == before_q.remove(m as int));
                before_q.to_multiset_ensures();
                before_o.to_multiset_ensures();
                assert(before_q.to_multiset().count(e) > 0) by {
                    assert(before_q.contains(e));
                }
                assert(out@ == before_o.push(e));
                assert(e == before_q[m as int]);
                assert(out@.to_multiset() =~= before_o.to_multiset().insert(e));
                assert(self.to_query@.to_multiset() =~= before_q.to_multiset().remove(e));
                vstd::seq_lib::lemma_multiset_commutative(out@, self.to_query@);
                vstd::seq_lib::lemma_multiset_commutative(before_o, before_q);
                assert((out@ + self.to_query@).to_multiset() =~= (before_o + before_q).to_multiset());
                assert forall|j: int| 0 <= j < self.to_query@.len() implies self.seen().contains(
                    (#[trigger] self.pending()[j]).node.id@,
                ) && self.pending()[j].distance@ == xor_bytes(self.pending()[j].node.id@, self.target()@) by {
                    if j < m {
                        assert(self.pending()[j] == before_q[j]);
                    } else {
                        assert(self.pending()[j] == before_q[j + 1]);
                    }
                }
                assert forall|i: int, j: int|
                    0 <= i < out@.len() && 0 <= j < self.to_query@.len() implies dist_le(
                    #[trigger] out@[i].distance@,
                    #[trigger] self.to_query@[j].distance@,
                ) by {
                    let jj = if j < m { j } else { j + 1 };
                    assert(self.to_query@[j] == before_q[jj]);
                    if i == out@.len() - 1 {
                        assert(out@[i] == before_q[m as int]);
                    } else {
                        assert(out@[i] == before_o[i]);
                    }
                }
                assert forall|a: int, b: int| 0 <= a < b < out@.len() implies dist_le(
                    #[trigger] out@[a].distance@,
                    #[trigger] out@[b].distance@,
                ) by {
                    assert(out@[a] == before_o[a]);
                    if b == out@.len() - 1 {
                        assert(out@[b] == before_q[m as int]);
                    } else {
                        assert(out@[b] == before_o[b]);
                    }
                }
            }
        }
        out
    }

    /// Records the outcome of querying `query`: a node that answered joins
    /// the results, and each node it names whose identifier is new becomes a
    /// candidate. `None` stands for a query that failed.
    pub fn record(&mut self, query: NodeDistance, reply: Option<Vec<NodeDistance>>)
        requires
            old(self).wf(),
        ensures
            final(self).wf(),
            final(self).target() == old(self).target(),
            reply is None ==> *final(self) == *old(self),
            reply is Some ==> {
                &&& final(self).results().len() == old(self).results().len() + 1
                &&& final(self).results().drop_last() == old(self).results()
                &&& final(self).results().last().node == query.node
                &&& forall|i: int|
                    0 <= i < reply->Some_0@.len() ==> final(self).seen().contains(
                        (#[trigger] reply->Some_0@[i]).node.id@,
                    )
                &&& joined(*old(self), *final(self), reply->Some_0@)
            },
            forall|id: Seq<u8>| old(self).seen().contains(id) ==> #[trigger] final(self).seen().contains(
                id,
            ),
            forall|i: int|
                0 <= i < old(self).pending().len() ==> #[trigger] final(self).pending()[i] == old(
                    self,
                ).pending()[i],
    {
        match reply {
            None => {},
            Some(entries) => {
                let d = query.node.id.distance(&self.target);
                let ghost before = self.results@;
                self.results.push(NodeDistance::new(query.node, d));
                proof {
                    assert(self.results@.drop_last() =~= before);
                }
                let ghost start = *self;
                let mut i: usize = 0;
                while i < entries.len()
                    invariant
                        i <= entries@.len(),
                        self.wf(),
                        self.target() == start.target(),
                        self.results() == start.results(),
                        forall|j: int| 0 <= j < i ==> self.seen().contains((#[trigger] entries@[j]).node.id@),
                        forall|id: Seq<u8>| start.seen().contains(id) ==> #[trigger] self.seen().contains(id),
                        start.pending().len() <= self.pending().len(),
                        forall|j: int|
                            0 <= j < start.pending().len() ==> #[trigger] self.pending()[j]
                                == start.pending()[j],
                        forall|id: Seq<u8>|
                            #[trigger] self.seen().contains(id) && !start.seen().contains(id) ==> has_id(
                                self.pending(),
                                id,
                            ),
                        forall|j: int|
                            start.pending().len() <= j < self.pending().len() ==> !start.seen().contains(
                                (#[trigger] self.pending()[j]).node.id@,
                            ) && has_id(entries@, self.pending()[j].node.id@),
                    decreases entries@.len() - i,
                {
                    let ghost cur = *self;
                    let node = entries[i].node;
                    self.add_candidate(node);
                    proof {
                        if !cur.seen().contains(node.id@) {
                            let last = self.pending().len() - 1;
                            assert(self.pending()[last].node == node);
                            assert forall|id: Seq<u8>|
                                #[trigger] self.seen().contains(id) && !start.seen().contains(id) implies has_id(
                                self.pending(),
                                id,
                            ) by {
                                if id == node.id@ {
                                    assert(self.pending()[last].node.id@ == id);
                                } else {
                                    assert(cur.seen().contains(id));
                                    let q = choose|q: int|
                                        0 <= q < cur.pending().len() && (#[trigger] cur.pending()[q]).node.id@ == id;
                                    assert(self.pending()[q] == cur.pending()[q]);
                                }
                            }
                            assert forall|j: int|
                                start.pending().len() <= j < self.pending().len() implies !start.seen().contains(
                                (#[trigger] self.pending()[j]).node.id@,
                            ) && has_id(entries@, self.pending()[j].node.id@) by {
                                if j == last {
                                    assert(entries@[i as int].node == node);
                                } else {
                                    assert(self.pending()[j] == cur.pending()[j]);
                                }
                            }
                        } else {
                            assert forall|id: Seq<u8>|
                                #[trigger] self.seen().contains(id) && !start.seen().contains(id) implies has_id(
                                self.pending(),
                                id,
                            ) by {
                                assert(cur.seen().contains(id));
                            }
                        }
                    }
                    i = i + 1;
                }
            },
        }
    }

    /// The answers, nearest first, with one entry per identifier and at most
    /// `k` entries; fewer than `k` only when every answering identifier is
    /// among them. An answer left out is no nearer than any kept.
    pub fn finish(self, k: usize) -> (r: Vec<NodeDistance>)
        requires
            self.wf(),
        ensures
            r@.len() <= k,
            sorted_by_distance(r@),
            distinct_ids(r@),
            measured_from(r@, self.target()@),
            forall|i: int| 0 <= i < r@.len() ==> self.results().contains(#[trigger] r@[i]),
            r@.len() < k ==> forall|i: int|
                0 <= i < self.results().len() ==> has_id(r@, (#[trigger] self.results()[i]).node.id@),
            forall|i: int|
                0 <= i < self.results().len() ==> has_id(r@, (#[trigger] self.results()[i]).node.id@)
                    || forall|j: int|
                    0 <= j < r@.len() ==> dist_le(
                        (#[trigger] r@[j]).distance@,
                        self.results()[i].distance@,
                    ),
    {
        broadcast use vstd::seq_lib::group_seq_properties;

        let ghost results = self.results@;
        let sorted = sort_by_distance(self.results);
        let mut out: Vec<NodeDistance> = Vec::new();
        let mut i: usize = 0;
        proof {
            sorted@.to_multiset_ensures();
            results.to_multiset_ensures();
            assert forall|m: int| 0 <= m < sorted@.len() implies results.contains(#[trigger] sorted@[m]) by {
                assert(sorted@.to_multiset().count(sorted@[m]) > 0);
            }
        }
        while i < sorted.len() && out.len() < k
            invariant
                i <= sorted@.len(),
                out@.len() <= k,
                sorted_by_distance(sorted@),
                sorted_by_distance(out@),
                distinct_ids(out@),
                forall|m: int| 0 <= m < sorted@.len() ==> results.contains(#[trigger] sorted@[m]),
                forall|a: int| 0 <= a < out@.len() ==> results.contains(#[trigger] out@[a]),
                forall|a: int, m: int|
                    0 <= a < out@.len() && i <= m < sorted@.len() ==> dist_le(
                        #[trigger] out@[a].distance@,
                        #[trigger] sorted@[m].distance@,
                    ),
                forall|m: int| 0 <= m < i ==> has_id(out@, (#[trigger] sorted@[m]).node.id@),
            decreases sorted@.len() - i,
        {
            let e = sorted[i];
            if !contains_id(&out, &e.node.id) {
                let ghost before = out@;
                out.push(e);
                proof {
                    assert(out@[before.len() as int] == e);
                    assert forall|m: int| 0 <= m < i + 1 implies has_id(out@, (#[trigger] sorted@[m]).node.id@) by {
                        if m < i {
                            let q = choose|q: int| 0 <= q < before.len() && (#[trigger] before[q]).node.id@ == sorted@[m].node.id@;
                            assert(out@[q] == before[q]);
                        }
                    }
                    assert forall|a: int, b: int|
                        0 <= a < out@.len() && 0 <= b < out@.len() && a != b implies (#[trigger] out@[a]).node.id@ != (
                        #[trigger] out@[b]).node.id@ by {
                        if a < before.len() && b < before.len() {
                            assert(out@[a] == before[a] && out@[b] == before[b]);
                        } else if a < before.len() {
                            assert(out@[a] == before[a]);
                        } else {
                            assert(out@[b] == before[b]);
                        }
                    }
                }
            }
            i = i + 1;
        }
        proof {
            assert forall|j: int| 0 <= j < out@.len() implies (#[trigger] out@[j]).distance@ == xor_bytes(
                out@[j].node.id@,
                self.target()@,
            ) by {
                let q = choose|q: int| 0 <= q < results.len() && results[q] == out@[j];
            }
            assert forall|j: int| 0 <= j < results.len() implies has_id(out@, (#[trigger] results[j]).node.id@)
                || forall|a: int|
                0 <= a < out@.len() ==> dist_le((#[trigger] out@[a]).distance@, results[j].distance@) by {
                assert(results.to_multiset().count(results[j]) > 0);
                assert(sorted@.contains(results[j]));
                let m = choose|m: int| 0 <= m < sorted@.len() && sorted@[m] == results[j];
                if m < i {
                    assert(has_id(out@, sorted@[m].node.id@));
                } else {
                    assert forall|a: int| 0 <= a < out@.len() implies dist_le(
                        (#[trigger] out@[a]).distance@,
                        results[j].distance@,
                    ) by {
                        assert(dist_le(out@[a].distance@, sorted@[m].distance@));
                    }
                }
            }
            if out@.len() < k {
                assert forall|j: int| 0 <= j < results.len() implies has_id(out@, (#[trigger] results[j]).node.id@) by {
                    assert(results.to_multiset().count(results[j]) > 0);
                    assert(sorted@.contains(results[j]));
                    let m = choose|m: int| 0 <= m < sorted@.len() && sorted@[m] == results[j];
                    assert(has_id(out@, sorted@[m].node.id@));
                }
            }
        }
        out
    }

    /// Whether no candidate is left to query.
    pub fn is_done(&self) -> (r: bool)
        ensures
            r == (self.pending().len() == 0),
    {
        self.to_query.len() == 0
    }
}

} // verus!
