//! Peer descriptors and the k-bucket routing table.
use vstd::prelude::*;
use vstd::multiset::Multiset;
use crate::id::{
    NodeID, xor_bytes, lex_le, lex_le_bytes, spec_bucket_index, bucket_index_of,
    lemma_lex_le_total, lemma_lex_le_trans, lemma_lex_le_antisymmetric, lemma_xor_cancel,
};

verus! {

/// Seconds after which a silent peer counts as stale and may be evicted.
pub const STALE_TIMEOUT_SECS: u64 = 3600;

/// Mathematical image of a peer descriptor.
#[verifier::ext_equal]
pub struct NodeView {
    pub node_id: Seq<u8>,
    pub address: Seq<u8>,
    pub port: u16,
    pub last_seen: u64,
    pub failed_pings: u32,
}

/// A peer in the network: identifier, contact address, and liveness data.
pub struct Node {
    /// The peer's identifier.
    pub node_id: NodeID,
    /// Contact host, as the bytes of its textual form.
    pub address: Vec<u8>,
    /// Contact UDP port.
    pub port: u16,
    /// Time of the last answer from the peer, in seconds.
    pub last_seen: u64,
    /// Consecutive failed pings since the last answer.
    pub failed_pings: u32,
}

impl View for Node {
    type V = NodeView;

    open spec fn view(&self) -> NodeView {
        NodeView {
            node_id: self.node_id@,
            address: self.address@,
            port: self.port,
            last_seen: self.last_seen,
            failed_pings: self.failed_pings,
        }
    }
}

/// Copy a byte vector.
pub fn clone_bytes(v: &Vec<u8>) -> (r: Vec<u8>)
    ensures
        r@ == v@,
{
    let mut out: Vec<u8> = Vec::new();
    let mut i: usize = 0;
    while i < v.len()
        invariant
            i <= v@.len(),
            out@ == v@.subrange(0, i as int),
        decreases v@.len() - i,
    {
        out.push(v[i]);
        proof {
            assert(out@ =~= v@.subrange(0, i + 1));
        }
        i = i + 1;
    }
    proof {
        assert(out@ =~= v@);
    }
    out
}

/// A peer is stale when it has not answered for longer than `timeout`.
pub open spec fn spec_is_stale(n: NodeView, now: u64, timeout: u64) -> bool {
    now > n.last_seen + timeout
}

impl Node {
    /// Create a peer descriptor first seen `now`.
    pub fn new(node_id: NodeID, address: Vec<u8>, port: u16, now: u64) -> (r: Node)
        ensures
            r@.node_id == node_id@,
            r@.address == address@,
            r@.port == port,
            r@.last_seen == now,
            r@.failed_pings == 0,
    {
        Node { node_id, address, port, last_seen: now, failed_pings: 0 }
    }

    /// Record a successful exchange with the peer.
    pub fn update_seen(&mut self, now: u64)
        ensures
            final(self)@ == (NodeView { last_seen: now, failed_pings: 0, ..old(self)@ }),
    {
        self.last_seen = now;
        self.failed_pings = 0;
    }

    /// Record one failed ping, keeping the counter from wrapping.
    pub fn record_failed_ping(&mut self)
        ensures
            final(self)@ == (NodeView {
                failed_pings: if old(self)@.failed_pings < u32::MAX {
                    (old(self)@.failed_pings + 1) as u32
                } else {
                    u32::MAX
                },
                ..old(self)@
            }),
    {
        if self.failed_pings < u32::MAX {
            self.failed_pings = self.failed_pings + 1;
        }
    }

    /// Whether the peer has been silent for longer than `timeout` seconds.
    pub fn is_stale(&self, now: u64, timeout: u64) -> (r: bool)
        ensures
            r == spec_is_stale(self@, now, timeout),
    {
        now > self.last_seen && now - self.last_seen > timeout
    }

    /// An identical copy of the descriptor.
    pub fn duplicate(&self) -> (r: Node)
        ensures
            r@ == self@,
    {
        let r = Node {
            node_id: self.node_id,
            address: clone_bytes(&self.address),
            port: self.port,
            last_seen: self.last_seen,
            failed_pings: self.failed_pings,
        };
        proof {
            assert(r@ =~= self@);
        }
        r
    }
}

/// Peer `a` is at most as far from `target` as peer `b`; ties in distance
/// can only be equal identifiers, so this also orders by identifier.
pub open spec fn closer_eq(target: Seq<u8>, a: NodeView, b: NodeView) -> bool {
    lex_le(xor_bytes(a.node_id, target), xor_bytes(b.node_id, target))
}

/// The distance order relates every pair of peers.
pub proof fn lemma_closer_eq_total(target: Seq<u8>, a: NodeView, b: NodeView)
    ensures
        closer_eq(target, a, b) || closer_eq(target, b, a),
{
    lemma_lex_le_total(xor_bytes(a.node_id, target), xor_bytes(b.node_id, target));
}

/// The distance order is transitive.
pub proof fn lemma_closer_eq_trans(target: Seq<u8>, a: NodeView, b: NodeView, c: NodeView)
    requires
        a.node_id.len() == target.len(),
        b.node_id.len() == target.len(),
        c.node_id.len() == target.len(),
        closer_eq(target, a, b),
        closer_eq(target, b, c),
    ensures
        closer_eq(target, a, c),
{
    lemma_lex_le_trans(
        xor_bytes(a.node_id, target),
        xor_bytes(b.node_id, target),
        xor_bytes(c.node_id, target),
    );
}

/// Peers each at most as close as the other have the same identifier.
pub proof fn lemma_closer_eq_antisymmetric(target: Seq<u8>, a: NodeView, b: NodeView)
    requires
        a.node_id.len() == target.len(),
        b.node_id.len() == target.len(),
        closer_eq(target, a, b),
        closer_eq(target, b, a),
    ensures
        a.node_id =~= b.node_id,
{
    lemma_lex_le_antisymmetric(xor_bytes(a.node_id, target), xor_bytes(b.node_id, target));
    lemma_xor_cancel(a.node_id, b.node_id, target);
}

/// Compare two peers by distance to `target`.
pub fn closer_eq_nodes(target: &NodeID, a: &Node, b: &Node) -> (r: bool)
    ensures
        r == closer_eq(target@, a@, b@),
{
    let da = a.node_id.distance_to(target);
    let db = b.node_id.distance_to(target);
    lex_le_bytes(da.as_slice(), db.as_slice())
}

/// Some peer in `s` carries the identifier `id`.
pub open spec fn has_id(s: Seq<Node>, id: Seq<u8>) -> bool {
    exists|i: int| 0 <= i < s.len() && s[i]@.node_id == id
}

/// No two peers in `s` share an identifier.
pub open spec fn unique_ids(s: Seq<Node>) -> bool {
    forall|i: int, j: int|
        0 <= i < s.len() && 0 <= j < s.len() && i != j ==> s[i]@.node_id != s[j]@.node_id
}

/// Index of the peer carrying `id`, if any.
fn position_of_id(nodes: &Vec<Node>, id: &NodeID) -> (r: Option<usize>)
    ensures
        match r {
            Some(i) => i < nodes@.len() && nodes@[i as int]@.node_id == id@,
            None => !has_id(nodes@, id@),
        },
{
    let mut i: usize = 0;
    while i < nodes.len()
        invariant
            i <= nodes@.len(),
            forall|j: int| 0 <= j < i ==> nodes@[j]@.node_id != id@,
        decreases nodes@.len() - i,
    {
        if nodes[i].node_id.equals(id) {
            proof {
                assert(nodes@[i as int]@.node_id =~= id@);
            }
            return Some(i);
        }
        i = i + 1;
    }
    None
}

/// Index of the first stale peer, if any.
fn position_of_stale(nodes: &Vec<Node>, now: u64, timeout: u64) -> (r: Option<usize>)
    ensures
        match r {
            Some(i) => i < nodes@.len() && spec_is_stale(nodes@[i as int]@, now, timeout),
            None => forall|j: int| 0 <= j < nodes@.len() ==> !spec_is_stale(nodes@[j]@, now, timeout),
        },
{
    let mut i: usize = 0;
    while i < nodes.len()
        invariant
            i <= nodes@.len(),
            forall|j: int| 0 <= j < i ==> !spec_is_stale(nodes@[j]@, now, timeout),
        decreases nodes@.len() - i,
    {
        if nodes[i].is_stale(now, timeout) {
            return Some(i);
        }
        i = i + 1;
    }
    None
}

/// A bounded, least-recently-seen-first container of peers at one
/// distance band.
pub struct KBucket {
    /// Capacity of the bucket.
    pub k: usize,
    /// Peers, least recently seen at the head.
    pub nodes: Vec<Node>,
    /// Time of the last change to the bucket.
    pub last_updated: u64,
}

impl KBucket {
    /// The bucket respects its capacity and holds distinct peers.
    pub open spec fn wf(self) -> bool {
        &&& self.k >= 1
        &&& self.nodes@.len() <= self.k
        &&& unique_ids(self.nodes@)
    }

    /// An empty bucket of capacity `k`, created at time `now`.
    pub fn new(k: usize, now: u64) -> (r: KBucket)
        requires
            k >= 1,
        ensures
            r.wf(),
            r.k == k,
            r.nodes@.len() == 0,
            r.last_updated == now,
    {
        KBucket { k, nodes: Vec::new(), last_updated: now }
    }

    /// Number of peers held.
    pub fn len(&self) -> (r: usize)
        ensures
            r == self.nodes@.len(),
    {
        self.nodes.len()
    }

    /// Whether the bucket is at capacity.
    pub fn is_full(&self) -> (r: bool)
        ensures
            r == (self.nodes@.len() >= self.k),
    {
        self.nodes.len() >= self.k
    }

    /// Insert or refresh a peer, least-recently-seen first: a peer already
    /// present moves to the tail with its new descriptor; a new peer is
    /// appended while there is room; a full bucket rejects new peers.
    pub fn add_node(&mut self, node: Node, now: u64) -> (r: bool)
        requires
            old(self).wf(),
        ensures
            final(self).wf(),
            final(self).k == old(self).k,
            r ==> final(self).last_updated == now,
            !r ==> *final(self) == *old(self),
            has_id(old(self).nodes@, node@.node_id) ==> r && exists|j: int|
                0 <= j < old(self).nodes@.len() && old(self).nodes@[j]@.node_id == node@.node_id
                    && final(self).nodes@ == old(self).nodes@.remove(j).push(node),
            !has_id(old(self).nodes@, node@.node_id) && old(self).nodes@.len() < old(self).k ==> r
                && final(self).nodes@ == old(self).nodes@.push(node),
            !has_id(old(self).nodes@, node@.node_id) && old(self).nodes@.len() >= old(self).k
                ==> !r,
            r ==> has_id(final(self).nodes@, node@.node_id),
            r ==> final(self).nodes@.len() <= old(self).nodes@.len() + 1,
    {
        match position_of_id(&self.nodes, &node.node_id) {
            Some(index) => {
                let ghost pre = self.nodes@;
                self.nodes.remove(index);
                self.nodes.push(node);
                self.last_updated = now;
                proof {
                    assert(pre[index as int]@.node_id == node@.node_id);
                    let post = self.nodes@;
                    assert(post == pre.remove(index as int).push(node));
                    assert(post[post.len() - 1]@.node_id == node@.node_id);
                    assert(unique_ids(post)) by {
                        assert forall|i: int, j: int|
                            0 <= i < post.len() && 0 <= j < post.len() && i != j
                            implies post[i]@.node_id != post[j]@.node_id by {
                            lemma_remove_keeps_unique(pre, index as int);
                        }
                    }
                }
                true
            },
            None => {
                if self.nodes.len() < self.k {
                    self.nodes.push(node);
                    self.last_updated = now;
                    proof {
                        let post = self.nodes@;
                        assert(post[post.len() - 1]@.node_id == node@.node_id);
                    }
                    true
                } else {
                    false
                }
            },
        }
    }

    /// Remove the peer carrying `id`, if present.
    pub fn remove_node(&mut self, id: &NodeID, now: u64)
        requires
            old(self).wf(),
        ensures
            final(self).wf(),
            final(self).k == old(self).k,
            !has_id(final(self).nodes@, id@),
            has_id(old(self).nodes@, id@) ==> exists|j: int|
                0 <= j < old(self).nodes@.len() && old(self).nodes@[j]@.node_id == id@
                    && final(self).nodes@ == old(self).nodes@.remove(j)
                    && final(self).last_updated == now,
            !has_id(old(self).nodes@, id@) ==> *final(self) == *old(self),
    {
        match position_of_id(&self.nodes, id) {
            Some(index) => {
                let ghost pre = self.nodes@;
                self.nodes.remove(index);
                self.last_updated = now;
                proof {
                    lemma_remove_keeps_unique(pre, index as int);
                    assert(!has_id(self.nodes@, id@)) by {
                        let post = self.nodes@;
                        assert forall|i: int| 0 <= i < post.len()
                            implies post[i]@.node_id != id@ by {
                            if i < index {
                                assert(post[i] == pre[i]);
                            } else {
                                assert(post[i] == pre[i + 1]);
                            }
                        }
                    }
                }
            },
            None => {},
        }
    }

    /// Copies of all peers in the bucket, head first.
    pub fn get_nodes(&self) -> (r: Vec<Node>)
        ensures
            r@.len() == self.nodes@.len(),
            forall|i: int| 0 <= i < r@.len() ==> r@[i]@ == self.nodes@[i]@,
    {
        let mut out: Vec<Node> = Vec::new();
        let mut i: usize = 0;
        while i < self.nodes.len()
            invariant
                i <= self.nodes@.len(),
                out@.len() == i,
                forall|j: int| 0 <= j < i ==> out@[j]@ == self.nodes@[j]@,
            decreases self.nodes@.len() - i,
        {
            out.push(self.nodes[i].duplicate());
            i = i + 1;
        }
        out
    }
}

/// Total number of peers across a sequence of buckets.
pub open spec fn count_nodes(bs: Seq<KBucket>) -> int
    decreases bs.len(),
{
    if bs.len() == 0 {
        0
    } else {
        bs[0].nodes@.len() + count_nodes(bs.drop_first())
    }
}

proof fn lemma_count_nodes_nonneg(bs: Seq<KBucket>)
    ensures
        count_nodes(bs) >= 0,
    decreases bs.len(),
{
    if bs.len() > 0 {
        lemma_count_nodes_nonneg(bs.drop_first());
    }
}

proof fn lemma_count_nodes_take(bs: Seq<KBucket>, b: int)
    requires
        0 <= b < bs.len(),
    ensures
        count_nodes(bs.take(b + 1)) == count_nodes(bs.take(b)) + bs[b].nodes@.len(),
    decreases b,
{
    if b == 0 {
        assert(bs.take(0) =~= Seq::<KBucket>::empty());
        assert(bs.take(1) =~= seq![bs[0]]);
        assert(bs.take(1).drop_first() =~= Seq::<KBucket>::empty());
    } else {
        lemma_count_nodes_take(bs.drop_first(), b - 1);
        assert(bs.take(b + 1).drop_first() =~= bs.drop_first().take(b));
        assert(bs.take(b).drop_first() =~= bs.drop_first().take(b - 1));
        assert(bs.take(b + 1)[0] == bs[0]);
        assert(bs.take(b)[0] == bs[0]);
    }
}

/// The fixed-size table of k-buckets, indexed by the leading-zero count
/// of the XOR distance to the local identifier.
pub struct RoutingTable {
    /// The local node's identifier; never stored in any bucket.
    pub node_id: NodeID,
    /// Capacity of each bucket.
    pub k: usize,
    /// One bucket per distance band.
    pub buckets: Vec<KBucket>,
}

impl RoutingTable {
    /// Buckets respect their bound, hold distinct peers, never hold the
    /// local identifier, and every peer sits in the bucket named by the
    /// leading-zero count of its XOR distance to the local identifier.
    pub open spec fn wf(self) -> bool {
        &&& self.buckets@.len() >= 1
        &&& self.k >= 1
        &&& forall|b: int|
            0 <= b < self.buckets@.len() ==> (#[trigger] self.buckets@[b]).wf()
                && self.buckets@[b].k == self.k
        &&& forall|b: int, i: int|
            0 <= b < self.buckets@.len() && 0 <= i < self.buckets@[b].nodes@.len() ==> {
                &&& (#[trigger] self.buckets@[b].nodes@[i])@.node_id != self.node_id@
                &&& spec_bucket_index(
                    self.node_id@,
                    self.buckets@[b].nodes@[i]@.node_id,
                    self.buckets@.len() as int,
                ) == b
            }
    }

    /// Some bucket holds a peer whose descriptor reads `v`.
    pub open spec fn table_contains(self, v: NodeView) -> bool {
        exists|b: int, i: int|
            0 <= b < self.buckets@.len() && 0 <= i < self.buckets@[b].nodes@.len()
                && self.buckets@[b].nodes@[i]@ == v
    }

    /// Total number of peers in the table.
    pub open spec fn spec_total(self) -> int {
        count_nodes(self.buckets@)
    }

    /// A table of `bucket_count` empty buckets of capacity `k`.
    pub fn new(node_id: NodeID, k: usize, bucket_count: usize, now: u64) -> (r: RoutingTable)
        requires
            k >= 1,
            bucket_count >= 1,
        ensures
            r.wf(),
            r.node_id == node_id,
            r.k == k,
            r.buckets@.len() == bucket_count,
            forall|b: int| 0 <= b < bucket_count ==> (#[trigger] r.buckets@[b]).nodes@.len() == 0,
    {
        let mut buckets: Vec<KBucket> = Vec::new();
        let mut i: usize = 0;
        while i < bucket_count
            invariant
                k >= 1,
                i <= bucket_count,
                buckets@.len() == i,
                forall|b: int|
                    0 <= b < i ==> (#[trigger] buckets@[b]).wf() && buckets@[b].k == k
                        && buckets@[b].nodes@.len() == 0,
            decreases bucket_count - i,
        {
            buckets.push(KBucket::new(k, now));
            i = i + 1;
        }
        RoutingTable { node_id, k, buckets }
    }

    /// Add or refresh a peer, as the bucket discipline directs: the local
    /// identifier is never added; a known peer moves to its bucket's tail;
    /// a bucket with room appends; a full bucket evicts one stale peer or
    /// else drops the newcomer.
    pub fn add_node(&mut self, node: Node, now: u64) -> (r: bool)
        requires
            old(self).wf(),
        ensures
            final(self).wf(),
            final(self).node_id == old(self).node_id,
            final(self).k == old(self).k,
            final(self).buckets@.len() == old(self).buckets@.len(),
            node@.node_id == old(self).node_id@ ==> !r,
            !r ==> final(self).buckets@ == old(self).buckets@,
            ({
                let bi = spec_bucket_index(
                    old(self).node_id@,
                    node@.node_id,
                    old(self).buckets@.len() as int,
                );
                let old_nodes = old(self).buckets@[bi].nodes@;
                &&& forall|b: int|
                    0 <= b < old(self).buckets@.len() && b != bi
                        ==> final(self).buckets@[b] == old(self).buckets@[b]
                &&& (r ==> has_id(final(self).buckets@[bi].nodes@, node@.node_id))
                &&& (node@.node_id != old(self).node_id@ ==> {
                    &&& (has_id(old_nodes, node@.node_id) ==> r)
                    &&& (!has_id(old_nodes, node@.node_id) && old_nodes.len() < old(self).k ==> r
                        && final(self).buckets@[bi].nodes@ == old_nodes.push(node))
                    &&& (!has_id(old_nodes, node@.node_id) && old_nodes.len() >= old(self).k
                        && (exists|j: int|
                            0 <= j < old_nodes.len() && spec_is_stale(
                                #[trigger] old_nodes[j]@,
                                now,
                                STALE_TIMEOUT_SECS,
                            )) ==> r && exists|j: int|
                            0 <= j < old_nodes.len() && spec_is_stale(
                                #[trigger] old_nodes[j]@,
                                now,
                                STALE_TIMEOUT_SECS,
                            ) && final(self).buckets@[bi].nodes@ == old_nodes.remove(j).push(
                                node,
                            ))
                    &&& (!has_id(old_nodes, node@.node_id) && old_nodes.len() >= old(self).k
                        && (forall|j: int|
                            0 <= j < old_nodes.len() ==> !spec_is_stale(
                                old_nodes[j]@,
                                now,
                                STALE_TIMEOUT_SECS,
                            )) ==> !r)
                })
            }),
    {
        if node.node_id.equals(&self.node_id) {
            return false;
        }
        let bc = self.buckets.len();
        let bi = bucket_index_of(&self.node_id, &node.node_id, bc);
        let ghost pre_buckets = self.buckets@;
        let mut bucket = self.buckets.remove(bi);
        let ghost gnode = node;
        let ghost node_view = node@;
        let added: bool;
        if position_of_id(&bucket.nodes, &node.node_id).is_some() {
            added = bucket.add_node(node, now);
        } else if bucket.nodes.len() < bucket.k {
            added = bucket.add_node(node, now);
        } else {
            match position_of_stale(&bucket.nodes, now, STALE_TIMEOUT_SECS) {
                Some(si) => {
                    let ghost stale_at = si as int;
                    let ghost pre = bucket.nodes@;
                    bucket.nodes.remove(si);
                    proof {
                        lemma_remove_keeps_unique(pre, si as int);
                        assert(!has_id(bucket.nodes@, node_view.node_id)) by {
                            let post = bucket.nodes@;
                            assert forall|i: int| 0 <= i < post.len()
                                implies post[i]@.node_id != node_view.node_id by {
                                let pi: int = if i < si { i } else { i + 1 };
                                assert(post[i] == pre[pi]);
                            }
                        }
                    }
                    added = bucket.add_node(node, now);
                },
                None => {
                    added = false;
                },
            }
        }
        self.buckets.insert(bi, bucket);
        proof {
            assert(self.buckets@ =~= pre_buckets.update(bi as int, self.buckets@[bi as int]));
            if !added {
                assert(self.buckets@ =~= pre_buckets);
            }
            let fb = self.buckets@;
            let nb = fb[bi as int];
            let pre = pre_buckets[bi as int].nodes@;
            if added {
                lemma_members_after_add(pre, nb.nodes@, gnode);
            }
            assert forall|b: int, i: int|
                0 <= b < fb.len() && 0 <= i < fb[b].nodes@.len()
                implies (#[trigger] fb[b].nodes@[i])@.node_id != self.node_id@
                    && spec_bucket_index(self.node_id@, fb[b].nodes@[i]@.node_id, fb.len() as int)
                    == b by {
                if b == bi {
                    if !added {
                        assert(pre[i] == nb.nodes@[i]);
                    }
                    if nb.nodes@[i] == gnode {
                        assert(nb.nodes@[i]@.node_id == node_view.node_id);
                    } else {
                        assert(pre.contains(nb.nodes@[i]));
                        let pi = choose|pi: int| 0 <= pi < pre.len() && pre[pi] == nb.nodes@[i];
                        assert(pre_buckets[bi as int].nodes@[pi] == nb.nodes@[i]);
                    }
                }
            }
        }
        added
    }

    /// Remove the peer carrying `id`; afterwards no bucket holds it.
    pub fn remove_node(&mut self, id: &NodeID, now: u64)
        requires
            old(self).wf(),
        ensures
            final(self).wf(),
            final(self).node_id == old(self).node_id,
            final(self).k == old(self).k,
            final(self).buckets@.len() == old(self).buckets@.len(),
            forall|b: int|
                0 <= b < final(self).buckets@.len() ==> !has_id(
                    (#[trigger] final(self).buckets@[b]).nodes@,
                    id@,
                ),
            forall|b: int|
                0 <= b < old(self).buckets@.len() && b != spec_bucket_index(
                    old(self).node_id@,
                    id@,
                    old(self).buckets@.len() as int,
                ) ==> final(self).buckets@[b] == old(self).buckets@[b],
    {
        let bc = self.buckets.len();
        let bi = bucket_index_of(&self.node_id, id, bc);
        let ghost pre_buckets = self.buckets@;
        let mut bucket = self.buckets.remove(bi);
        bucket.remove_node(id, now);
        self.buckets.insert(bi, bucket);
        proof {
            assert(self.buckets@ =~= pre_buckets.update(bi as int, self.buckets@[bi as int]));
            let fb = self.buckets@;
            let nb = fb[bi as int];
            let pre = pre_buckets[bi as int].nodes@;
            assert forall|b: int, i: int|
                0 <= b < fb.len() && 0 <= i < fb[b].nodes@.len()
                implies (#[trigger] fb[b].nodes@[i])@.node_id != self.node_id@
                    && spec_bucket_index(self.node_id@, fb[b].nodes@[i]@.node_id, fb.len() as int)
                    == b by {
                if b == bi {
                    if has_id(pre, id@) {
                        let j = choose|j: int|
                            0 <= j < pre.len() && pre[j]@.node_id == id@ && nb.nodes@
                                =~= pre.remove(j);
                        let pi: int = if i < j { i } else { i + 1 };
                        assert(nb.nodes@[i] == pre[pi]);
                    }
                }
            }
            assert forall|b: int| 0 <= b < fb.len()
                implies !has_id((#[trigger] fb[b]).nodes@, id@) by {
                if b != bi {
                    if has_id(fb[b].nodes@, id@) {
                        let i = choose|i: int|
                            0 <= i < fb[b].nodes@.len() && fb[b].nodes@[i]@.node_id == id@;
                        assert(spec_bucket_index(self.node_id@, id@, fb.len() as int) == b);
                    }
                }
            }
        }
    }
}

/// Some element of `out` reads `v`.
pub open spec fn covered(out: Seq<Node>, v: NodeView) -> bool {
    exists|x: int| 0 <= x < out.len() && (#[trigger] out[x])@ == v
}

/// Every peer of `bs` before position (`b`, `i`), in bucket order, has a
/// view-equal copy in `out`.
pub open spec fn covers(out: Seq<Node>, bs: Seq<KBucket>, b: int, i: int) -> bool {
    forall|b2: int, i2: int|
        ((0 <= b2 < b && 0 <= i2 < bs[b2].nodes@.len()) || (b2 == b && 0 <= i2 < i)) ==> covered(
            out,
            (#[trigger] bs[b2].nodes@[i2])@,
        )
}

proof fn lemma_covered_push(out: Seq<Node>, copied: Node, v: NodeView)
    requires
        covered(out, v),
    ensures
        covered(out.push(copied), v),
{
    let x0 = choose|x: int| 0 <= x < out.len() && (#[trigger] out[x])@ == v;
    assert(out.push(copied)[x0]@ == v);
}

proof fn lemma_covers_push(out: Seq<Node>, copied: Node, bs: Seq<KBucket>, b: int, i: int)
    requires
        covers(out, bs, b, i),
        0 <= b < bs.len(),
        0 <= i < bs[b].nodes@.len(),
        copied@ == bs[b].nodes@[i]@,
    ensures
        covers(out.push(copied), bs, b, i + 1),
{
    let out2 = out.push(copied);
    assert forall|b2: int, i2: int|
        (0 <= b2 < b && 0 <= i2 < bs[b2].nodes@.len()) || (b2 == b && 0 <= i2 < i + 1)
        implies covered(out2, (#[trigger] bs[b2].nodes@[i2])@) by {
        if b2 == b && i2 == i {
            assert(out2[out.len() as int]@ == bs[b2].nodes@[i2]@);
        } else {
            lemma_covered_push(out, copied, bs[b2].nodes@[i2]@);
        }
    }
}

proof fn lemma_covers_bump(out: Seq<Node>, bs: Seq<KBucket>, b: int)
    requires
        0 <= b < bs.len(),
        covers(out, bs, b, bs[b].nodes@.len() as int),
    ensures
        covers(out, bs, b + 1, 0),
{
    assert forall|b2: int, i2: int|
        (0 <= b2 < b + 1 && 0 <= i2 < bs[b2].nodes@.len()) || (b2 == b + 1 && 0 <= i2 < 0)
        implies covered(out, (#[trigger] bs[b2].nodes@[i2])@) by {
        assert(0 <= b2 < b + 1);
        if b2 < b {
            assert(covered(out, bs[b2].nodes@[i2]@));
        } else {
            assert(b2 == b && 0 <= i2 < bs[b].nodes@.len());
            assert(covered(out, bs[b2].nodes@[i2]@));
        }
    }
}

impl RoutingTable {
    /// Copies of all peers in the table, bucket by bucket.
    pub fn get_all_nodes(&self) -> (r: Vec<Node>)
        ensures
            r@.len() == self.spec_total(),
            forall|i: int| 0 <= i < r@.len() ==> self.table_contains((#[trigger] r@[i])@),
            covers(r@, self.buckets@, self.buckets@.len() as int, 0),
    {
        proof {
            lemma_count_nodes_nonneg(self.buckets@);
        }
        let mut out: Vec<Node> = Vec::new();
        let mut b: usize = 0;
        while b < self.buckets.len()
            invariant
                b <= self.buckets@.len(),
                out@.len() == count_nodes(self.buckets@.take(b as int)),
                forall|x: int| 0 <= x < out@.len() ==> self.table_contains((#[trigger] out@[x])@),
                covers(out@, self.buckets@, b as int, 0),
            decreases self.buckets@.len() - b,
        {
            let bucket_len = self.buckets[b].nodes.len();
            let mut i: usize = 0;
            while i < bucket_len
                invariant
                    b < self.buckets@.len(),
                    bucket_len == self.buckets@[b as int].nodes@.len(),
                    i <= bucket_len,
                    out@.len() == count_nodes(self.buckets@.take(b as int)) + i,
                    forall|x: int|
                        0 <= x < out@.len() ==> self.table_contains((#[trigger] out@[x])@),
                    covers(out@, self.buckets@, b as int, i as int),
                decreases bucket_len - i,
            {
                let ghost pre_out = out@;
                let copied = self.buckets[b].nodes[i].duplicate();
                out.push(copied);
                proof {
                    let gi = i as int;
                    let gb = b as int;
                    assert(out@ == pre_out.push(copied));
                    lemma_covers_push(pre_out, copied, self.buckets@, gb, gi);
                    assert(out@[pre_out.len() as int]@ == self.buckets@[gb].nodes@[gi]@);
                    assert(self.table_contains(self.buckets@[gb].nodes@[gi]@));
                }
                i = i + 1;
            }
            proof {
                lemma_count_nodes_take(self.buckets@, b as int);
                lemma_covers_bump(out@, self.buckets@, b as int);
            }
            b = b + 1;
        }
        proof {
            assert(self.buckets@.take(self.buckets@.len() as int) =~= self.buckets@);
        }
        out
    }

    /// Count of peers and of non-empty buckets, for state reporting.
    pub fn stats(&self) -> (r: (usize, usize))
        requires
            self.spec_total() <= usize::MAX,
        ensures
            r.0 == self.spec_total(),
            r.1 <= self.buckets@.len(),
    {
        proof {
            lemma_count_nodes_nonneg(self.buckets@);
        }
        let mut total: usize = 0;
        let mut occupied: usize = 0;
        let mut b: usize = 0;
        while b < self.buckets.len()
            invariant
                b <= self.buckets@.len(),
                total == count_nodes(self.buckets@.take(b as int)),
                count_nodes(self.buckets@) <= usize::MAX,
                occupied <= b,
            decreases self.buckets@.len() - b,
        {
            proof {
                lemma_count_nodes_take(self.buckets@, b as int);
                lemma_count_nodes_prefix_bound(self.buckets@, b as int + 1);
            }
            total = total + self.buckets[b].nodes.len();
            if self.buckets[b].nodes.len() > 0 {
                occupied = occupied + 1;
            }
            b = b + 1;
        }
        proof {
            assert(self.buckets@.take(self.buckets@.len() as int) =~= self.buckets@);
        }
        (total, occupied)
    }

    /// The `count` peers closest to `target` across all buckets, closest
    /// first; peers left out are at least as far as every peer returned.
    pub fn find_closest_nodes(&self, target: &NodeID, count: usize) -> (r: Vec<Node>)
        requires
            self.wf(),
        ensures
            r@.len() == if count <= self.spec_total() {
                count as int
            } else {
                self.spec_total()
            },
            forall|i: int| 0 <= i < r@.len() ==> self.table_contains((#[trigger] r@[i])@),
            forall|i: int, j: int|
                0 <= i < j < r@.len() ==> closer_eq(target@, r@[i]@, r@[j]@),
            forall|i: int, y: NodeView|
                #![trigger r@[i], self.table_contains(y)]
                0 <= i < r@.len() && self.table_contains(y) && !has_view_id(r@, y.node_id)
                    ==> closer_eq(target@, r@[i]@, y),
    {
        let all = self.get_all_nodes();
        let ghost all_view = all@;
        let mut sorted = sort_by_distance(all, target);
        let ghost sorted_view = sorted@;
        sorted.truncate(count);
        proof {
            broadcast use vstd::seq_lib::group_to_multiset_ensures;

            let m = r_len(count as int, sorted_view.len() as int);
            assert(sorted@ =~= sorted_view.take(m));
            assert forall|i: int, y: NodeView|
                #![trigger sorted@[i], self.table_contains(y)]
                0 <= i < sorted@.len() && self.table_contains(y) && !has_view_id(
                    sorted@,
                    y.node_id,
                ) implies closer_eq(target@, sorted@[i]@, y) by {
                let (b, bj) = choose|b: int, bj: int|
                    0 <= b < self.buckets@.len() && 0 <= bj < self.buckets@[b].nodes@.len()
                        && self.buckets@[b].nodes@[bj]@ == y;
                assert(covered(all_view, self.buckets@[b].nodes@[bj]@));
                let x = choose|x: int|
                    0 <= x < all_view.len() && all_view[x]@ == self.buckets@[b].nodes@[bj]@;
                let yn = all_view[x];
                assert(all_view.contains(yn));
                assert(all_view.to_multiset().count(yn) > 0);
                assert(sorted_view.to_multiset().count(yn) > 0);
                assert(sorted_view.contains(yn));
                let sx = choose|sx: int|
                    0 <= sx < sorted_view.len() && sorted_view[sx] == yn;
                if sx < m {
                    assert(sorted@[sx]@.node_id == y.node_id);
                    assert(has_view_id(sorted@, y.node_id));
                } else {
                    assert(closer_eq(target@, sorted_view[i]@, sorted_view[sx]@) || i == sx);
                    assert(sorted@[i] == sorted_view[i]);
                }
            }
            assert forall|i: int| 0 <= i < sorted@.len()
                implies self.table_contains((#[trigger] sorted@[i])@) by {
                let yn = sorted@[i];
                assert(sorted_view.contains(yn));
                assert(sorted_view.to_multiset().count(yn) > 0);
                assert(all_view.to_multiset().count(yn) > 0);
                assert(all_view.contains(yn));
                let x = choose|x: int| 0 <= x < all_view.len() && all_view[x] == yn;
                assert(self.table_contains(all_view[x]@));
            }
        }
        sorted
    }
}

/// Law: every peer held by a well-formed table sits in the bucket indexed
/// by the leading-zero count of the XOR distance between the local
/// identifier and its own, and that index is within the table.
pub proof fn lemma_bucket_placement(rt: RoutingTable)
    requires
        rt.wf(),
    ensures
        forall|b: int, i: int|
            0 <= b < rt.buckets@.len() && 0 <= i < rt.buckets@[b].nodes@.len() ==> {
                &&& spec_bucket_index(
                    rt.node_id@,
                    (#[trigger] rt.buckets@[b].nodes@[i])@.node_id,
                    rt.buckets@.len() as int,
                ) == b
                &&& 0 <= b < rt.buckets@.len()
            },
{
}

/// Law: no bucket of a well-formed table holds more than `k` peers.
pub proof fn lemma_k_bound(rt: RoutingTable)
    requires
        rt.wf(),
    ensures
        forall|b: int|
            0 <= b < rt.buckets@.len() ==> (#[trigger] rt.buckets@[b]).nodes@.len() <= rt.k,
{
}

/// Result length of a truncation to `count` out of `total`.
pub open spec fn r_len(count: int, total: int) -> int {
    if count <= total {
        count
    } else {
        total
    }
}

/// Some peer in `s` reads identifier `id` in its view.
pub open spec fn has_view_id(s: Seq<Node>, id: Seq<u8>) -> bool {
    exists|i: int| 0 <= i < s.len() && s[i]@.node_id == id
}

proof fn lemma_count_nodes_prefix_bound(bs: Seq<KBucket>, b: int)
    requires
        0 <= b <= bs.len(),
    ensures
        count_nodes(bs.take(b)) <= count_nodes(bs),
    decreases bs.len(),
{
    if b > 0 && bs.len() > 0 {
        assert(bs.take(b).drop_first() =~= bs.drop_first().take(b - 1));
        lemma_count_nodes_prefix_bound(bs.drop_first(), b - 1);
    } else {
        assert(bs.take(0) =~= Seq::<KBucket>::empty());
        lemma_count_nodes_nonneg(bs);
    }
}

/// Sort peers by XOR distance to `target`, closest first, keeping exactly
/// the same descriptors.
pub(crate) fn sort_by_distance(v: Vec<Node>, target: &NodeID) -> (r: Vec<Node>)
    ensures
        r@.len() == v@.len(),
        r@.to_multiset() == v@.to_multiset(),
        forall|i: int, j: int| 0 <= i < j < r@.len() ==> closer_eq(target@, r@[i]@, r@[j]@),
{
    broadcast use vstd::seq_lib::group_to_multiset_ensures;

    let ghost orig = v@;
    let mut rest = v;
    let mut out: Vec<Node> = Vec::new();
    while rest.len() > 0
        invariant
            out@.len() + rest@.len() == orig.len(),
            out@.to_multiset().add(rest@.to_multiset()) =~= orig.to_multiset(),
            forall|i: int, j: int|
                0 <= i < j < out@.len() ==> closer_eq(target@, out@[i]@, out@[j]@),
            forall|i: int, j: int|
                0 <= i < out@.len() && 0 <= j < rest@.len() ==> closer_eq(
                    target@,
                    out@[i]@,
                    rest@[j]@,
                ),
        decreases rest@.len(),
    {
        let mut best: usize = 0;
        let mut cand: usize = 1;
        proof {
            lemma_closer_eq_total(target@, rest@[0]@, rest@[0]@);
        }
        while cand < rest.len()
            invariant
                rest@.len() > 0,
                best < cand,
                cand <= rest@.len(),
                forall|j: int| 0 <= j < cand ==> closer_eq(target@, rest@[best as int]@, rest@[j]@),
            decreases rest@.len() - cand,
        {
            if !closer_eq_nodes(target, &rest[best], &rest[cand]) {
                proof {
                    lemma_closer_eq_total(target@, rest@[best as int]@, rest@[cand as int]@);
                    assert forall|j: int| 0 <= j < cand + 1
                        implies closer_eq(target@, rest@[cand as int]@, rest@[j]@) by {
                        if j < cand {
                            lemma_closer_eq_trans(
                                target@,
                                rest@[cand as int]@,
                                rest@[best as int]@,
                                rest@[j]@,
                            );
                        } else {
                            lemma_closer_eq_total(target@, rest@[cand as int]@, rest@[cand as int]@);
                        }
                    }
                }
                best = cand;
            }
            proof {
                lemma_closer_eq_total(target@, rest@[cand as int]@, rest@[cand as int]@);
            }
            cand = cand + 1;
        }
        let ghost pre_rest = rest@;
        let ghost pre_out = out@;
        let m = rest.remove(best);
        out.push(m);
        proof {
            assert(pre_rest[best as int] == m);
            assert(rest@ == pre_rest.remove(best as int));
            vstd::seq_lib::to_multiset_remove(pre_rest, best as int);
            assert(out@ == pre_out.push(m));
            vstd::seq_lib::to_multiset_build(pre_out, m);
            assert(rest@.to_multiset() =~= pre_rest.to_multiset().remove(m));
            assert(out@.to_multiset() =~= pre_out.to_multiset().insert(m));
            assert(pre_rest.contains(m));
            vstd::seq_lib::to_multiset_contains(pre_rest, m);
            assert(out@.to_multiset().add(rest@.to_multiset()) =~= orig.to_multiset());
            assert forall|i: int, j: int|
                0 <= i < out@.len() && 0 <= j < rest@.len()
                implies closer_eq(target@, out@[i]@, rest@[j]@) by {
                let pj: int = if j < best {
                    j
                } else {
                    j + 1
                };
                assert(rest@[j] == pre_rest[pj]);
                if i < pre_out.len() {
                    assert(out@[i] == pre_out[i]);
                } else {
                    assert(out@[i] == m);
                }
            }
        }
    }
    proof {
        assert(rest@.to_multiset() =~= Multiset::<Node>::empty());
        assert(out@.to_multiset() =~= orig.to_multiset());
    }
    out
}

/// After a bucket operation that removed at most one peer and appended
/// `anode`, every member either is `anode` or was already in the bucket.
proof fn lemma_members_after_add(pre: Seq<Node>, post: Seq<Node>, anode: Node)
    requires
        post == pre.push(anode) || exists|j: int|
            0 <= j < pre.len() && post == pre.remove(j).push(anode),
    ensures
        forall|i: int| 0 <= i < post.len() ==> post[i] == anode || pre.contains(post[i]),
{
    if post == pre.push(anode) {
        assert forall|i: int| 0 <= i < post.len()
            implies post[i] == anode || pre.contains(post[i]) by {
            if i < pre.len() {
                assert(pre[i] == post[i]);
            }
        }
    } else {
        let j = choose|j: int| 0 <= j < pre.len() && post == pre.remove(j).push(anode);
        let mid = pre.remove(j);
        assert forall|i: int| 0 <= i < post.len()
            implies post[i] == anode || pre.contains(post[i]) by {
            if i < mid.len() {
                let pi: int = if i < j {
                    i
                } else {
                    i + 1
                };
                assert(post[i] == mid[i]);
                assert(mid[i] == pre[pi]);
            }
        }
    }
}

/// Removing one peer from a duplicate-free sequence keeps it duplicate-free,
/// and every identifier except possibly the removed one stays reachable.
proof fn lemma_remove_keeps_unique(s: Seq<Node>, at: int)
    requires
        unique_ids(s),
        0 <= at < s.len(),
    ensures
        unique_ids(s.remove(at)),
        forall|i: int|
            0 <= i < s.remove(at).len() ==> s.remove(at)[i]@.node_id != s[at]@.node_id,
{
    let post = s.remove(at);
    assert forall|i: int, j: int|
        0 <= i < post.len() && 0 <= j < post.len() && i != j
        implies post[i]@.node_id != post[j]@.node_id by {
        let pi: int = if i < at { i } else { i + 1 };
        let pj: int = if j < at { j } else { j + 1 };
        assert(post[i] == s[pi]);
        assert(post[j] == s[pj]);
    }
    assert forall|i: int| 0 <= i < post.len() implies post[i]@.node_id != s[at]@.node_id by {
        let pi: int = if i < at { i } else { i + 1 };
        assert(post[i] == s[pi]);
    }
}

} // verus!
