//! The node's message engine: admission, correlation, and the handling
//! of each request type. The datagrams themselves are carried outside;
//! this module decides, for every inbound message and the node's state,
//! what changes and what reply, if any, goes back.
use vstd::prelude::*;
use crate::correlate::CorrelationTable;
use crate::crypto::generate_msg_id;
use crate::exchanger::PopularityExchanger;
use crate::id::NodeID;
use crate::metrics::{MetricsCollector, collector_has, spec_replication_raised_only};
use crate::ratelimit::{RateLimiter, admission_rejects, fresh_only, times_of};
use crate::routing::{Node, RoutingTable, STALE_TIMEOUT_SECS, clone_bytes, closer_eq, has_id,
    spec_is_stale};
use crate::store::{Storage, expired, spec_size_of, store_bytes};
use crate::wire::{
    Message, MsgView, Payload, PayloadView, PeerInfo, decode_message, spec_decode_msg,
};

verus! {

/// How many exchange items at most go back in one reply.
pub const EXCHANGE_REPLY_CAP: usize = 100;

/// What the transport should do after one inbound datagram.
pub enum HandleOutcome {
    /// The datagram was dropped: it did not parse, or admission control
    /// refused it; nothing is sent back.
    Dropped,
    /// The message answered an outstanding request; the ticket names the
    /// waiting caller, which receives the message.
    Correlated { ticket: u64, message: Message },
    /// The message was a request and this reply goes back to the sender.
    Reply { message: Message },
    /// The message was handled and nothing goes back.
    NoReply,
}

/// The node's single-threaded core: every structure the handlers touch.
pub struct Engine {
    /// The local identifier.
    pub node_id: NodeID,
    /// The local contact host, as the bytes of its textual form.
    pub local_address: Vec<u8>,
    /// The local UDP port.
    pub local_port: u16,
    /// The k-bucket routing table.
    pub routing_table: RoutingTable,
    /// The TTL-bound local store.
    pub storage: Storage,
    /// Admission control for inbound datagrams.
    pub rate_limiter: RateLimiter,
    /// Per-key popularity metrics.
    pub metrics: MetricsCollector,
    /// Outstanding outbound requests.
    pub correlation: CorrelationTable,
    /// Gossip and consensus state.
    pub exchanger: PopularityExchanger,
}

impl Engine {
    /// Every component holds its own invariant.
    pub open spec fn wf(self) -> bool {
        &&& self.routing_table.wf()
        &&& self.routing_table.node_id == self.node_id
        &&& self.storage.wf()
        &&& self.rate_limiter.wf()
        &&& self.metrics.wf()
        &&& self.correlation.wf()
        &&& self.exchanger.wf()
    }

    /// Handle one inbound datagram at `now`: a datagram that does not
    /// parse is dropped silently; a parsed message passes the sliding-
    /// window admission check or is dropped silently; a message whose
    /// request identifier matches an open slot is delivered to that
    /// caller; anything else is a fresh request and is handled by type.
    pub fn handle_incoming_message(
        &mut self,
        datagram: &[u8],
        sender_address: &Vec<u8>,
        sender_port: u16,
        now: u64,
        now_milli: u64,
    ) -> (r: HandleOutcome)
        requires
            old(self).wf(),
        ensures
            final(self).wf(),
            spec_decode_msg(datagram@) is None ==> r is Dropped && *final(self) == *old(self),
            spec_decode_msg(datagram@) matches Some(mv) ==> {
                let rejected = admission_rejects(old(self).rate_limiter, Some(mv.sender), now);
                let window = old(self).rate_limiter.window_seconds;
                &&& (rejected ==> r is Dropped && final(self).correlation == old(self).correlation
                    && final(self).routing_table == old(self).routing_table && final(self).storage
                    == old(self).storage && final(self).metrics == old(self).metrics && final(self).exchanger == old(self).exchanger && final(self).rate_limiter.request_history@
                    == fresh_only(old(self).rate_limiter.request_history@, now, window) && (forall|
                    other: Seq<u8>,
                |
                    #[trigger] times_of(final(self).rate_limiter.node_requests@, other)
                        == fresh_only(
                        times_of(old(self).rate_limiter.node_requests@, other),
                        now,
                        window,
                    )))
                &&& (!rejected ==> match crate::correlate::ticket_of(
                    old(self).correlation.pending@,
                    mv.id,
                ) {
                    Some(t) => (r matches HandleOutcome::Correlated { ticket, message } && ticket
                        == t && message@ == mv) && !crate::correlate::pending_has(
                        final(self).correlation.pending@,
                        mv.id,
                    ) && (forall|other: Seq<u8>|
                        other != mv.id ==> #[trigger] crate::correlate::ticket_of(
                            final(self).correlation.pending@,
                            other,
                        ) == crate::correlate::ticket_of(
                            old(self).correlation.pending@,
                            other,
                        )) && final(self).routing_table == old(self).routing_table && final(self).storage == old(self).storage && final(self).metrics == old(self).metrics
                        && final(self).exchanger == old(self).exchanger,
                    None => (r is Reply || r is NoReply) && final(self).correlation == old(self).correlation,
                })
            },
    {
        let parsed = decode_message(datagram);
        match parsed {
            None => HandleOutcome::Dropped,
            Some(message) => {
                let admitted = self.rate_limiter.check_rate_limit(
                    Some(&node_id_vec(&message.sender)),
                    now,
                );
                if admitted.is_err() {
                    return HandleOutcome::Dropped;
                }
                match self.correlation.take(&message.id) {
                    Some(ticket) => HandleOutcome::Correlated { ticket, message },
                    None => {
                        match self.handle_request(message, sender_address, sender_port, now, now_milli) {
                            Some(reply) => HandleOutcome::Reply { message: reply },
                            None => HandleOutcome::NoReply,
                        }
                    },
                }
            },
        }
    }

    /// Handle one fresh request by type:
    /// a probe registers the sender and is answered with the local
    /// identity; a peer search is answered with the closest known peers;
    /// a value search is answered with the value while it is visible,
    /// else with the closest peers to the key, and is counted in the
    /// metrics; a store writes the record and reports whether it fit;
    /// a popularity offer is folded in and answered with the local top
    /// items; a ranking request is answered from the consensus cache;
    /// response-typed and unknown messages get no reply.
    pub fn handle_request(
        &mut self,
        message: Message,
        sender_address: &Vec<u8>,
        sender_port: u16,
        now: u64,
        now_milli: u64,
    ) -> (r: Option<Message>)
        requires
            old(self).wf(),
        ensures
            final(self).wf(),
            final(self).node_id == old(self).node_id,
            final(self).correlation == old(self).correlation,
            final(self).rate_limiter == old(self).rate_limiter,
            r matches Some(reply) ==> reply@.id == message@.id && reply@.sender == old(self).node_id@,
            message@.payload matches PayloadView::Ping { .. } ==> r matches Some(reply)
                && reply@.payload == (PayloadView::Pong {
                node_id: old(self).node_id@,
                address: old(self).local_address@,
            }),
            message@.payload matches PayloadView::Ping { node_id } ==> ({
                let rt_old = old(self).routing_table;
                let rt_new = final(self).routing_table;
                let bi = crate::id::spec_bucket_index(
                    rt_old.node_id@,
                    node_id,
                    rt_old.buckets@.len() as int,
                );
                let old_nodes = rt_old.buckets@[bi].nodes@;
                &&& rt_new.buckets@.len() == rt_old.buckets@.len()
                &&& (node_id != rt_old.node_id@ && (has_id(old_nodes, node_id) || old_nodes.len()
                    < rt_old.k || (exists|j: int|
                    0 <= j < old_nodes.len() && spec_is_stale(
                        #[trigger] old_nodes[j]@,
                        now,
                        STALE_TIMEOUT_SECS,
                    ))) ==> has_id(rt_new.buckets@[bi].nodes@, node_id))
            }),
            message@.payload matches PayloadView::FindNode { target_id } ==> r matches Some(reply)
                && (reply@.payload matches PayloadView::FindNodeResponse { nodes }) && {
                let found = reply@.payload->FindNodeResponse_nodes;
                &&& found.len() == (if old(self).routing_table.k <= old(
                    self,
                ).routing_table.spec_total() {
                    old(self).routing_table.k as int
                } else {
                    old(self).routing_table.spec_total()
                })
                &&& forall|i: int, j: int|
                    #![trigger found[i], found[j]]
                    0 <= i < j < found.len() ==> closer_eq(
                        target_id,
                        peer_as_node(found[i]),
                        peer_as_node(found[j]),
                    )
                &&& forall|i: int, y: crate::routing::NodeView|
                    #![trigger found[i], old(self).routing_table.table_contains(y)]
                    0 <= i < found.len() && old(self).routing_table.table_contains(y)
                        && !peers_have_id(found, y.node_id) ==> closer_eq(
                        target_id,
                        peer_as_node(found[i]),
                        y,
                    )
            },
            message@.payload matches PayloadView::Store { key, value, .. } ==> r matches Some(
                reply,
            ) && (reply@.payload matches PayloadView::StoreResponse { success }) && {
                let success = reply@.payload->StoreResponse_success;
                &&& (success ==> final(self).storage@.dom().contains(key) && final(self).storage@[key].value == value)
                &&& success == !(store_bytes(old(self).storage.entries@) - spec_size_of(
                    old(self).storage.entries@,
                    key,
                ) + value.len() > old(self).storage.max_bytes)
            },
            message@.payload matches PayloadView::FindValue { key } ==> r is Some
                && collector_has(final(self).metrics.metrics@, key) && match r {
                Some(reply) => match reply@.payload {
                    PayloadView::FindValueFound { value } => old(self).storage@.dom().contains(
                        key,
                    ) && !expired(old(self).storage@[key], now) && value == old(self).storage@[key].value,
                    PayloadView::FindValueNodes { .. } => !old(self).storage@.dom().contains(key)
                        || expired(old(self).storage@[key], now),
                    _ => false,
                },
                None => false,
            },
            message@.payload matches PayloadView::GlobalRankingRequest ==> r matches Some(reply)
                && (reply@.payload matches PayloadView::GlobalRankingResponse { ranking }) && ({
                let served = reply@.payload->GlobalRankingResponse_ranking;
                &&& served.len() == old(self).exchanger.global_ranking@.len()
                &&& forall|i: int|
                    0 <= i < served.len() ==> #[trigger] served[i] == old(self).exchanger.global_ranking@[i]@
            }),
            message@.payload matches PayloadView::PopularityExchange { items } ==> r matches Some(
                reply,
            ) && (reply@.payload matches PayloadView::PopularityExchangeResponse { .. }) && ({
                let offered = reply@.payload->PopularityExchangeResponse_items;
                &&& offered.len() == (if EXCHANGE_REPLY_CAP <= old(self).metrics.metrics@.len() {
                    EXCHANGE_REPLY_CAP as int
                } else {
                    old(self).metrics.metrics@.len() as int
                })
                &&& forall|i: int, j: int|
                    #![trigger offered[i], offered[j]]
                    0 <= i < j < offered.len() ==> crate::ranking::rank_le(offered[i], offered[j])
                &&& forall|i: int|
                    0 <= i < offered.len() ==> crate::ranking::scored_from(
                        old(self).metrics.metrics@,
                        #[trigger] offered[i],
                        now,
                    )
            }) && final(self).metrics.metrics@.len() >= old(self).metrics.metrics@.len() && (forall|
                j: int,
            |
                0 <= j < old(self).metrics.metrics@.len() ==> spec_replication_raised_only(
                    #[trigger] old(self).metrics.metrics@[j],
                    final(self).metrics.metrics@[j],
                )) && (forall|ii: int|
                0 <= ii < items.len() ==> collector_has(
                    final(self).metrics.metrics@,
                    (#[trigger] items[ii]).key,
                )),
            (message@.payload matches PayloadView::Pong { .. } || message@.payload
                matches PayloadView::FindNodeResponse { .. } || message@.payload
                matches PayloadView::FindValueFound { .. } || message@.payload
                matches PayloadView::FindValueNodes { .. } || message@.payload
                matches PayloadView::StoreResponse { .. } || message@.payload
                matches PayloadView::PopularityExchangeResponse { .. } || message@.payload
                matches PayloadView::GlobalRankingResponse { .. }) ==> r is None,
    {
        let Message { id: msg_id, sender, timestamp_milli: _, payload } = message;
        match payload {
            Payload::Ping { node_id } => {
                let peer = Node::new(
                    node_id,
                    clone_bytes(sender_address),
                    sender_port,
                    now,
                );
                self.routing_table.add_node(peer, now);
                let reply = Message {
                    id: msg_id,
                    sender: self.node_id,
                    timestamp_milli: now_milli,
                    payload: Payload::Pong {
                        node_id: self.node_id,
                        address: clone_bytes(&self.local_address),
                    },
                };
                Some(reply)
            },
            Payload::FindNode { target_id } => {
                let count = self.routing_table.k;
                let closest = self.routing_table.find_closest_nodes(&target_id, count);
                let peers = nodes_as_peers(&closest, Ghost(target_id@));
                proof {
                    let fv = crate::wire::peer_views(peers@);
                    assert(fv.len() == closest@.len());
                    assert forall|i: int, y: crate::routing::NodeView|
                        #![trigger fv[i], self.routing_table.table_contains(y)]
                        0 <= i < fv.len() && self.routing_table.table_contains(y)
                            && !peers_have_id(fv, y.node_id)
                        implies closer_eq(target_id@, peer_as_node(fv[i]), y) by {
                        assert(!crate::routing::has_view_id(closest@, y.node_id)) by {
                            if crate::routing::has_view_id(closest@, y.node_id) {
                                let w = choose|w: int|
                                    0 <= w < closest@.len() && closest@[w]@.node_id == y.node_id;
                                assert(fv[w].node_id == y.node_id);
                            }
                        }
                        assert(closer_eq(target_id@, closest@[i]@, y));
                        assert(peer_as_node(fv[i]).node_id == closest@[i]@.node_id);
                        assert(crate::id::xor_bytes(peer_as_node(fv[i]).node_id, target_id@)
                            =~= crate::id::xor_bytes(closest@[i]@.node_id, target_id@));
                    }
                }
                Some(
                    Message {
                        id: msg_id,
                        sender: self.node_id,
                        timestamp_milli: now_milli,
                        payload: Payload::FindNodeResponse { nodes: peers },
                    },
                )
            },
            Payload::FindValue { key } => {
                self.metrics.record_find_value(
                    clone_bytes(&key),
                    Some(node_id_vec(&sender)),
                    now,
                );
                match self.storage.get(&key, now) {
                    Some(value) => Some(
                        Message {
                            id: msg_id,
                            sender: self.node_id,
                            timestamp_milli: now_milli,
                            payload: Payload::FindValueFound { value },
                        },
                    ),
                    None => {
                        let target = target_id_of_key(&key);
                        let count = self.routing_table.k;
                        let closest = self.routing_table.find_closest_nodes(&target, count);
                        let peers = nodes_as_peers(&closest, Ghost(target@));
                        Some(
                            Message {
                                id: msg_id,
                                sender: self.node_id,
                                timestamp_milli: now_milli,
                                payload: Payload::FindValueNodes { nodes: peers },
                            },
                        )
                    },
                }
            },
            Payload::Store { key, value, ttl } => {
                let bounded_ttl = if ttl > u64::MAX - now {
                    u64::MAX - now
                } else {
                    ttl
                };
                let ghost key_view = key@;
                let ghost value_view = value@;
                let stored = self.storage.put(key, value, bounded_ttl, now);
                let success = stored.is_ok();
                proof {
                    if success {
                        assert(self.storage@.dom().contains(key_view));
                        assert(self.storage@[key_view].value == value_view);
                    }
                }
                Some(
                    Message {
                        id: msg_id,
                        sender: self.node_id,
                        timestamp_milli: now_milli,
                        payload: Payload::StoreResponse { success },
                    },
                )
            },
            Payload::PopularityExchange { items } => {
                let offered = self.exchanger.exchange_top_items(
                    &mut self.metrics,
                    &items,
                    EXCHANGE_REPLY_CAP,
                    now,
                );
                Some(
                    Message {
                        id: msg_id,
                        sender: self.node_id,
                        timestamp_milli: now_milli,
                        payload: Payload::PopularityExchangeResponse { items: offered },
                    },
                )
            },
            Payload::GlobalRankingRequest => {
                let ranking = self.exchanger.get_global_ranking_api();
                Some(
                    Message {
                        id: msg_id,
                        sender: self.node_id,
                        timestamp_milli: now_milli,
                        payload: Payload::GlobalRankingResponse { ranking },
                    },
                )
            },
            Payload::Pong { .. } => None,
            Payload::FindNodeResponse { .. } => None,
            Payload::FindValueFound { .. } => None,
            Payload::FindValueNodes { .. } => None,
            Payload::StoreResponse { .. } => None,
            Payload::PopularityExchangeResponse { .. } => None,
            Payload::GlobalRankingResponse { .. } => None,
        }
    }

    /// Open a correlation slot under a fresh random request identifier;
    /// in the unlikely event of a collision with an open slot, retries
    /// are left to the caller.
    pub fn register_request(&mut self, ticket: u64) -> (r: Option<[u8; 16]>)
        requires
            old(self).wf(),
        ensures
            final(self).wf(),
            r matches Some(id) ==> crate::correlate::ticket_of(
                final(self).correlation.pending@,
                id@,
            ) == Some(ticket),
            r is None ==> final(self).correlation == old(self).correlation,
    {
        let id = generate_msg_id();
        if self.correlation.register(id, ticket) {
            Some(id)
        } else {
            None
        }
    }

    /// Build an outbound request around a payload.
    pub fn build_request(&self, id: [u8; 16], payload: Payload, now_milli: u64) -> (r: Message)
        ensures
            r@ == (MsgView {
                id: id@,
                sender: self.node_id@,
                timestamp_milli: now_milli,
                payload: payload@,
            }),
    {
        Message { id, sender: self.node_id, timestamp_milli: now_milli, payload }
    }
}

/// The identifier bytes of a peer, as a vector.
pub fn node_id_vec(id: &NodeID) -> (r: Vec<u8>)
    ensures
        r@ == id@,
{
    let mut out: Vec<u8> = Vec::new();
    let mut i: usize = 0;
    while i < 20
        invariant
            i <= 20,
            out@.len() == i,
            forall|j: int| 0 <= j < i ==> out@[j] == id.0@[j],
        decreases 20 - i,
    {
        out.push(id.0[i]);
        i = i + 1;
    }
    proof {
        assert(out@ =~= id@);
    }
    out
}

/// The routing target an arbitrary-length key maps to: its first twenty
/// bytes, zero-padded on the right when it is shorter.
pub fn target_id_of_key(key: &Vec<u8>) -> (r: NodeID)
    ensures
        forall|i: int|
            0 <= i < 20 ==> r@[i] == (if i < key@.len() {
                key@[i]
            } else {
                0u8
            }),
{
    let mut id = [0u8; 20];
    let n = if key.len() < 20 {
        key.len()
    } else {
        20
    };
    let mut i: usize = 0;
    while i < n
        invariant
            n <= 20,
            n <= key@.len(),
            i <= n,
            forall|j: int| 0 <= j < i ==> id@[j] == key@[j],
            forall|j: int| i <= j < 20 ==> id@[j] == 0u8,
        decreases n - i,
    {
        id[i] = key[i];
        i = i + 1;
    }
    NodeID(id)
}

/// Some wire peer in `s` carries the identifier `id`.
pub open spec fn peers_have_id(s: Seq<crate::wire::PeerView>, id: Seq<u8>) -> bool {
    exists|i: int| 0 <= i < s.len() && (#[trigger] s[i]).node_id == id
}

/// The view a routing peer presents on the wire, without liveness data.
pub open spec fn peer_as_node(p: crate::wire::PeerView) -> crate::routing::NodeView {
    crate::routing::NodeView {
        node_id: p.node_id,
        address: p.address,
        port: p.port,
        last_seen: 0,
        failed_pings: 0,
    }
}

/// Wire peers for a list of routing peers, in the same order; the
/// distance order to `target` is preserved.
fn nodes_as_peers(nodes: &Vec<Node>, target: Ghost<Seq<u8>>) -> (r: Vec<PeerInfo>)
    requires
        forall|i: int, j: int|
            0 <= i < j < nodes@.len() ==> closer_eq(target@, nodes@[i]@, nodes@[j]@),
    ensures
        r@.len() == nodes@.len(),
        forall|i: int|
            0 <= i < r@.len() ==> (#[trigger] r@[i])@.node_id == nodes@[i]@.node_id && r@[i]@.address
                == nodes@[i]@.address && r@[i]@.port == nodes@[i]@.port,
        forall|i: int, j: int|
            #![trigger r@[i], r@[j]]
            0 <= i < j < r@.len() ==> closer_eq(
                target@,
                peer_as_node(r@[i]@),
                peer_as_node(r@[j]@),
            ),
{
    let mut out: Vec<PeerInfo> = Vec::new();
    let mut i: usize = 0;
    while i < nodes.len()
        invariant
            i <= nodes@.len(),
            out@.len() == i,
            forall|a: int, b: int|
                0 <= a < b < nodes@.len() ==> closer_eq(target@, nodes@[a]@, nodes@[b]@),
            forall|a: int|
                0 <= a < i ==> (#[trigger] out@[a])@.node_id == nodes@[a]@.node_id && out@[a]@.address
                    == nodes@[a]@.address && out@[a]@.port == nodes@[a]@.port,
        decreases nodes@.len() - i,
    {
        let n = &nodes[i];
        out.push(
            PeerInfo {
                node_id: n.node_id,
                address: clone_bytes(&n.address),
                port: n.port,
            },
        );
        i = i + 1;
    }
    proof {
        assert forall|a: int, b: int| 0 <= a < b < out@.len()
            implies closer_eq(target@, peer_as_node(out@[a]@), peer_as_node(out@[b]@)) by {
            assert(closer_eq(target@, nodes@[a]@, nodes@[b]@));
        }
    }
    out
}

/// Interpret a reply to a peer search: the peers it carries, or nothing
/// for any other shape.
pub fn interpret_find_node_response(message: Message) -> (r: Option<Vec<PeerInfo>>)
    ensures
        match r {
            Some(peers) => message@.payload == (PayloadView::FindNodeResponse {
                nodes: crate::wire::peer_views(peers@),
            }),
            None => !(message@.payload matches PayloadView::FindNodeResponse { .. }),
        },
{
    match message.payload {
        Payload::FindNodeResponse { nodes } => Some(nodes),
        _ => None,
    }
}

/// Interpret a reply to a value search: the value when it was found, the
/// closer peers when not, or nothing for any other shape.
pub fn interpret_find_value_response(message: Message) -> (r: Option<Result<Vec<u8>, Vec<PeerInfo>>>)
    ensures
        match r {
            Some(Ok(value)) => message@.payload == (PayloadView::FindValueFound {
                value: value@,
            }),
            Some(Err(peers)) => message@.payload == (PayloadView::FindValueNodes {
                nodes: crate::wire::peer_views(peers@),
            }),
            None => !(message@.payload matches PayloadView::FindValueFound { .. })
                && !(message@.payload matches PayloadView::FindValueNodes { .. }),
        },
{
    match message.payload {
        Payload::FindValueFound { value } => Some(Ok(value)),
        Payload::FindValueNodes { nodes } => Some(Err(nodes)),
        _ => None,
    }
}

/// Interpret a reply to a store: whether the peer accepted it; any other
/// shape counts as refusal.
pub fn interpret_store_response(message: Message) -> (r: bool)
    ensures
        r == (message@.payload == PayloadView::StoreResponse { success: true }),
{
    match message.payload {
        Payload::StoreResponse { success } => success,
        _ => false,
    }
}

/// Interpret a reply to a probe: whether it is an answer, and the true
/// identifier of the peer that answered.
pub fn interpret_pong(message: Message) -> (r: Option<NodeID>)
    ensures
        match r {
            Some(id) => message@.payload matches PayloadView::Pong { node_id, .. } && id@
                == message@.payload->Pong_node_id,
            None => !(message@.payload matches PayloadView::Pong { .. }),
        },
{
    match message.payload {
        Payload::Pong { node_id, .. } => Some(node_id),
        _ => None,
    }
}

} // verus!
