//! The binary wire codec: self-describing datagrams with a type byte, a
//! request identifier, the sender's identifier, a timestamp and a typed
//! payload. Encoding is canonical; decoding accepts exactly the canonical
//! form and rejects everything else.
use vstd::prelude::*;
use crate::id::NodeID;
use crate::metrics::MetricsSnapshot;
use crate::ranking::{RankedItem, RankedView};

verus! {

/// Message type byte: liveness probe.
pub const MSG_PING: u8 = 0x01;

/// Message type byte: answer to a probe.
pub const MSG_PONG: u8 = 0x02;

/// Message type byte: ask for the closest peers to a target.
pub const MSG_FIND_NODE: u8 = 0x03;

/// Message type byte: the closest peers found.
pub const MSG_FIND_NODE_RESPONSE: u8 = 0x04;

/// Message type byte: ask for a value by key.
pub const MSG_FIND_VALUE: u8 = 0x05;

/// Message type byte: the value, or peers that may hold it.
pub const MSG_FIND_VALUE_RESPONSE: u8 = 0x06;

/// Message type byte: ask a peer to store a value.
pub const MSG_STORE: u8 = 0x07;

/// Message type byte: whether the store was accepted.
pub const MSG_STORE_RESPONSE: u8 = 0x08;

/// Message type byte: offer popularity items.
pub const MSG_POPULARITY_EXCHANGE: u8 = 0x09;

/// Message type byte: popularity items offered back.
pub const MSG_POPULARITY_EXCHANGE_RESPONSE: u8 = 0x0A;

/// Message type byte: ask a seed for its global ranking.
pub const MSG_GLOBAL_RANKING_REQUEST: u8 = 0x0B;

/// Message type byte: a seed's global ranking.
pub const MSG_GLOBAL_RANKING_RESPONSE: u8 = 0x0C;

/// Bytes of the fixed message header: type, request identifier, sender
/// identifier and timestamp.
pub const HEADER_BYTES: usize = 45;

/// A peer as carried on the wire.
pub struct PeerInfo {
    /// The peer's identifier.
    pub node_id: NodeID,
    /// Contact host, as the bytes of its textual form.
    pub address: Vec<u8>,
    /// Contact UDP port.
    pub port: u16,
}

/// Mathematical image of a wire peer.
#[verifier::ext_equal]
pub struct PeerView {
    pub node_id: Seq<u8>,
    pub address: Seq<u8>,
    pub port: u16,
}

impl View for PeerInfo {
    type V = PeerView;

    open spec fn view(&self) -> PeerView {
        PeerView { node_id: self.node_id@, address: self.address@, port: self.port }
    }
}

/// A message payload, one variant per wire shape.
pub enum Payload {
    /// A liveness probe carrying the sender's identifier.
    Ping { node_id: NodeID },
    /// The answer to a probe: the responder's identifier and address.
    Pong { node_id: NodeID, address: Vec<u8> },
    /// Ask for the closest peers to `target_id`.
    FindNode { target_id: NodeID },
    /// The closest peers found.
    FindNodeResponse { nodes: Vec<PeerInfo> },
    /// Ask for the value stored under `key`.
    FindValue { key: Vec<u8> },
    /// The value asked for was found.
    FindValueFound { value: Vec<u8> },
    /// The value was not here; these peers may be closer.
    FindValueNodes { nodes: Vec<PeerInfo> },
    /// Ask the receiver to store `value` under `key` for `ttl` seconds.
    Store { key: Vec<u8>, value: Vec<u8>, ttl: u64 },
    /// Whether a store was accepted.
    StoreResponse { success: bool },
    /// Popularity items offered to a neighbor.
    PopularityExchange { items: Vec<RankedItem> },
    /// Popularity items offered back.
    PopularityExchangeResponse { items: Vec<RankedItem> },
    /// Ask a seed for its cached global ranking.
    GlobalRankingRequest,
    /// A seed's cached global ranking.
    GlobalRankingResponse { ranking: Vec<RankedItem> },
}

/// Mathematical image of a payload.
#[verifier::ext_equal]
pub enum PayloadView {
    Ping { node_id: Seq<u8> },
    Pong { node_id: Seq<u8>, address: Seq<u8> },
    FindNode { target_id: Seq<u8> },
    FindNodeResponse { nodes: Seq<PeerView> },
    FindValue { key: Seq<u8> },
    FindValueFound { value: Seq<u8> },
    FindValueNodes { nodes: Seq<PeerView> },
    Store { key: Seq<u8>, value: Seq<u8>, ttl: u64 },
    StoreResponse { success: bool },
    PopularityExchange { items: Seq<RankedView> },
    PopularityExchangeResponse { items: Seq<RankedView> },
    GlobalRankingRequest,
    GlobalRankingResponse { ranking: Seq<RankedView> },
}

/// Views of a sequence of wire peers.
pub open spec fn peer_views(s: Seq<PeerInfo>) -> Seq<PeerView> {
    Seq::new(s.len(), |i: int| s[i]@)
}

/// Views of a sequence of ranked items.
pub open spec fn item_views(s: Seq<RankedItem>) -> Seq<RankedView> {
    Seq::new(s.len(), |i: int| s[i]@)
}

impl View for Payload {
    type V = PayloadView;

    open spec fn view(&self) -> PayloadView {
        match self {
            Payload::Ping { node_id } => PayloadView::Ping { node_id: node_id@ },
            Payload::Pong { node_id, address } => PayloadView::Pong {
                node_id: node_id@,
                address: address@,
            },
            Payload::FindNode { target_id } => PayloadView::FindNode { target_id: target_id@ },
            Payload::FindNodeResponse { nodes } => PayloadView::FindNodeResponse {
                nodes: peer_views(nodes@),
            },
            Payload::FindValue { key } => PayloadView::FindValue { key: key@ },
            Payload::FindValueFound { value } => PayloadView::FindValueFound { value: value@ },
            Payload::FindValueNodes { nodes } => PayloadView::FindValueNodes {
                nodes: peer_views(nodes@),
            },
            Payload::Store { key, value, ttl } => PayloadView::Store {
                key: key@,
                value: value@,
                ttl: *ttl,
            },
            Payload::StoreResponse { success } => PayloadView::StoreResponse {
                success: *success,
            },
            Payload::PopularityExchange { items } => PayloadView::PopularityExchange {
                items: item_views(items@),
            },
            Payload::PopularityExchangeResponse { items } => {
                PayloadView::PopularityExchangeResponse { items: item_views(items@) }
            },
            Payload::GlobalRankingRequest => PayloadView::GlobalRankingRequest,
            Payload::GlobalRankingResponse { ranking } => PayloadView::GlobalRankingResponse {
                ranking: item_views(ranking@),
            },
        }
    }
}

/// One wire message: header fields and the typed payload.
pub struct Message {
    /// The 128-bit request identifier.
    pub id: [u8; 16],
    /// The sender's identifier.
    pub sender: NodeID,
    /// The sender's clock when sending, in milliseconds.
    pub timestamp_milli: u64,
    /// The payload.
    pub payload: Payload,
}

/// Mathematical image of a message.
#[verifier::ext_equal]
pub struct MsgView {
    pub id: Seq<u8>,
    pub sender: Seq<u8>,
    pub timestamp_milli: u64,
    pub payload: PayloadView,
}

impl View for Message {
    type V = MsgView;

    open spec fn view(&self) -> MsgView {
        MsgView {
            id: self.id@,
            sender: self.sender@,
            timestamp_milli: self.timestamp_milli,
            payload: self.payload@,
        }
    }
}

/// Big-endian bytes of a 16-bit integer.
pub open spec fn spec_be16(x: u16) -> Seq<u8> {
    seq![((x >> 8) & 0xff) as u8, (x & 0xff) as u8]
}

/// Big-endian bytes of a 32-bit integer.
pub open spec fn spec_be32(x: u32) -> Seq<u8> {
    seq![
        ((x >> 24) & 0xff) as u8,
        ((x >> 16) & 0xff) as u8,
        ((x >> 8) & 0xff) as u8,
        (x & 0xff) as u8,
    ]
}

/// Big-endian bytes of a 64-bit integer.
pub open spec fn spec_be64(x: u64) -> Seq<u8> {
    seq![
        ((x >> 56) & 0xff) as u8,
        ((x >> 48) & 0xff) as u8,
        ((x >> 40) & 0xff) as u8,
        ((x >> 32) & 0xff) as u8,
        ((x >> 24) & 0xff) as u8,
        ((x >> 16) & 0xff) as u8,
        ((x >> 8) & 0xff) as u8,
        (x & 0xff) as u8,
    ]
}

/// The 16-bit integer read big-endian at `off`.
pub open spec fn u16_at(b: Seq<u8>, off: int) -> u16
    recommends
        0 <= off,
        off + 2 <= b.len(),
{
    (((b[off] as u16) << 8) | (b[off + 1] as u16)) as u16
}

/// The 32-bit integer read big-endian at `off`.
pub open spec fn u32_at(b: Seq<u8>, off: int) -> u32
    recommends
        0 <= off,
        off + 4 <= b.len(),
{
    (((b[off] as u32) << 24) | ((b[off + 1] as u32) << 16) | ((b[off + 2] as u32) << 8) | (b[off
        + 3] as u32)) as u32
}

/// The 64-bit integer read big-endian at `off`.
pub open spec fn u64_at(b: Seq<u8>, off: int) -> u64
    recommends
        0 <= off,
        off + 8 <= b.len(),
{
    (((b[off] as u64) << 56) | ((b[off + 1] as u64) << 48) | ((b[off + 2] as u64) << 40) | ((b[off
        + 3] as u64) << 32) | ((b[off + 4] as u64) << 24) | ((b[off + 5] as u64) << 16) | ((b[off
        + 6] as u64) << 8) | (b[off + 7] as u64)) as u64
}

/// Reading back the big-endian bytes of `x` yields `x`.
pub proof fn lemma_be16_roundtrip(x: u16)
    ensures
        forall|b: Seq<u8>, off: int|
            0 <= off && off + 2 <= b.len() && b[off] == spec_be16(x)[0] && b[off + 1] == spec_be16(
                x,
            )[1] ==> u16_at(b, off) == x,
{
    assert forall|b: Seq<u8>, off: int|
        0 <= off && off + 2 <= b.len() && b[off] == spec_be16(x)[0] && b[off + 1] == spec_be16(
            x,
        )[1] implies u16_at(b, off) == x by {
        let b0 = b[off];
        let b1 = b[off + 1];
        assert(b0 == ((x >> 8) & 0xff) as u8 && b1 == (x & 0xff) as u8 ==> ((((b0 as u16) << 8) | (
        b1 as u16)) as u16) == x) by (bit_vector);
    }
}

/// Reading back the big-endian bytes of `x` yields `x`.
pub proof fn lemma_be32_roundtrip(x: u32)
    ensures
        forall|b: Seq<u8>, off: int|
            0 <= off && off + 4 <= b.len() && (forall|k: int|
                0 <= k < 4 ==> b[off + k] == spec_be32(x)[k]) ==> u32_at(b, off) == x,
{
    assert forall|b: Seq<u8>, off: int|
        0 <= off && off + 4 <= b.len() && (forall|k: int|
            0 <= k < 4 ==> b[off + k] == spec_be32(x)[k]) implies u32_at(b, off) == x by {
        let b0 = b[off];
        let b1 = b[off + 1];
        let b2 = b[off + 2];
        let b3 = b[off + 3];
        assert(b[off + 0] == spec_be32(x)[0]);
        assert(b[off + 1] == spec_be32(x)[1]);
        assert(b[off + 2] == spec_be32(x)[2]);
        assert(b[off + 3] == spec_be32(x)[3]);
        assert(b0 == ((x >> 24) & 0xff) as u8 && b1 == ((x >> 16) & 0xff) as u8 && b2 == ((x >> 8)
            & 0xff) as u8 && b3 == (x & 0xff) as u8 ==> ((((b0 as u32) << 24) | ((b1 as u32) << 16)
            | ((b2 as u32) << 8) | (b3 as u32)) as u32) == x) by (bit_vector);
    }
}

/// Reading back the big-endian bytes of `x` yields `x`.
pub proof fn lemma_be64_roundtrip(x: u64)
    ensures
        forall|b: Seq<u8>, off: int|
            0 <= off && off + 8 <= b.len() && (forall|k: int|
                0 <= k < 8 ==> b[off + k] == spec_be64(x)[k]) ==> u64_at(b, off) == x,
{
    assert forall|b: Seq<u8>, off: int|
        0 <= off && off + 8 <= b.len() && (forall|k: int|
            0 <= k < 8 ==> b[off + k] == spec_be64(x)[k]) implies u64_at(b, off) == x by {
        let b0 = b[off];
        let b1 = b[off + 1];
        let b2 = b[off + 2];
        let b3 = b[off + 3];
        let b4 = b[off + 4];
        let b5 = b[off + 5];
        let b6 = b[off + 6];
        let b7 = b[off + 7];
        assert(b[off + 0] == spec_be64(x)[0]);
        assert(b[off + 1] == spec_be64(x)[1]);
        assert(b[off + 2] == spec_be64(x)[2]);
        assert(b[off + 3] == spec_be64(x)[3]);
        assert(b[off + 4] == spec_be64(x)[4]);
        assert(b[off + 5] == spec_be64(x)[5]);
        assert(b[off + 6] == spec_be64(x)[6]);
        assert(b[off + 7] == spec_be64(x)[7]);
        assert(b0 == ((x >> 56) & 0xff) as u8 && b1 == ((x >> 48) & 0xff) as u8 && b2 == ((x >> 40)
            & 0xff) as u8 && b3 == ((x >> 32) & 0xff) as u8 && b4 == ((x >> 24) & 0xff) as u8 && b5
            == ((x >> 16) & 0xff) as u8 && b6 == ((x >> 8) & 0xff) as u8 && b7 == (x & 0xff) as u8
            ==> ((((b0 as u64) << 56) | ((b1 as u64) << 48) | ((b2 as u64) << 40) | ((b3
            as u64) << 32) | ((b4 as u64) << 24) | ((b5 as u64) << 16) | ((b6 as u64) << 8) | (b7
            as u64)) as u64) == x) by (bit_vector);
    }
}

/// A byte field with a 16-bit length prefix.
pub open spec fn spec_b16_field(b: Seq<u8>) -> Seq<u8>
    recommends
        b.len() <= u16::MAX,
{
    spec_be16(b.len() as u16) + b
}

/// A byte field with a 32-bit length prefix.
pub open spec fn spec_b32_field(b: Seq<u8>) -> Seq<u8>
    recommends
        b.len() <= u32::MAX,
{
    spec_be32(b.len() as u32) + b
}

/// Canonical bytes of one wire peer.
pub open spec fn spec_encode_peer(p: PeerView) -> Seq<u8> {
    p.node_id + spec_b16_field(p.address) + spec_be16(p.port)
}

/// Canonical bytes of a run of wire peers.
pub open spec fn spec_encode_peers(s: Seq<PeerView>) -> Seq<u8>
    decreases s.len(),
{
    if s.len() == 0 {
        Seq::empty()
    } else {
        spec_encode_peer(s[0]) + spec_encode_peers(s.drop_first())
    }
}

/// Canonical bytes of one popularity item: its key, its score, and the
/// numeric metrics snapshot.
pub open spec fn spec_encode_item(it: RankedView) -> Seq<u8> {
    spec_b32_field(it.key) + spec_be32(it.score_milli) + spec_be64(it.metrics.request_count)
        + spec_be64(it.metrics.request_rate_milli) + spec_be32(it.metrics.replication_count)
        + spec_be32(it.metrics.freshness_milli) + spec_be32(it.metrics.audience_size) + spec_be64(
        it.metrics.social_engagements,
    ) + spec_be32(it.metrics.seed_coverage_milli) + spec_be64(it.metrics.first_seen) + spec_be64(
        it.metrics.last_request,
    )
}

/// Canonical bytes of a run of popularity items.
pub open spec fn spec_encode_items(s: Seq<RankedView>) -> Seq<u8>
    decreases s.len(),
{
    if s.len() == 0 {
        Seq::empty()
    } else {
        spec_encode_item(s[0]) + spec_encode_items(s.drop_first())
    }
}

/// The type byte of a payload.
pub open spec fn spec_type_byte(p: PayloadView) -> u8 {
    match p {
        PayloadView::Ping { .. } => MSG_PING,
        PayloadView::Pong { .. } => MSG_PONG,
        PayloadView::FindNode { .. } => MSG_FIND_NODE,
        PayloadView::FindNodeResponse { .. } => MSG_FIND_NODE_RESPONSE,
        PayloadView::FindValue { .. } => MSG_FIND_VALUE,
        PayloadView::FindValueFound { .. } => MSG_FIND_VALUE_RESPONSE,
        PayloadView::FindValueNodes { .. } => MSG_FIND_VALUE_RESPONSE,
        PayloadView::Store { .. } => MSG_STORE,
        PayloadView::StoreResponse { .. } => MSG_STORE_RESPONSE,
        PayloadView::PopularityExchange { .. } => MSG_POPULARITY_EXCHANGE,
        PayloadView::PopularityExchangeResponse { .. } => MSG_POPULARITY_EXCHANGE_RESPONSE,
        PayloadView::GlobalRankingRequest => MSG_GLOBAL_RANKING_REQUEST,
        PayloadView::GlobalRankingResponse { .. } => MSG_GLOBAL_RANKING_RESPONSE,
    }
}

/// Canonical bytes of a payload, after the header.
pub open spec fn spec_encode_payload(p: PayloadView) -> Seq<u8> {
    match p {
        PayloadView::Ping { node_id } => node_id,
        PayloadView::Pong { node_id, address } => node_id + spec_b16_field(address),
        PayloadView::FindNode { target_id } => target_id,
        PayloadView::FindNodeResponse { nodes } => spec_be16(nodes.len() as u16)
            + spec_encode_peers(nodes),
        PayloadView::FindValue { key } => spec_b32_field(key),
        PayloadView::FindValueFound { value } => seq![1u8] + spec_b32_field(value),
        PayloadView::FindValueNodes { nodes } => seq![0u8] + spec_be16(nodes.len() as u16)
            + spec_encode_peers(nodes),
        PayloadView::Store { key, value, ttl } => spec_b32_field(key) + spec_b32_field(value)
            + spec_be64(ttl),
        PayloadView::StoreResponse { success } => seq![if success { 1u8 } else { 0u8 }],
        PayloadView::PopularityExchange { items } => spec_be16(items.len() as u16)
            + spec_encode_items(items),
        PayloadView::PopularityExchangeResponse { items } => spec_be16(items.len() as u16)
            + spec_encode_items(items),
        PayloadView::GlobalRankingRequest => Seq::empty(),
        PayloadView::GlobalRankingResponse { ranking } => spec_be16(ranking.len() as u16)
            + spec_encode_items(ranking),
    }
}

/// Canonical bytes of a whole message.
pub open spec fn spec_encode_msg(m: MsgView) -> Seq<u8> {
    seq![spec_type_byte(m.payload)] + m.id + m.sender + spec_be64(m.timestamp_milli)
        + spec_encode_payload(m.payload)
}

/// A wire peer whose fields fit their length prefixes.
pub open spec fn wf_peer(p: PeerView) -> bool {
    p.node_id.len() == 20 && p.address.len() <= u16::MAX
}

/// An item whose key fits its length prefix.
pub open spec fn wf_item(it: RankedView) -> bool {
    it.key.len() <= u32::MAX
}

/// A payload whose fields fit their length prefixes and counts.
pub open spec fn wf_payload(p: PayloadView) -> bool {
    match p {
        PayloadView::Ping { node_id } => node_id.len() == 20,
        PayloadView::Pong { node_id, address } => node_id.len() == 20 && address.len()
            <= u16::MAX,
        PayloadView::FindNode { target_id } => target_id.len() == 20,
        PayloadView::FindNodeResponse { nodes } => nodes.len() <= u16::MAX && (forall|i: int|
            0 <= i < nodes.len() ==> wf_peer(#[trigger] nodes[i])),
        PayloadView::FindValue { key } => key.len() <= u32::MAX,
        PayloadView::FindValueFound { value } => value.len() <= u32::MAX,
        PayloadView::FindValueNodes { nodes } => nodes.len() <= u16::MAX && (forall|i: int|
            0 <= i < nodes.len() ==> wf_peer(#[trigger] nodes[i])),
        PayloadView::Store { key, value, .. } => key.len() <= u32::MAX && value.len()
            <= u32::MAX,
        PayloadView::StoreResponse { .. } => true,
        PayloadView::PopularityExchange { items } => items.len() <= u16::MAX && (forall|i: int|
            0 <= i < items.len() ==> wf_item(#[trigger] items[i])),
        PayloadView::PopularityExchangeResponse { items } => items.len() <= u16::MAX && (forall|
            i: int,
        |
            0 <= i < items.len() ==> wf_item(#[trigger] items[i])),
        PayloadView::GlobalRankingRequest => true,
        PayloadView::GlobalRankingResponse { ranking } => ranking.len() <= u16::MAX && (forall|
            i: int,
        |
            0 <= i < ranking.len() ==> wf_item(#[trigger] ranking[i])),
    }
}

/// A message whose fields fit the wire format.
pub open spec fn wf_msg(m: MsgView) -> bool {
    m.id.len() == 16 && m.sender.len() == 20 && wf_payload(m.payload)
}

proof fn lemma_encode_peers_take(s: Seq<PeerView>, i: int)
    requires
        0 <= i < s.len(),
    ensures
        spec_encode_peers(s.take(i + 1)) =~= spec_encode_peers(s.take(i)) + spec_encode_peer(
            s[i],
        ),
    decreases i,
{
    if i == 0 {
        assert(s.take(0) =~= Seq::<PeerView>::empty());
        assert(s.take(1) =~= seq![s[0]]);
        assert(s.take(1).drop_first() =~= Seq::<PeerView>::empty());
    } else {
        lemma_encode_peers_take(s.drop_first(), i - 1);
        assert(s.take(i + 1).drop_first() =~= s.drop_first().take(i));
        assert(s.take(i).drop_first() =~= s.drop_first().take(i - 1));
        assert(s.take(i + 1)[0] == s[0]);
        assert(s.take(i)[0] == s[0]);
    }
}

proof fn lemma_encode_items_take(s: Seq<RankedView>, i: int)
    requires
        0 <= i < s.len(),
    ensures
        spec_encode_items(s.take(i + 1)) =~= spec_encode_items(s.take(i)) + spec_encode_item(
            s[i],
        ),
    decreases i,
{
    if i == 0 {
        assert(s.take(0) =~= Seq::<RankedView>::empty());
        assert(s.take(1) =~= seq![s[0]]);
        assert(s.take(1).drop_first() =~= Seq::<RankedView>::empty());
    } else {
        lemma_encode_items_take(s.drop_first(), i - 1);
        assert(s.take(i + 1).drop_first() =~= s.drop_first().take(i));
        assert(s.take(i).drop_first() =~= s.drop_first().take(i - 1));
        assert(s.take(i + 1)[0] == s[0]);
        assert(s.take(i)[0] == s[0]);
    }
}

/// Append one byte.
fn push_u8(out: &mut Vec<u8>, x: u8)
    ensures
        final(out)@ == old(out)@ + seq![x],
{
    out.push(x);
    proof {
        assert(out@ =~= old(out)@ + seq![x]);
    }
}

/// Append a 16-bit integer, big-endian.
fn push_u16(out: &mut Vec<u8>, x: u16)
    ensures
        final(out)@ == old(out)@ + spec_be16(x),
{
    proof {
        assert(((x >> 8) & 0xff) < 256 && (x & 0xff) < 256) by (bit_vector);
    }
    out.push(((x >> 8) & 0xff) as u8);
    out.push((x & 0xff) as u8);
    proof {
        assert(out@ =~= old(out)@ + spec_be16(x));
    }
}

/// Append a 32-bit integer, big-endian.
fn push_u32(out: &mut Vec<u8>, x: u32)
    ensures
        final(out)@ == old(out)@ + spec_be32(x),
{
    proof {
        assert(((x >> 24) & 0xff) < 256 && ((x >> 16) & 0xff) < 256 && ((x >> 8) & 0xff) < 256 && (
        x & 0xff) < 256) by (bit_vector);
    }
    out.push(((x >> 24) & 0xff) as u8);
    out.push(((x >> 16) & 0xff) as u8);
    out.push(((x >> 8) & 0xff) as u8);
    out.push((x & 0xff) as u8);
    proof {
        assert(out@ =~= old(out)@ + spec_be32(x));
    }
}

/// Append a 64-bit integer, big-endian.
fn push_u64(out: &mut Vec<u8>, x: u64)
    ensures
        final(out)@ == old(out)@ + spec_be64(x),
{
    proof {
        assert(((x >> 56) & 0xff) < 256 && ((x >> 48) & 0xff) < 256 && ((x >> 40) & 0xff) < 256
            && ((x >> 32) & 0xff) < 256 && ((x >> 24) & 0xff) < 256 && ((x >> 16) & 0xff) < 256
            && ((x >> 8) & 0xff) < 256 && (x & 0xff) < 256) by (bit_vector);
    }
    out.push(((x >> 56) & 0xff) as u8);
    out.push(((x >> 48) & 0xff) as u8);
    out.push(((x >> 40) & 0xff) as u8);
    out.push(((x >> 32) & 0xff) as u8);
    out.push(((x >> 24) & 0xff) as u8);
    out.push(((x >> 16) & 0xff) as u8);
    out.push(((x >> 8) & 0xff) as u8);
    out.push((x & 0xff) as u8);
    proof {
        assert(out@ =~= old(out)@ + spec_be64(x));
    }
}

/// Append raw bytes.
fn push_bytes(out: &mut Vec<u8>, b: &[u8])
    ensures
        final(out)@ == old(out)@ + b@,
{
    let mut i: usize = 0;
    while i < b.len()
        invariant
            i <= b@.len(),
            out@ == old(out)@ + b@.subrange(0, i as int),
        decreases b@.len() - i,
    {
        out.push(b[i]);
        proof {
            assert(out@ =~= old(out)@ + b@.subrange(0, i + 1));
        }
        i = i + 1;
    }
    proof {
        assert(b@.subrange(0, b@.len() as int) =~= b@);
    }
}

/// Append a byte field with a 16-bit length prefix.
fn push_b16_field(out: &mut Vec<u8>, b: &Vec<u8>)
    requires
        b@.len() <= u16::MAX,
    ensures
        final(out)@ == old(out)@ + spec_b16_field(b@),
{
    push_u16(out, b.len() as u16);
    push_bytes(out, b.as_slice());
    proof {
        assert(out@ =~= old(out)@ + spec_b16_field(b@));
    }
}

/// Append a byte field with a 32-bit length prefix.
fn push_b32_field(out: &mut Vec<u8>, b: &Vec<u8>)
    requires
        b@.len() <= u32::MAX,
    ensures
        final(out)@ == old(out)@ + spec_b32_field(b@),
{
    push_u32(out, b.len() as u32);
    push_bytes(out, b.as_slice());
    proof {
        assert(out@ =~= old(out)@ + spec_b32_field(b@));
    }
}

/// Append one encoded peer.
fn push_peer(out: &mut Vec<u8>, p: &PeerInfo)
    requires
        wf_peer(p@),
    ensures
        final(out)@ == old(out)@ + spec_encode_peer(p@),
{
    push_bytes(out, p.node_id.0.as_slice());
    push_b16_field(out, &p.address);
    push_u16(out, p.port);
    proof {
        assert(out@ =~= old(out)@ + spec_encode_peer(p@));
    }
}

/// Append one encoded item.
fn push_item(out: &mut Vec<u8>, it: &RankedItem)
    requires
        wf_item(it@),
    ensures
        final(out)@ == old(out)@ + spec_encode_item(it@),
{
    push_b32_field(out, &it.key);
    push_u32(out, it.score_milli);
    push_u64(out, it.metrics.request_count);
    push_u64(out, it.metrics.request_rate_milli);
    push_u32(out, it.metrics.replication_count);
    push_u32(out, it.metrics.freshness_milli);
    push_u32(out, it.metrics.audience_size);
    push_u64(out, it.metrics.social_engagements);
    push_u32(out, it.metrics.seed_coverage_milli);
    push_u64(out, it.metrics.first_seen);
    push_u64(out, it.metrics.last_request);
    proof {
        assert(out@ =~= old(out)@ + spec_encode_item(it@));
    }
}

/// Append a run of encoded peers.
fn push_peers(out: &mut Vec<u8>, nodes: &Vec<PeerInfo>)
    requires
        forall|i: int| 0 <= i < nodes@.len() ==> wf_peer((#[trigger] nodes@[i])@),
    ensures
        final(out)@ == old(out)@ + spec_encode_peers(peer_views(nodes@)),
{
    let ghost vs = peer_views(nodes@);
    proof {
        assert(vs.take(0) =~= Seq::<PeerView>::empty());
        assert(spec_encode_peers(vs.take(0)) =~= Seq::<u8>::empty());
        assert(out@ =~= out@ + spec_encode_peers(vs.take(0)));
    }
    let mut i: usize = 0;
    while i < nodes.len()
        invariant
            i <= nodes@.len(),
            vs == peer_views(nodes@),
            forall|j: int| 0 <= j < nodes@.len() ==> wf_peer((#[trigger] nodes@[j])@),
            out@ == old(out)@ + spec_encode_peers(vs.take(i as int)),
        decreases nodes@.len() - i,
    {
        push_peer(out, &nodes[i]);
        proof {
            lemma_encode_peers_take(vs, i as int);
            assert(vs[i as int] == nodes@[i as int]@);
            assert(out@ =~= old(out)@ + spec_encode_peers(vs.take(i + 1)));
        }
        i = i + 1;
    }
    proof {
        assert(vs.take(vs.len() as int) =~= vs);
    }
}

/// Append a run of encoded items.
fn push_items(out: &mut Vec<u8>, items: &Vec<RankedItem>)
    requires
        forall|i: int| 0 <= i < items@.len() ==> wf_item((#[trigger] items@[i])@),
    ensures
        final(out)@ == old(out)@ + spec_encode_items(item_views(items@)),
{
    let ghost vs = item_views(items@);
    proof {
        assert(vs.take(0) =~= Seq::<RankedView>::empty());
        assert(spec_encode_items(vs.take(0)) =~= Seq::<u8>::empty());
        assert(out@ =~= out@ + spec_encode_items(vs.take(0)));
    }
    let mut i: usize = 0;
    while i < items.len()
        invariant
            i <= items@.len(),
            vs == item_views(items@),
            forall|j: int| 0 <= j < items@.len() ==> wf_item((#[trigger] items@[j])@),
            out@ == old(out)@ + spec_encode_items(vs.take(i as int)),
        decreases items@.len() - i,
    {
        push_item(out, &items[i]);
        proof {
            lemma_encode_items_take(vs, i as int);
            assert(vs[i as int] == items@[i as int]@);
            assert(out@ =~= old(out)@ + spec_encode_items(vs.take(i + 1)));
        }
        i = i + 1;
    }
    proof {
        assert(vs.take(vs.len() as int) =~= vs);
    }
}

/// Encode a message into its canonical bytes.
pub fn encode_message(m: &Message) -> (r: Vec<u8>)
    requires
        wf_msg(m@),
    ensures
        r@ == spec_encode_msg(m@),
{
    let mut out: Vec<u8> = Vec::new();
    let t = type_byte(m);
    push_u8(&mut out, t);
    push_bytes(&mut out, m.id.as_slice());
    push_bytes(&mut out, m.sender.0.as_slice());
    push_u64(&mut out, m.timestamp_milli);
    match &m.payload {
        Payload::Ping { node_id } => {
            push_bytes(&mut out, node_id.0.as_slice());
        },
        Payload::Pong { node_id, address } => {
            push_bytes(&mut out, node_id.0.as_slice());
            push_b16_field(&mut out, address);
        },
        Payload::FindNode { target_id } => {
            push_bytes(&mut out, target_id.0.as_slice());
        },
        Payload::FindNodeResponse { nodes } => {
            proof {
                assert forall|i: int| 0 <= i < nodes@.len()
                    implies wf_peer((#[trigger] nodes@[i])@) by {
                    assert(peer_views(nodes@)[i] == nodes@[i]@);
                }
            }
            push_u16(&mut out, nodes.len() as u16);
            push_peers(&mut out, nodes);
        },
        Payload::FindValue { key } => {
            push_b32_field(&mut out, key);
        },
        Payload::FindValueFound { value } => {
            push_u8(&mut out, 1);
            push_b32_field(&mut out, value);
        },
        Payload::FindValueNodes { nodes } => {
            proof {
                assert forall|i: int| 0 <= i < nodes@.len()
                    implies wf_peer((#[trigger] nodes@[i])@) by {
                    assert(peer_views(nodes@)[i] == nodes@[i]@);
                }
            }
            push_u8(&mut out, 0);
            push_u16(&mut out, nodes.len() as u16);
            push_peers(&mut out, nodes);
        },
        Payload::Store { key, value, ttl } => {
            push_b32_field(&mut out, key);
            push_b32_field(&mut out, value);
            push_u64(&mut out, *ttl);
        },
        Payload::StoreResponse { success } => {
            if *success {
                push_u8(&mut out, 1);
            } else {
                push_u8(&mut out, 0);
            }
        },
        Payload::PopularityExchange { items } => {
            proof {
                assert forall|i: int| 0 <= i < items@.len()
                    implies wf_item((#[trigger] items@[i])@) by {
                    assert(item_views(items@)[i] == items@[i]@);
                }
            }
            push_u16(&mut out, items.len() as u16);
            push_items(&mut out, items);
        },
        Payload::PopularityExchangeResponse { items } => {
            proof {
                assert forall|i: int| 0 <= i < items@.len()
                    implies wf_item((#[trigger] items@[i])@) by {
                    assert(item_views(items@)[i] == items@[i]@);
                }
            }
            push_u16(&mut out, items.len() as u16);
            push_items(&mut out, items);
        },
        Payload::GlobalRankingRequest => {},
        Payload::GlobalRankingResponse { ranking } => {
            proof {
                assert forall|i: int| 0 <= i < ranking@.len()
                    implies wf_item((#[trigger] ranking@[i])@) by {
                    assert(item_views(ranking@)[i] == ranking@[i]@);
                }
            }
            push_u16(&mut out, ranking.len() as u16);
            push_items(&mut out, ranking);
        },
    }
    proof {
        assert(peer_views(Seq::<PeerInfo>::empty()) =~= Seq::<PeerView>::empty());
        assert(out@ =~= spec_encode_msg(m@));
    }
    out
}

/// One parsed wire peer, read at `off`: twenty identifier bytes, a
/// length-prefixed address, and a port.
pub open spec fn spec_decode_peer(b: Seq<u8>, off: int) -> Option<(PeerView, int)> {
    if 0 <= off && off + 22 <= b.len() {
        let node = b.subrange(off, off + 20);
        let alen = u16_at(b, off + 20) as int;
        if off + 24 + alen <= b.len() {
            let addr = b.subrange(off + 22, off + 22 + alen);
            let port = u16_at(b, off + 22 + alen);
            Some((PeerView { node_id: node, address: addr, port }, off + 24 + alen))
        } else {
            None
        }
    } else {
        None
    }
}

/// A run of `n` parsed wire peers starting at `off`.
pub open spec fn spec_decode_peers(b: Seq<u8>, off: int, n: int) -> Option<(Seq<PeerView>, int)>
    decreases n,
{
    if n <= 0 {
        Some((Seq::empty(), off))
    } else {
        match spec_decode_peer(b, off) {
            Some((p, off2)) => match spec_decode_peers(b, off2, n - 1) {
                Some((s, off3)) => Some((seq![p] + s, off3)),
                None => None,
            },
            None => None,
        }
    }
}

/// One parsed popularity item, read at `off`.
pub open spec fn spec_decode_item(b: Seq<u8>, off: int) -> Option<(RankedView, int)> {
    if 0 <= off && off + 4 <= b.len() {
        let klen = u32_at(b, off) as int;
        if off + 4 + klen + 60 <= b.len() {
            let key = b.subrange(off + 4, off + 4 + klen);
            let p = off + 4 + klen;
            let v = RankedView {
                key,
                score_milli: u32_at(b, p),
                metrics: MetricsSnapshot {
                    request_count: u64_at(b, p + 4),
                    request_rate_milli: u64_at(b, p + 12),
                    replication_count: u32_at(b, p + 20),
                    freshness_milli: u32_at(b, p + 24),
                    audience_size: u32_at(b, p + 28),
                    social_engagements: u64_at(b, p + 32),
                    seed_coverage_milli: u32_at(b, p + 40),
                    first_seen: u64_at(b, p + 44),
                    last_request: u64_at(b, p + 52),
                },
            };
            Some((v, p + 60))
        } else {
            None
        }
    } else {
        None
    }
}

/// A run of `n` parsed popularity items starting at `off`.
pub open spec fn spec_decode_items(b: Seq<u8>, off: int, n: int) -> Option<(Seq<RankedView>, int)>
    decreases n,
{
    if n <= 0 {
        Some((Seq::empty(), off))
    } else {
        match spec_decode_item(b, off) {
            Some((it, off2)) => match spec_decode_items(b, off2, n - 1) {
                Some((s, off3)) => Some((seq![it] + s, off3)),
                None => None,
            },
            None => None,
        }
    }
}

/// The payload of type `t` parsed at `off`, with the position after it.
pub open spec fn spec_decode_payload(t: u8, b: Seq<u8>, off: int) -> Option<(PayloadView, int)> {
    if t == MSG_PING {
        if off + 20 <= b.len() {
            Some((PayloadView::Ping { node_id: b.subrange(off, off + 20) }, off + 20))
        } else {
            None
        }
    } else if t == MSG_PONG {
        if off + 22 <= b.len() {
            let alen = u16_at(b, off + 20) as int;
            if off + 22 + alen <= b.len() {
                Some(
                    (
                        PayloadView::Pong {
                            node_id: b.subrange(off, off + 20),
                            address: b.subrange(off + 22, off + 22 + alen),
                        },
                        off + 22 + alen,
                    ),
                )
            } else {
                None
            }
        } else {
            None
        }
    } else if t == MSG_FIND_NODE {
        if off + 20 <= b.len() {
            Some((PayloadView::FindNode { target_id: b.subrange(off, off + 20) }, off + 20))
        } else {
            None
        }
    } else if t == MSG_FIND_NODE_RESPONSE {
        if off + 2 <= b.len() {
            match spec_decode_peers(b, off + 2, u16_at(b, off) as int) {
                Some((s, end)) => Some((PayloadView::FindNodeResponse { nodes: s }, end)),
                None => None,
            }
        } else {
            None
        }
    } else if t == MSG_FIND_VALUE {
        if off + 4 <= b.len() {
            let klen = u32_at(b, off) as int;
            if off + 4 + klen <= b.len() {
                Some(
                    (
                        PayloadView::FindValue { key: b.subrange(off + 4, off + 4 + klen) },
                        off + 4 + klen,
                    ),
                )
            } else {
                None
            }
        } else {
            None
        }
    } else if t == MSG_FIND_VALUE_RESPONSE {
        if off + 1 <= b.len() {
            if b[off] == 1 {
                if off + 5 <= b.len() {
                    let vlen = u32_at(b, off + 1) as int;
                    if off + 5 + vlen <= b.len() {
                        Some(
                            (
                                PayloadView::FindValueFound {
                                    value: b.subrange(off + 5, off + 5 + vlen),
                                },
                                off + 5 + vlen,
                            ),
                        )
                    } else {
                        None
                    }
                } else {
                    None
                }
            } else if b[off] == 0 {
                if off + 3 <= b.len() {
                    match spec_decode_peers(b, off + 3, u16_at(b, off + 1) as int) {
                        Some((s, end)) => Some((PayloadView::FindValueNodes { nodes: s }, end)),
                        None => None,
                    }
                } else {
                    None
                }
            } else {
                None
            }
        } else {
            None
        }
    } else if t == MSG_STORE {
        if off + 4 <= b.len() {
            let klen = u32_at(b, off) as int;
            if off + 8 + klen <= b.len() {
                let vlen = u32_at(b, off + 4 + klen) as int;
                if off + 16 + klen + vlen <= b.len() {
                    Some(
                        (
                            PayloadView::Store {
                                key: b.subrange(off + 4, off + 4 + klen),
                                value: b.subrange(off + 8 + klen, off + 8 + klen + vlen),
                                ttl: u64_at(b, off + 8 + klen + vlen),
                            },
                            off + 16 + klen + vlen,
                        ),
                    )
                } else {
                    None
                }
            } else {
                None
            }
        } else {
            None
        }
    } else if t == MSG_STORE_RESPONSE {
        if off + 1 <= b.len() && (b[off] == 1 || b[off] == 0) {
            Some((PayloadView::StoreResponse { success: b[off] == 1 }, off + 1))
        } else {
            None
        }
    } else if t == MSG_POPULARITY_EXCHANGE {
        if off + 2 <= b.len() {
            match spec_decode_items(b, off + 2, u16_at(b, off) as int) {
                Some((s, end)) => Some((PayloadView::PopularityExchange { items: s }, end)),
                None => None,
            }
        } else {
            None
        }
    } else if t == MSG_POPULARITY_EXCHANGE_RESPONSE {
        if off + 2 <= b.len() {
            match spec_decode_items(b, off + 2, u16_at(b, off) as int) {
                Some((s, end)) => Some(
                    (PayloadView::PopularityExchangeResponse { items: s }, end),
                ),
                None => None,
            }
        } else {
            None
        }
    } else if t == MSG_GLOBAL_RANKING_REQUEST {
        Some((PayloadView::GlobalRankingRequest, off))
    } else if t == MSG_GLOBAL_RANKING_RESPONSE {
        if off + 2 <= b.len() {
            match spec_decode_items(b, off + 2, u16_at(b, off) as int) {
                Some((s, end)) => Some((PayloadView::GlobalRankingResponse { ranking: s }, end)),
                None => None,
            }
        } else {
            None
        }
    } else {
        None
    }
}

/// The message parsed from `b`: a full header, a payload of the header's
/// type, and nothing left over.
pub open spec fn spec_decode_msg(b: Seq<u8>) -> Option<MsgView> {
    if b.len() >= 45 {
        match spec_decode_payload(b[0], b, 45) {
            Some((p, end)) => if end == b.len() && b[0] == spec_type_byte(p) {
                Some(
                    MsgView {
                        id: b.subrange(1, 17),
                        sender: b.subrange(17, 37),
                        timestamp_milli: u64_at(b, 37),
                        payload: p,
                    },
                )
            } else {
                None
            },
            None => None,
        }
    } else {
        None
    }
}

/// Read a 16-bit integer, big-endian, at `off`.
fn read_u16(b: &[u8], off: usize) -> (r: u16)
    requires
        off + 2 <= b@.len(),
    ensures
        r == u16_at(b@, off as int),
{
    ((b[off] as u16) << 8u16) | (b[off + 1] as u16)
}

/// Read a 32-bit integer, big-endian, at `off`.
fn read_u32(b: &[u8], off: usize) -> (r: u32)
    requires
        off + 4 <= b@.len(),
    ensures
        r == u32_at(b@, off as int),
{
    ((b[off] as u32) << 24u32) | ((b[off + 1] as u32) << 16u32) | ((b[off + 2] as u32) << 8u32) | (
    b[off + 3] as u32)
}

/// Read a 64-bit integer, big-endian, at `off`.
fn read_u64(b: &[u8], off: usize) -> (r: u64)
    requires
        off + 8 <= b@.len(),
    ensures
        r == u64_at(b@, off as int),
{
    ((b[off] as u64) << 56u64) | ((b[off + 1] as u64) << 48u64) | ((b[off + 2] as u64) << 40u64) | (
    (b[off + 3] as u64) << 32u64) | ((b[off + 4] as u64) << 24u64) | ((b[off + 5] as u64)
        << 16u64) | ((b[off + 6] as u64) << 8u64) | (b[off + 7] as u64)
}

/// Copy `len` bytes starting at `off`.
fn read_vec(b: &[u8], off: usize, len: usize) -> (r: Vec<u8>)
    requires
        off + len <= b@.len(),
    ensures
        r@ == b@.subrange(off as int, off as int + len as int),
{
    let total = b.len();
    let mut out: Vec<u8> = Vec::new();
    let mut i: usize = 0;
    while i < len
        invariant
            total == b@.len(),
            off + len <= b@.len(),
            i <= len,
            out@ == b@.subrange(off as int, off as int + i as int),
        decreases len - i,
    {
        out.push(b[off + i]);
        proof {
            assert(out@ =~= b@.subrange(off as int, off as int + i + 1));
        }
        i = i + 1;
    }
    out
}

/// Copy twenty identifier bytes starting at `off`.
fn read_node_id(b: &[u8], off: usize) -> (r: NodeID)
    requires
        off + 20 <= b@.len(),
    ensures
        r@ == b@.subrange(off as int, off as int + 20),
{
    let total = b.len();
    let mut id = [0u8; 20];
    let mut i: usize = 0;
    while i < 20
        invariant
            total == b@.len(),
            off + 20 <= b@.len(),
            i <= 20,
            forall|j: int| 0 <= j < i ==> id@[j] == b@[off + j],
        decreases 20 - i,
    {
        id[i] = b[off + i];
        i = i + 1;
    }
    proof {
        assert(id@ =~= b@.subrange(off as int, off as int + 20));
    }
    NodeID(id)
}

/// Parse one wire peer at `off`.
fn decode_peer(b: &[u8], off: usize) -> (r: Option<(PeerInfo, usize)>)
    requires
        off <= b@.len(),
    ensures
        match r {
            Some((p, end)) => spec_decode_peer(b@, off as int) == Some((p@, end as int)) && off
                < end <= b@.len(),
            None => spec_decode_peer(b@, off as int) is None,
        },
{
    let rem = b.len() - off;
    if rem < 22 {
        return None;
    }
    let node_id = read_node_id(b, off);
    let alen = read_u16(b, off + 20) as usize;
    if rem - 22 < alen || (rem - 22) - alen < 2 {
        return None;
    }
    let address = read_vec(b, off + 22, alen);
    let port = read_u16(b, off + 22 + alen);
    let p = PeerInfo { node_id, address, port };
    proof {
        let sv = spec_decode_peer(b@, off as int);
        assert(sv == Some((p@, off + 24 + alen as int))) by {
            assert(p@ =~= (PeerView {
                node_id: b@.subrange(off as int, off + 20),
                address: b@.subrange(off + 22, off + 22 + alen),
                port: u16_at(b@, off + 22 + alen),
            }));
        }
    }
    Some((p, off + 24 + alen))
}

/// Parse `n` wire peers at `off`.
fn decode_peers(b: &[u8], off: usize, n: u16) -> (r: Option<(Vec<PeerInfo>, usize)>)
    requires
        off <= b@.len(),
    ensures
        match r {
            Some((v, end)) => spec_decode_peers(b@, off as int, n as int) == Some(
                (peer_views(v@), end as int),
            ) && off <= end <= b@.len(),
            None => spec_decode_peers(b@, off as int, n as int) is None,
        },
    decreases n,
{
    if n == 0 {
        let v: Vec<PeerInfo> = Vec::new();
        proof {
            assert(peer_views(v@) =~= Seq::<PeerView>::empty());
        }
        return Some((v, off));
    }
    match decode_peer(b, off) {
        Some((p, off2)) => {
            match decode_peers(b, off2, n - 1) {
                Some((rest, end)) => {
                    let mut v = rest;
                    let ghost rest_view = v@;
                    v.insert(0, p);
                    proof {
                        assert(peer_views(v@) =~= seq![p@] + peer_views(rest_view)) by {
                            assert(v@ == rest_view.insert(0, p));
                            assert forall|i: int| 0 <= i < v@.len()
                                implies peer_views(v@)[i] == (seq![p@] + peer_views(
                                rest_view,
                            ))[i] by {
                                if i > 0 {
                                    assert(v@[i] == rest_view[i - 1]);
                                }
                            }
                        }
                    }
                    Some((v, end))
                },
                None => None,
            }
        },
        None => None,
    }
}

/// Parse one popularity item at `off`.
fn decode_item(b: &[u8], off: usize) -> (r: Option<(RankedItem, usize)>)
    requires
        off <= b@.len(),
    ensures
        match r {
            Some((it, end)) => spec_decode_item(b@, off as int) == Some((it@, end as int)) && off
                < end <= b@.len(),
            None => spec_decode_item(b@, off as int) is None,
        },
{
    let rem = b.len() - off;
    if rem < 4 {
        return None;
    }
    let klen = read_u32(b, off) as usize;
    if rem - 4 < klen || (rem - 4) - klen < 60 {
        return None;
    }
    let key = read_vec(b, off + 4, klen);
    let p = off + 4 + klen;
    let it = RankedItem {
        key,
        score_milli: read_u32(b, p),
        metrics: MetricsSnapshot {
            request_count: read_u64(b, p + 4),
            request_rate_milli: read_u64(b, p + 12),
            replication_count: read_u32(b, p + 20),
            freshness_milli: read_u32(b, p + 24),
            audience_size: read_u32(b, p + 28),
            social_engagements: read_u64(b, p + 32),
            seed_coverage_milli: read_u32(b, p + 40),
            first_seen: read_u64(b, p + 44),
            last_request: read_u64(b, p + 52),
        },
    };
    proof {
        let sv = spec_decode_item(b@, off as int);
        assert(sv == Some((it@, p + 60 as int))) by {
            assert(it@ =~= sv->Some_0.0);
        }
    }
    Some((it, p + 60))
}

/// Parse `n` popularity items at `off`.
fn decode_items(b: &[u8], off: usize, n: u16) -> (r: Option<(Vec<RankedItem>, usize)>)
    requires
        off <= b@.len(),
    ensures
        match r {
            Some((v, end)) => spec_decode_items(b@, off as int, n as int) == Some(
                (item_views(v@), end as int),
            ) && off <= end <= b@.len(),
            None => spec_decode_items(b@, off as int, n as int) is None,
        },
    decreases n,
{
    if n == 0 {
        let v: Vec<RankedItem> = Vec::new();
        proof {
            assert(item_views(v@) =~= Seq::<RankedView>::empty());
        }
        return Some((v, off));
    }
    match decode_item(b, off) {
        Some((it, off2)) => {
            match decode_items(b, off2, n - 1) {
                Some((rest, end)) => {
                    let ghost it_view = it@;
                    let mut v = rest;
                    let ghost rest_view = v@;
                    v.insert(0, it);
                    proof {
                        assert(item_views(v@) =~= seq![it_view] + item_views(rest_view)) by {
                            assert(v@ == rest_view.insert(0, it));
                            assert forall|i: int| 0 <= i < v@.len()
                                implies item_views(v@)[i] == (seq![it_view] + item_views(
                                rest_view,
                            ))[i] by {
                                if i > 0 {
                                    assert(v@[i] == rest_view[i - 1]);
                                }
                            }
                        }
                    }
                    Some((v, end))
                },
                None => None,
            }
        },
        None => None,
    }
}

/// Parse a datagram into a message; anything but the canonical encoding
/// of some message reads as absent.
pub fn decode_message(bytes: &[u8]) -> (r: Option<Message>)
    ensures
        match r {
            Some(m) => spec_decode_msg(bytes@) == Some(m@),
            None => spec_decode_msg(bytes@) is None,
        },
{
    if bytes.len() < 45 {
        return None;
    }
    let t = bytes[0];
    let mut id = [0u8; 16];
    let mut i: usize = 0;
    while i < 16
        invariant
            bytes@.len() >= 45,
            i <= 16,
            forall|j: int| 0 <= j < i ==> id@[j] == bytes@[1 + j],
        decreases 16 - i,
    {
        id[i] = bytes[1 + i];
        i = i + 1;
    }
    proof {
        assert(id@ =~= bytes@.subrange(1, 17));
    }
    let sender = read_node_id(bytes, 17);
    let timestamp_milli = read_u64(bytes, 37);
    let parsed: Option<(Payload, usize)> = if t == MSG_PING {
        if bytes.len() - 45 >= 20 {
            Some((Payload::Ping { node_id: read_node_id(bytes, 45) }, 65))
        } else {
            None
        }
    } else if t == MSG_PONG {
        if bytes.len() - 45 >= 22 {
            let alen = read_u16(bytes, 65) as usize;
            if (bytes.len() - 67) >= alen {
                Some(
                    (
                        Payload::Pong {
                            node_id: read_node_id(bytes, 45),
                            address: read_vec(bytes, 67, alen),
                        },
                        67 + alen,
                    ),
                )
            } else {
                None
            }
        } else {
            None
        }
    } else if t == MSG_FIND_NODE {
        if bytes.len() - 45 >= 20 {
            Some((Payload::FindNode { target_id: read_node_id(bytes, 45) }, 65))
        } else {
            None
        }
    } else if t == MSG_FIND_NODE_RESPONSE {
        if bytes.len() - 45 >= 2 {
            let n = read_u16(bytes, 45);
            match decode_peers(bytes, 47, n) {
                Some((nodes, end)) => Some((Payload::FindNodeResponse { nodes }, end)),
                None => None,
            }
        } else {
            None
        }
    } else if t == MSG_FIND_VALUE {
        if bytes.len() - 45 >= 4 {
            let klen = read_u32(bytes, 45) as usize;
            if (bytes.len() - 49) >= klen {
                Some((Payload::FindValue { key: read_vec(bytes, 49, klen) }, 49 + klen))
            } else {
                None
            }
        } else {
            None
        }
    } else if t == MSG_FIND_VALUE_RESPONSE {
        if bytes.len() - 45 >= 1 {
            if bytes[45] == 1 {
                if bytes.len() - 46 >= 4 {
                    let vlen = read_u32(bytes, 46) as usize;
                    if (bytes.len() - 50) >= vlen {
                        Some(
                            (
                                Payload::FindValueFound { value: read_vec(bytes, 50, vlen) },
                                50 + vlen,
                            ),
                        )
                    } else {
                        None
                    }
                } else {
                    None
                }
            } else if bytes[45] == 0 {
                if bytes.len() - 46 >= 2 {
                    let n = read_u16(bytes, 46);
                    match decode_peers(bytes, 48, n) {
                        Some((nodes, end)) => Some((Payload::FindValueNodes { nodes }, end)),
                        None => None,
                    }
                } else {
                    None
                }
            } else {
                None
            }
        } else {
            None
        }
    } else if t == MSG_STORE {
        if bytes.len() - 45 >= 4 {
            let klen = read_u32(bytes, 45) as usize;
            if (bytes.len() - 49) >= klen && ((bytes.len() - 49) - klen) >= 4 {
                let vlen = read_u32(bytes, 49 + klen) as usize;
                if ((bytes.len() - 53) - klen) >= vlen && (((bytes.len() - 53) - klen) - vlen)
                    >= 8 {
                    Some(
                        (
                            Payload::Store {
                                key: read_vec(bytes, 49, klen),
                                value: read_vec(bytes, 53 + klen, vlen),
                                ttl: read_u64(bytes, 53 + klen + vlen),
                            },
                            61 + klen + vlen,
                        ),
                    )
                } else {
                    None
                }
            } else {
                None
            }
        } else {
            None
        }
    } else if t == MSG_STORE_RESPONSE {
        if bytes.len() - 45 >= 1 && (bytes[45] == 1 || bytes[45] == 0) {
            Some((Payload::StoreResponse { success: bytes[45] == 1 }, 46))
        } else {
            None
        }
    } else if t == MSG_POPULARITY_EXCHANGE {
        if bytes.len() - 45 >= 2 {
            let n = read_u16(bytes, 45);
            match decode_items(bytes, 47, n) {
                Some((items, end)) => Some((Payload::PopularityExchange { items }, end)),
                None => None,
            }
        } else {
            None
        }
    } else if t == MSG_POPULARITY_EXCHANGE_RESPONSE {
        if bytes.len() - 45 >= 2 {
            let n = read_u16(bytes, 45);
            match decode_items(bytes, 47, n) {
                Some((items, end)) => Some(
                    (Payload::PopularityExchangeResponse { items }, end),
                ),
                None => None,
            }
        } else {
            None
        }
    } else if t == MSG_GLOBAL_RANKING_REQUEST {
        Some((Payload::GlobalRankingRequest, 45))
    } else if t == MSG_GLOBAL_RANKING_RESPONSE {
        if bytes.len() - 45 >= 2 {
            let n = read_u16(bytes, 45);
            match decode_items(bytes, 47, n) {
                Some((items, end)) => Some((Payload::GlobalRankingResponse { ranking: items }, end)),
                None => None,
            }
        } else {
            None
        }
    } else {
        None
    };
    match parsed {
        Some((payload, end)) => {
            if end == bytes.len() {
                let m = Message { id, sender, timestamp_milli, payload };
                proof {
                    assert(spec_decode_msg(bytes@) == Some(m@)) by {
                        assert(spec_decode_payload(t, bytes@, 45) == Some(
                            (m@.payload, end as int),
                        ));
                        assert(spec_type_byte(m@.payload) == t);
                        let d = spec_decode_msg(bytes@)->Some_0;
                        assert(d =~= m@);
                    }
                }
                Some(m)
            } else {
                None
            }
        },
        None => None,
    }
}

proof fn lemma_read_u16_concat(x: u16, pre: Seq<u8>, post: Seq<u8>)
    ensures
        u16_at(pre + spec_be16(x) + post, pre.len() as int) == x,
{
    let b = pre + spec_be16(x) + post;
    let off = pre.len() as int;
    lemma_be16_roundtrip(x);
    assert(b[off] == spec_be16(x)[0]);
    assert(b[off + 1] == spec_be16(x)[1]);
}

proof fn lemma_read_u32_concat(x: u32, pre: Seq<u8>, post: Seq<u8>)
    ensures
        u32_at(pre + spec_be32(x) + post, pre.len() as int) == x,
{
    let b = pre + spec_be32(x) + post;
    let off = pre.len() as int;
    lemma_be32_roundtrip(x);
    assert forall|k: int| 0 <= k < 4 implies b[off + k] == spec_be32(x)[k] by {}
}

proof fn lemma_read_u64_concat(x: u64, pre: Seq<u8>, post: Seq<u8>)
    ensures
        u64_at(pre + spec_be64(x) + post, pre.len() as int) == x,
{
    let b = pre + spec_be64(x) + post;
    let off = pre.len() as int;
    lemma_be64_roundtrip(x);
    assert forall|k: int| 0 <= k < 8 implies b[off + k] == spec_be64(x)[k] by {}
}

proof fn lemma_read_sub(d: Seq<u8>, pre: Seq<u8>, post: Seq<u8>)
    ensures
        (pre + d + post).subrange(pre.len() as int, pre.len() as int + d.len() as int) =~= d,
{
}

proof fn lemma_peer_round(p: PeerView, pre: Seq<u8>, post: Seq<u8>)
    requires
        wf_peer(p),
    ensures
        spec_decode_peer(pre + spec_encode_peer(p) + post, pre.len() as int) == Some(
            (p, pre.len() + spec_encode_peer(p).len() as int),
        ),
{
    let enc = spec_encode_peer(p);
    let b = pre + enc + post;
    let off = pre.len() as int;
    let alen = p.address.len() as u16;
    assert(b =~= pre + p.node_id + (spec_be16(alen) + p.address + spec_be16(p.port) + post));
    lemma_read_sub(p.node_id, pre, spec_be16(alen) + p.address + spec_be16(p.port) + post);
    let pre2 = pre + p.node_id;
    assert(b =~= pre2 + spec_be16(alen) + (p.address + spec_be16(p.port) + post));
    lemma_read_u16_concat(alen, pre2, p.address + spec_be16(p.port) + post);
    let pre3 = pre2 + spec_be16(alen);
    assert(b =~= pre3 + p.address + (spec_be16(p.port) + post));
    lemma_read_sub(p.address, pre3, spec_be16(p.port) + post);
    let pre4 = pre3 + p.address;
    assert(b =~= pre4 + spec_be16(p.port) + post);
    lemma_read_u16_concat(p.port, pre4, post);
    let d = spec_decode_peer(b, off);
    assert(d is Some);
    assert(d->Some_0.0 =~= p);
    assert(d->Some_0.1 == off + 24 + p.address.len());
    assert(enc.len() == 24 + p.address.len());
}

proof fn lemma_peers_round(s: Seq<PeerView>, pre: Seq<u8>, post: Seq<u8>)
    requires
        forall|i: int| 0 <= i < s.len() ==> wf_peer(#[trigger] s[i]),
    ensures
        spec_decode_peers(pre + spec_encode_peers(s) + post, pre.len() as int, s.len() as int)
            == Some((s, pre.len() + spec_encode_peers(s).len() as int)),
    decreases s.len(),
{
    let enc = spec_encode_peers(s);
    let b = pre + enc + post;
    let off = pre.len() as int;
    if s.len() == 0 {
        assert(b =~= pre + post);
        assert(spec_decode_peers(b, off, 0) == Some((Seq::<PeerView>::empty(), off)));
        assert(s =~= Seq::<PeerView>::empty());
    } else {
        let p0 = s[0];
        let rest = s.drop_first();
        assert(enc =~= spec_encode_peer(p0) + spec_encode_peers(rest));
        assert(b =~= pre + spec_encode_peer(p0) + (spec_encode_peers(rest) + post));
        lemma_peer_round(p0, pre, spec_encode_peers(rest) + post);
        let off2 = off + spec_encode_peer(p0).len();
        let pre2 = pre + spec_encode_peer(p0);
        assert(b =~= pre2 + spec_encode_peers(rest) + post);
        assert(pre2.len() == off2);
        assert forall|i: int| 0 <= i < rest.len() implies wf_peer(#[trigger] rest[i]) by {
            assert(rest[i] == s[i + 1]);
        }
        lemma_peers_round(rest, pre2, post);
        assert(spec_decode_peer(b, off) == Some((p0, off2)));
        assert(spec_decode_peers(b, off2, rest.len() as int) == Some(
            (rest, off2 + spec_encode_peers(rest).len()),
        ));
        assert(seq![p0] + rest =~= s);
        assert(off2 + spec_encode_peers(rest).len() == off + enc.len());
    }
}

proof fn lemma_sub_of_concat(pre: Seq<u8>, mid: Seq<u8>, post: Seq<u8>, d1: int, d2: int)
    requires
        0 <= d1 <= d2 <= mid.len(),
    ensures
        (pre + mid + post).subrange(pre.len() + d1, pre.len() + d2) =~= mid.subrange(d1, d2),
{
}

proof fn lemma_u16_from_sub(b: Seq<u8>, off: int, x: u16)
    requires
        0 <= off,
        off + 2 <= b.len(),
        b.subrange(off, off + 2) =~= spec_be16(x),
    ensures
        u16_at(b, off) == x,
{
    lemma_be16_roundtrip(x);
    assert(b[off] == b.subrange(off, off + 2)[0]);
    assert(b[off + 1] == b.subrange(off, off + 2)[1]);
}

proof fn lemma_u32_from_sub(b: Seq<u8>, off: int, x: u32)
    requires
        0 <= off,
        off + 4 <= b.len(),
        b.subrange(off, off + 4) =~= spec_be32(x),
    ensures
        u32_at(b, off) == x,
{
    lemma_be32_roundtrip(x);
    assert forall|k: int| 0 <= k < 4 implies b[off + k] == spec_be32(x)[k] by {
        assert(b[off + k] == b.subrange(off, off + 4)[k]);
    }
}

proof fn lemma_u64_from_sub(b: Seq<u8>, off: int, x: u64)
    requires
        0 <= off,
        off + 8 <= b.len(),
        b.subrange(off, off + 8) =~= spec_be64(x),
    ensures
        u64_at(b, off) == x,
{
    lemma_be64_roundtrip(x);
    assert forall|k: int| 0 <= k < 8 implies b[off + k] == spec_be64(x)[k] by {
        assert(b[off + k] == b.subrange(off, off + 8)[k]);
    }
}

#[verifier::rlimit(100)]
#[verifier::spinoff_prover]
proof fn lemma_item_round(it: RankedView, pre: Seq<u8>, post: Seq<u8>)
    requires
        wf_item(it),
    ensures
        spec_decode_item(pre + spec_encode_item(it) + post, pre.len() as int) == Some(
            (it, pre.len() + spec_encode_item(it).len() as int),
        ),
{
    let enc = spec_encode_item(it);
    let b = pre + enc + post;
    let off = pre.len() as int;
    let m = it.metrics;
    let klen = it.key.len() as int;
    let p = 4 + klen;
    assert(enc.len() == p + 60);
    assert(enc.subrange(0, 4) =~= spec_be32(it.key.len() as u32));
    assert(enc.subrange(4, 4 + klen) =~= it.key);
    assert(enc.subrange(p, p + 4) =~= spec_be32(it.score_milli));
    assert(enc.subrange(p + 4, p + 12) =~= spec_be64(m.request_count));
    assert(enc.subrange(p + 12, p + 20) =~= spec_be64(m.request_rate_milli));
    assert(enc.subrange(p + 20, p + 24) =~= spec_be32(m.replication_count));
    assert(enc.subrange(p + 24, p + 28) =~= spec_be32(m.freshness_milli));
    assert(enc.subrange(p + 28, p + 32) =~= spec_be32(m.audience_size));
    assert(enc.subrange(p + 32, p + 40) =~= spec_be64(m.social_engagements));
    assert(enc.subrange(p + 40, p + 44) =~= spec_be32(m.seed_coverage_milli));
    assert(enc.subrange(p + 44, p + 52) =~= spec_be64(m.first_seen));
    assert(enc.subrange(p + 52, p + 60) =~= spec_be64(m.last_request));
    lemma_sub_of_concat(pre, enc, post, 0, 4);
    lemma_u32_from_sub(b, off, it.key.len() as u32);
    lemma_sub_of_concat(pre, enc, post, 4, 4 + klen);
    lemma_sub_of_concat(pre, enc, post, p, p + 4);
    lemma_u32_from_sub(b, off + p, it.score_milli);
    lemma_sub_of_concat(pre, enc, post, p + 4, p + 12);
    lemma_u64_from_sub(b, off + p + 4, m.request_count);
    lemma_sub_of_concat(pre, enc, post, p + 12, p + 20);
    lemma_u64_from_sub(b, off + p + 12, m.request_rate_milli);
    lemma_sub_of_concat(pre, enc, post, p + 20, p + 24);
    lemma_u32_from_sub(b, off + p + 20, m.replication_count);
    lemma_sub_of_concat(pre, enc, post, p + 24, p + 28);
    lemma_u32_from_sub(b, off + p + 24, m.freshness_milli);
    lemma_sub_of_concat(pre, enc, post, p + 28, p + 32);
    lemma_u32_from_sub(b, off + p + 28, m.audience_size);
    lemma_sub_of_concat(pre, enc, post, p + 32, p + 40);
    lemma_u64_from_sub(b, off + p + 32, m.social_engagements);
    lemma_sub_of_concat(pre, enc, post, p + 40, p + 44);
    lemma_u32_from_sub(b, off + p + 40, m.seed_coverage_milli);
    lemma_sub_of_concat(pre, enc, post, p + 44, p + 52);
    lemma_u64_from_sub(b, off + p + 44, m.first_seen);
    lemma_sub_of_concat(pre, enc, post, p + 52, p + 60);
    lemma_u64_from_sub(b, off + p + 52, m.last_request);
    let d = spec_decode_item(b, off);
    assert(d is Some);
    assert(d->Some_0.0 =~= it);
    assert(d->Some_0.1 == off + enc.len());
}

#[verifier::rlimit(100)]
proof fn lemma_items_round(s: Seq<RankedView>, pre: Seq<u8>, post: Seq<u8>)
    requires
        forall|i: int| 0 <= i < s.len() ==> wf_item(#[trigger] s[i]),
    ensures
        spec_decode_items(pre + spec_encode_items(s) + post, pre.len() as int, s.len() as int)
            == Some((s, pre.len() + spec_encode_items(s).len() as int)),
    decreases s.len(),
{
    let enc = spec_encode_items(s);
    let b = pre + enc + post;
    let off = pre.len() as int;
    if s.len() == 0 {
        assert(b =~= pre + post);
        assert(spec_decode_items(b, off, 0) == Some((Seq::<RankedView>::empty(), off)));
        assert(s =~= Seq::<RankedView>::empty());
    } else {
        let it0 = s[0];
        let rest = s.drop_first();
        assert(enc =~= spec_encode_item(it0) + spec_encode_items(rest));
        assert(b =~= pre + spec_encode_item(it0) + (spec_encode_items(rest) + post));
        lemma_item_round(it0, pre, spec_encode_items(rest) + post);
        let off2 = off + spec_encode_item(it0).len();
        let pre2 = pre + spec_encode_item(it0);
        assert(b =~= pre2 + spec_encode_items(rest) + post);
        assert(pre2.len() == off2);
        assert forall|i: int| 0 <= i < rest.len() implies wf_item(#[trigger] rest[i]) by {
            assert(rest[i] == s[i + 1]);
        }
        lemma_items_round(rest, pre2, post);
        assert(spec_decode_item(b, off) == Some((it0, off2)));
        assert(spec_decode_items(b, off2, rest.len() as int) == Some(
            (rest, off2 + spec_encode_items(rest).len()),
        ));
        assert(seq![it0] + rest =~= s);
        assert(off2 + spec_encode_items(rest).len() == off + enc.len());
    }
}

#[verifier::rlimit(100)]
#[verifier::spinoff_prover]
proof fn lemma_pr_ping(node_id: Seq<u8>, pre: Seq<u8>, post: Seq<u8>)
    requires
        wf_payload(PayloadView::Ping { node_id }),
    ensures
        spec_decode_payload(
            spec_type_byte(PayloadView::Ping { node_id }),
            pre + spec_encode_payload(PayloadView::Ping { node_id }) + post,
            pre.len() as int,
        ) == Some((PayloadView::Ping { node_id }, pre.len() + spec_encode_payload(PayloadView::Ping { node_id }).len() as int)),
{
    let p = PayloadView::Ping { node_id };
    let enc = spec_encode_payload(p);
    let b = pre + enc + post;
    let off = pre.len() as int;
    lemma_read_sub(node_id, pre, post);
    assert(b =~= pre + node_id + post);
    let d = spec_decode_payload(MSG_PING, b, off);
    assert(d->Some_0.0 =~= p);
}

#[verifier::rlimit(100)]
#[verifier::spinoff_prover]
proof fn lemma_pr_pong(node_id: Seq<u8>, address: Seq<u8>, pre: Seq<u8>, post: Seq<u8>)
    requires
        wf_payload(PayloadView::Pong { node_id, address }),
    ensures
        spec_decode_payload(
            spec_type_byte(PayloadView::Pong { node_id, address }),
            pre + spec_encode_payload(PayloadView::Pong { node_id, address }) + post,
            pre.len() as int,
        ) == Some((PayloadView::Pong { node_id, address }, pre.len() + spec_encode_payload(PayloadView::Pong { node_id, address }).len() as int)),
{
    let p = PayloadView::Pong { node_id, address };
    let enc = spec_encode_payload(p);
    let b = pre + enc + post;
    let off = pre.len() as int;
    let alen = address.len() as u16;
    assert(b =~= pre + node_id + (spec_be16(alen) + address + post));
    lemma_read_sub(node_id, pre, spec_be16(alen) + address + post);
    let pre2 = pre + node_id;
    assert(b =~= pre2 + spec_be16(alen) + (address + post));
    lemma_read_u16_concat(alen, pre2, address + post);
    let pre3 = pre2 + spec_be16(alen);
    assert(b =~= pre3 + address + post);
    lemma_read_sub(address, pre3, post);
    let d = spec_decode_payload(MSG_PONG, b, off);
    assert(d is Some);
    assert(d->Some_0.0 =~= p);
}

#[verifier::rlimit(100)]
#[verifier::spinoff_prover]
proof fn lemma_pr_find_node(target_id: Seq<u8>, pre: Seq<u8>, post: Seq<u8>)
    requires
        wf_payload(PayloadView::FindNode { target_id }),
    ensures
        spec_decode_payload(
            spec_type_byte(PayloadView::FindNode { target_id }),
            pre + spec_encode_payload(PayloadView::FindNode { target_id }) + post,
            pre.len() as int,
        ) == Some((PayloadView::FindNode { target_id }, pre.len() + spec_encode_payload(PayloadView::FindNode { target_id }).len() as int)),
{
    let p = PayloadView::FindNode { target_id };
    let enc = spec_encode_payload(p);
    let b = pre + enc + post;
    let off = pre.len() as int;
    lemma_read_sub(target_id, pre, post);
    assert(b =~= pre + target_id + post);
    let d = spec_decode_payload(MSG_FIND_NODE, b, off);
    assert(d->Some_0.0 =~= p);
}

#[verifier::rlimit(100)]
#[verifier::spinoff_prover]
proof fn lemma_pr_find_node_response(nodes: Seq<PeerView>, pre: Seq<u8>, post: Seq<u8>)
    requires
        wf_payload(PayloadView::FindNodeResponse { nodes }),
    ensures
        spec_decode_payload(
            spec_type_byte(PayloadView::FindNodeResponse { nodes }),
            pre + spec_encode_payload(PayloadView::FindNodeResponse { nodes }) + post,
            pre.len() as int,
        ) == Some((PayloadView::FindNodeResponse { nodes }, pre.len() + spec_encode_payload(PayloadView::FindNodeResponse { nodes }).len() as int)),
{
    let p = PayloadView::FindNodeResponse { nodes };
    let enc = spec_encode_payload(p);
    let b = pre + enc + post;
    let off = pre.len() as int;
    let n = nodes.len() as u16;
    assert(b =~= pre + spec_be16(n) + (spec_encode_peers(nodes) + post));
    lemma_read_u16_concat(n, pre, spec_encode_peers(nodes) + post);
    let pre2 = pre + spec_be16(n);
    assert(b =~= pre2 + spec_encode_peers(nodes) + post);
    lemma_peers_round(nodes, pre2, post);
    let d = spec_decode_payload(MSG_FIND_NODE_RESPONSE, b, off);
    assert(d is Some);
    assert(d->Some_0.0 =~= p);
}

#[verifier::rlimit(100)]
#[verifier::spinoff_prover]
proof fn lemma_pr_find_value(key: Seq<u8>, pre: Seq<u8>, post: Seq<u8>)
    requires
        wf_payload(PayloadView::FindValue { key }),
    ensures
        spec_decode_payload(
            spec_type_byte(PayloadView::FindValue { key }),
            pre + spec_encode_payload(PayloadView::FindValue { key }) + post,
            pre.len() as int,
        ) == Some((PayloadView::FindValue { key }, pre.len() + spec_encode_payload(PayloadView::FindValue { key }).len() as int)),
{
    let p = PayloadView::FindValue { key };
    let enc = spec_encode_payload(p);
    let b = pre + enc + post;
    let off = pre.len() as int;
    let klen = key.len() as u32;
    assert(b =~= pre + spec_be32(klen) + (key + post));
    lemma_read_u32_concat(klen, pre, key + post);
    let pre2 = pre + spec_be32(klen);
    assert(b =~= pre2 + key + post);
    lemma_read_sub(key, pre2, post);
    let d = spec_decode_payload(MSG_FIND_VALUE, b, off);
    assert(d is Some);
    assert(d->Some_0.0 =~= p);
}

#[verifier::rlimit(100)]
#[verifier::spinoff_prover]
proof fn lemma_pr_find_value_found(value: Seq<u8>, pre: Seq<u8>, post: Seq<u8>)
    requires
        wf_payload(PayloadView::FindValueFound { value }),
    ensures
        spec_decode_payload(
            spec_type_byte(PayloadView::FindValueFound { value }),
            pre + spec_encode_payload(PayloadView::FindValueFound { value }) + post,
            pre.len() as int,
        ) == Some((PayloadView::FindValueFound { value }, pre.len() + spec_encode_payload(PayloadView::FindValueFound { value }).len() as int)),
{
    let p = PayloadView::FindValueFound { value };
    let enc = spec_encode_payload(p);
    let b = pre + enc + post;
    let off = pre.len() as int;
    let vlen = value.len() as u32;
    assert(b =~= pre + seq![1u8] + (spec_be32(vlen) + value + post));
    assert(b[off] == 1u8);
    let pre1 = pre + seq![1u8];
    assert(b =~= pre1 + spec_be32(vlen) + (value + post));
    lemma_read_u32_concat(vlen, pre1, value + post);
    let pre2 = pre1 + spec_be32(vlen);
    assert(b =~= pre2 + value + post);
    lemma_read_sub(value, pre2, post);
    let d = spec_decode_payload(MSG_FIND_VALUE_RESPONSE, b, off);
    assert(d is Some);
    assert(d->Some_0.0 =~= p);
}

#[verifier::rlimit(100)]
#[verifier::spinoff_prover]
proof fn lemma_pr_find_value_nodes(nodes: Seq<PeerView>, pre: Seq<u8>, post: Seq<u8>)
    requires
        wf_payload(PayloadView::FindValueNodes { nodes }),
    ensures
        spec_decode_payload(
            spec_type_byte(PayloadView::FindValueNodes { nodes }),
            pre + spec_encode_payload(PayloadView::FindValueNodes { nodes }) + post,
            pre.len() as int,
        ) == Some((PayloadView::FindValueNodes { nodes }, pre.len() + spec_encode_payload(PayloadView::FindValueNodes { nodes }).len() as int)),
{
    let p = PayloadView::FindValueNodes { nodes };
    let enc = spec_encode_payload(p);
    let b = pre + enc + post;
    let off = pre.len() as int;
    let n = nodes.len() as u16;
    assert(b =~= pre + seq![0u8] + (spec_be16(n) + spec_encode_peers(nodes) + post));
    assert(b[off] == 0u8);
    let pre1 = pre + seq![0u8];
    assert(b =~= pre1 + spec_be16(n) + (spec_encode_peers(nodes) + post));
    lemma_read_u16_concat(n, pre1, spec_encode_peers(nodes) + post);
    let pre2 = pre1 + spec_be16(n);
    assert(b =~= pre2 + spec_encode_peers(nodes) + post);
    lemma_peers_round(nodes, pre2, post);
    let d = spec_decode_payload(MSG_FIND_VALUE_RESPONSE, b, off);
    assert(d is Some);
    assert(d->Some_0.0 =~= p);
}

#[verifier::rlimit(100)]
#[verifier::spinoff_prover]
proof fn lemma_pr_store(key: Seq<u8>, value: Seq<u8>, ttl: u64, pre: Seq<u8>, post: Seq<u8>)
    requires
        wf_payload(PayloadView::Store { key, value, ttl }),
    ensures
        spec_decode_payload(
            spec_type_byte(PayloadView::Store { key, value, ttl }),
            pre + spec_encode_payload(PayloadView::Store { key, value, ttl }) + post,
            pre.len() as int,
        ) == Some((PayloadView::Store { key, value, ttl }, pre.len() + spec_encode_payload(PayloadView::Store { key, value, ttl }).len() as int)),
{
    let p = PayloadView::Store { key, value, ttl };
    let enc = spec_encode_payload(p);
    let b = pre + enc + post;
    let off = pre.len() as int;
    let klen = key.len() as u32;
    let vlen = value.len() as u32;
    assert(b =~= pre + spec_be32(klen) + (key + (spec_be32(vlen) + value + spec_be64(ttl))
        + post));
    lemma_read_u32_concat(
        klen,
        pre,
        key + (spec_be32(vlen) + value + spec_be64(ttl)) + post,
    );
    let pre2 = pre + spec_be32(klen);
    assert(b =~= pre2 + key + (spec_be32(vlen) + value + spec_be64(ttl) + post));
    lemma_read_sub(key, pre2, spec_be32(vlen) + value + spec_be64(ttl) + post);
    let pre3 = pre2 + key;
    assert(b =~= pre3 + spec_be32(vlen) + (value + spec_be64(ttl) + post));
    lemma_read_u32_concat(vlen, pre3, value + spec_be64(ttl) + post);
    let pre4 = pre3 + spec_be32(vlen);
    assert(b =~= pre4 + value + (spec_be64(ttl) + post));
    lemma_read_sub(value, pre4, spec_be64(ttl) + post);
    let pre5 = pre4 + value;
    assert(b =~= pre5 + spec_be64(ttl) + post);
    lemma_read_u64_concat(ttl, pre5, post);
    let d = spec_decode_payload(MSG_STORE, b, off);
    assert(d is Some);
    assert(d->Some_0.0 =~= p);
}

#[verifier::rlimit(100)]
#[verifier::spinoff_prover]
proof fn lemma_pr_store_response(success: bool, pre: Seq<u8>, post: Seq<u8>)
    requires
        wf_payload(PayloadView::StoreResponse { success }),
    ensures
        spec_decode_payload(
            spec_type_byte(PayloadView::StoreResponse { success }),
            pre + spec_encode_payload(PayloadView::StoreResponse { success }) + post,
            pre.len() as int,
        ) == Some((PayloadView::StoreResponse { success }, pre.len() + spec_encode_payload(PayloadView::StoreResponse { success }).len() as int)),
{
    let p = PayloadView::StoreResponse { success };
    let enc = spec_encode_payload(p);
    let b = pre + enc + post;
    let off = pre.len() as int;
    assert(b =~= pre + seq![if success { 1u8 } else { 0u8 }] + post);
    assert(b[off] == if success { 1u8 } else { 0u8 });
    let d = spec_decode_payload(MSG_STORE_RESPONSE, b, off);
    assert(d is Some);
    assert(d->Some_0.0 =~= p);
}

#[verifier::rlimit(100)]
#[verifier::spinoff_prover]
proof fn lemma_pr_pop_exchange(items: Seq<RankedView>, pre: Seq<u8>, post: Seq<u8>)
    requires
        wf_payload(PayloadView::PopularityExchange { items }),
    ensures
        spec_decode_payload(
            spec_type_byte(PayloadView::PopularityExchange { items }),
            pre + spec_encode_payload(PayloadView::PopularityExchange { items }) + post,
            pre.len() as int,
        ) == Some((PayloadView::PopularityExchange { items }, pre.len() + spec_encode_payload(PayloadView::PopularityExchange { items }).len() as int)),
{
    let p = PayloadView::PopularityExchange { items };
    let enc = spec_encode_payload(p);
    let b = pre + enc + post;
    let off = pre.len() as int;
    let n = items.len() as u16;
    assert(b =~= pre + spec_be16(n) + (spec_encode_items(items) + post));
    lemma_read_u16_concat(n, pre, spec_encode_items(items) + post);
    let pre2 = pre + spec_be16(n);
    assert(b =~= pre2 + spec_encode_items(items) + post);
    lemma_items_round(items, pre2, post);
    let d = spec_decode_payload(MSG_POPULARITY_EXCHANGE, b, off);
    assert(d is Some);
    assert(d->Some_0.0 =~= p);
}

#[verifier::rlimit(100)]
#[verifier::spinoff_prover]
proof fn lemma_pr_pop_exchange_response(items: Seq<RankedView>, pre: Seq<u8>, post: Seq<u8>)
    requires
        wf_payload(PayloadView::PopularityExchangeResponse { items }),
    ensures
        spec_decode_payload(
            spec_type_byte(PayloadView::PopularityExchangeResponse { items }),
            pre + spec_encode_payload(PayloadView::PopularityExchangeResponse { items }) + post,
            pre.len() as int,
        ) == Some((PayloadView::PopularityExchangeResponse { items }, pre.len() + spec_encode_payload(PayloadView::PopularityExchangeResponse { items }).len() as int)),
{
    let p = PayloadView::PopularityExchangeResponse { items };
    let enc = spec_encode_payload(p);
    let b = pre + enc + post;
    let off = pre.len() as int;
    let n = items.len() as u16;
    assert(b =~= pre + spec_be16(n) + (spec_encode_items(items) + post));
    lemma_read_u16_concat(n, pre, spec_encode_items(items) + post);
    let pre2 = pre + spec_be16(n);
    assert(b =~= pre2 + spec_encode_items(items) + post);
    lemma_items_round(items, pre2, post);
    let d = spec_decode_payload(MSG_POPULARITY_EXCHANGE_RESPONSE, b, off);
    assert(d is Some);
    assert(d->Some_0.0 =~= p);
}

#[verifier::rlimit(100)]
#[verifier::spinoff_prover]
proof fn lemma_pr_ranking_response(ranking: Seq<RankedView>, pre: Seq<u8>, post: Seq<u8>)
    requires
        wf_payload(PayloadView::GlobalRankingResponse { ranking }),
    ensures
        spec_decode_payload(
            spec_type_byte(PayloadView::GlobalRankingResponse { ranking }),
            pre + spec_encode_payload(PayloadView::GlobalRankingResponse { ranking }) + post,
            pre.len() as int,
        ) == Some((PayloadView::GlobalRankingResponse { ranking }, pre.len() + spec_encode_payload(PayloadView::GlobalRankingResponse { ranking }).len() as int)),
{
    let p = PayloadView::GlobalRankingResponse { ranking };
    let enc = spec_encode_payload(p);
    let b = pre + enc + post;
    let off = pre.len() as int;
    let n = ranking.len() as u16;
    assert(b =~= pre + spec_be16(n) + (spec_encode_items(ranking) + post));
    lemma_read_u16_concat(n, pre, spec_encode_items(ranking) + post);
    let pre2 = pre + spec_be16(n);
    assert(b =~= pre2 + spec_encode_items(ranking) + post);
    lemma_items_round(ranking, pre2, post);
    let d = spec_decode_payload(MSG_GLOBAL_RANKING_RESPONSE, b, off);
    assert(d is Some);
    assert(d->Some_0.0 =~= p);
}

proof fn lemma_payload_round(p: PayloadView, pre: Seq<u8>, post: Seq<u8>)
    requires
        wf_payload(p),
    ensures
        spec_decode_payload(
            spec_type_byte(p),
            pre + spec_encode_payload(p) + post,
            pre.len() as int,
        ) == Some((p, pre.len() + spec_encode_payload(p).len() as int)),
{
    match p {
        PayloadView::Ping { node_id } => lemma_pr_ping(node_id, pre, post),
        PayloadView::Pong { node_id, address } => lemma_pr_pong(node_id, address, pre, post),
        PayloadView::FindNode { target_id } => lemma_pr_find_node(target_id, pre, post),
        PayloadView::FindNodeResponse { nodes } => lemma_pr_find_node_response(nodes, pre, post),
        PayloadView::FindValue { key } => lemma_pr_find_value(key, pre, post),
        PayloadView::FindValueFound { value } => lemma_pr_find_value_found(value, pre, post),
        PayloadView::FindValueNodes { nodes } => lemma_pr_find_value_nodes(nodes, pre, post),
        PayloadView::Store { key, value, ttl } => lemma_pr_store(key, value, ttl, pre, post),
        PayloadView::StoreResponse { success } => lemma_pr_store_response(success, pre, post),
        PayloadView::PopularityExchange { items } => lemma_pr_pop_exchange(items, pre, post),
        PayloadView::PopularityExchangeResponse { items } => lemma_pr_pop_exchange_response(
            items,
            pre,
            post,
        ),
        PayloadView::GlobalRankingRequest => {
            let enc = spec_encode_payload(p);
            let b = pre + enc + post;
            assert(b =~= pre + post);
            assert(enc.len() == 0);
        },
        PayloadView::GlobalRankingResponse { ranking } => lemma_pr_ranking_response(
            ranking,
            pre,
            post,
        ),
    }
}

/// Law: the codec round-trips: decoding the canonical bytes of any
/// well-formed message yields that message, for every wire shape.
pub proof fn lemma_wire_round_trip(m: MsgView)
    requires
        wf_msg(m),
    ensures
        spec_decode_msg(spec_encode_msg(m)) == Some(m),
{
    let t = spec_type_byte(m.payload);
    let enc_p = spec_encode_payload(m.payload);
    let b = spec_encode_msg(m);
    let header = seq![t] + m.id + m.sender + spec_be64(m.timestamp_milli);
    assert(header.len() == 45);
    assert(b =~= header + enc_p + Seq::<u8>::empty());
    assert(b.len() == 45 + enc_p.len());
    assert(b[0] == t);
    assert(b.subrange(1, 17) =~= m.id);
    assert(b.subrange(17, 37) =~= m.sender);
    assert(u64_at(b, 37) == m.timestamp_milli) by {
        let pre_ts = seq![t] + m.id + m.sender;
        assert(b =~= pre_ts + spec_be64(m.timestamp_milli) + (enc_p + Seq::<u8>::empty()));
        lemma_read_u64_concat(m.timestamp_milli, pre_ts, enc_p + Seq::<u8>::empty());
    }
    lemma_payload_round(m.payload, header, Seq::<u8>::empty());
    assert(spec_decode_payload(t, b, 45) == Some((m.payload, 45 + enc_p.len() as int)));
    let d = spec_decode_msg(b);
    assert(d is Some);
    assert(d->Some_0 =~= m);
}

/// Check a run of peers against the wire's field caps.
fn wf_check_peers(nodes: &Vec<PeerInfo>) -> (r: bool)
    ensures
        r == (nodes@.len() <= u16::MAX && (forall|i: int|
            0 <= i < nodes@.len() ==> wf_peer(peer_views(nodes@)[i]))),
{
    if nodes.len() > u16::MAX as usize {
        return false;
    }
    let mut i: usize = 0;
    while i < nodes.len()
        invariant
            i <= nodes@.len(),
            forall|j: int| 0 <= j < i ==> wf_peer(peer_views(nodes@)[j]),
        decreases nodes@.len() - i,
    {
        if nodes[i].address.len() > u16::MAX as usize {
            proof {
                assert(!wf_peer(peer_views(nodes@)[i as int]));
            }
            return false;
        }
        proof {
            assert(peer_views(nodes@)[i as int] == nodes@[i as int]@);
        }
        i = i + 1;
    }
    true
}

/// Check a run of items against the wire's field caps.
fn wf_check_items(items: &Vec<RankedItem>) -> (r: bool)
    ensures
        r == (items@.len() <= u16::MAX && (forall|i: int|
            0 <= i < items@.len() ==> wf_item(item_views(items@)[i]))),
{
    if items.len() > u16::MAX as usize {
        return false;
    }
    let mut i: usize = 0;
    while i < items.len()
        invariant
            i <= items@.len(),
            forall|j: int| 0 <= j < i ==> wf_item(item_views(items@)[j]),
        decreases items@.len() - i,
    {
        if items[i].key.len() > u32::MAX as usize {
            proof {
                assert(!wf_item(item_views(items@)[i as int]));
            }
            return false;
        }
        proof {
            assert(item_views(items@)[i as int] == items@[i as int]@);
        }
        i = i + 1;
    }
    true
}

/// Whether a message fits the wire format's field caps.
pub fn wire_wf_message(m: &Message) -> (r: bool)
    ensures
        r == wf_msg(m@),
{
    match &m.payload {
        Payload::Ping { .. } => true,
        Payload::Pong { address, .. } => address.len() <= u16::MAX as usize,
        Payload::FindNode { .. } => true,
        Payload::FindNodeResponse { nodes } => wf_check_peers(nodes),
        Payload::FindValue { key } => key.len() <= u32::MAX as usize,
        Payload::FindValueFound { value } => value.len() <= u32::MAX as usize,
        Payload::FindValueNodes { nodes } => wf_check_peers(nodes),
        Payload::Store { key, value, .. } => key.len() <= u32::MAX as usize && value.len()
            <= u32::MAX as usize,
        Payload::StoreResponse { .. } => true,
        Payload::PopularityExchange { items } => wf_check_items(items),
        Payload::PopularityExchangeResponse { items } => wf_check_items(items),
        Payload::GlobalRankingRequest => true,
        Payload::GlobalRankingResponse { ranking } => wf_check_items(ranking),
    }
}

/// The type byte of a message.
pub fn type_byte(m: &Message) -> (r: u8)
    ensures
        r == spec_type_byte(m@.payload),
{
    match &m.payload {
        Payload::Ping { .. } => MSG_PING,
        Payload::Pong { .. } => MSG_PONG,
        Payload::FindNode { .. } => MSG_FIND_NODE,
        Payload::FindNodeResponse { .. } => MSG_FIND_NODE_RESPONSE,
        Payload::FindValue { .. } => MSG_FIND_VALUE,
        Payload::FindValueFound { .. } => MSG_FIND_VALUE_RESPONSE,
        Payload::FindValueNodes { .. } => MSG_FIND_VALUE_RESPONSE,
        Payload::Store { .. } => MSG_STORE,
        Payload::StoreResponse { .. } => MSG_STORE_RESPONSE,
        Payload::PopularityExchange { .. } => MSG_POPULARITY_EXCHANGE,
        Payload::PopularityExchangeResponse { .. } => MSG_POPULARITY_EXCHANGE_RESPONSE,
        Payload::GlobalRankingRequest => MSG_GLOBAL_RANKING_REQUEST,
        Payload::GlobalRankingResponse { .. } => MSG_GLOBAL_RANKING_RESPONSE,
    }
}

} // verus!
