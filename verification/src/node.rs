//! The decisions a node takes around its UDP socket.
//!
//! The receive loop hands each decoded frame to [`on_frame`], which updates
//! the DHT value cache and says what must be sent or handed on; replies
//! that need the routing table are completed by [`reply_with_closest`].
//! Outbound frames go through [`prepare_send`], which drops frames to
//! partitioned addresses and encodes the rest.
use vstd::prelude::*;
use crate::protocol::{
    AddressModel, same_peer_info,
    DhtKey, Frame, FrameModel, FramePayload, NodeId, PayloadModel, PeerAddress, PeerInfo,
    PeerModel, MAX_VALUE_BYTES, frame_len, frame_valid, peer_byte, peers_view,
    spec_serialize_error, starts_with_encoding, value_len_of, same_bytes20,
};
use crate::dht::{Blocklist, ValueStore};

verus! {

/// A request that is answered from the routing table: the peers closest to
/// a node id (FIND_NODE), or to a key that is not cached (FIND_VALUE).
#[derive(Debug, Clone, Copy, PartialEq, Eq)]
pub enum ClosestQuery {
    Nodes { target: NodeId },
    Value { key: DhtKey },
}

/// What the receive loop must do with one inbound frame. Every action but
/// `Ignore` comes with recording the sender in the routing table.
#[derive(Debug, Clone, PartialEq)]
pub enum InboundAction {
    /// The frame is our own; it is dropped.
    Ignore,
    /// Send `frame` back to the address the inbound frame came from.
    Reply { frame: Frame },
    /// Send back the answer to `query`, built by `reply_with_closest` from
    /// the routing table's closest peers.
    ReplyClosest { query: ClosestQuery },
    /// Insert `peers` into the routing table and send `ping` to each.
    LearnPeers { peers: Vec<PeerInfo>, ping: Frame },
    /// Send `request` to each of `peers` to continue a value search.
    AskPeers { peers: Vec<PeerInfo>, request: Frame },
    /// Nothing is sent.
    Done,
    /// Hand the frame to the layer above.
    Forward { frame: Frame },
}

pub enum QueryModel {
    Nodes { target: Seq<u8> },
    Value { key: Seq<u8> },
}

#[verifier::ext_equal]
pub enum ActionModel {
    Ignore,
    Reply { frame: FrameModel },
    ReplyClosest { query: QueryModel },
    LearnPeers { peers: Seq<PeerModel>, ping: FrameModel },
    AskPeers { peers: Seq<PeerModel>, request: FrameModel },
    Done,
    Forward { frame: FrameModel },
}

impl View for ClosestQuery {
    type V = QueryModel;

    open spec fn view(&self) -> QueryModel {
        match *self {
            ClosestQuery::Nodes { target } => QueryModel::Nodes { target: target@ },
            ClosestQuery::Value { key } => QueryModel::Value { key: key@ },
        }
    }
}

impl View for InboundAction {
    type V = ActionModel;

    open spec fn view(&self) -> ActionModel {
        match self {
            InboundAction::Ignore => ActionModel::Ignore,
            InboundAction::Reply { frame } => ActionModel::Reply { frame: frame@ },
            InboundAction::ReplyClosest { query } => ActionModel::ReplyClosest { query: query@ },
            InboundAction::LearnPeers { peers, ping } => ActionModel::LearnPeers {
                peers: peers_view(peers@),
                ping: ping@,
            },
            InboundAction::AskPeers { peers, request } => ActionModel::AskPeers {
                peers: peers_view(peers@),
                request: request@,
            },
            InboundAction::Done => ActionModel::Done,
            InboundAction::Forward { frame } => ActionModel::Forward { frame: frame@ },
        }
    }
}

/// The peers of `ps` other than the node `self_id` itself, in order.
pub open spec fn other_peers(ps: Seq<PeerModel>, self_id: Seq<u8>) -> Seq<PeerModel> {
    ps.filter(|p: PeerModel| p.id != self_id)
}

/// What a node with id `self_id` and value cache `m` does on receiving `f`
/// at time `now_ms`, and what its value cache becomes.
pub open spec fn spec_on_frame(
    self_id: Seq<u8>,
    f: FrameModel,
    now_ms: u64,
    m: Map<Seq<u8>, Seq<u8>>,
) -> (ActionModel, Map<Seq<u8>, Seq<u8>>) {
    if f.sender == self_id {
        (ActionModel::Ignore, m)
    } else {
        match f.payload {
            PayloadModel::Ping { timestamp } => (
                ActionModel::Reply {
                    frame: FrameModel { sender: self_id, payload: PayloadModel::Pong { timestamp } },
                },
                m,
            ),
            PayloadModel::Pong { .. } => (ActionModel::Done, m),
            PayloadModel::FindNode { target } => (
                ActionModel::ReplyClosest { query: QueryModel::Nodes { target } },
                m,
            ),
            PayloadModel::FoundNodes { peers } => (
                ActionModel::LearnPeers {
                    peers: other_peers(peers, self_id),
                    ping: FrameModel {
                        sender: self_id,
                        payload: PayloadModel::Ping { timestamp: now_ms },
                    },
                },
                m,
            ),
            PayloadModel::Store { key, value, .. } => (
                ActionModel::Done,
                if value.len() <= 256 {
                    m.insert(key, value)
                } else {
                    m
                },
            ),
            PayloadModel::FindValue { key } => if m.contains_key(key) {
                (
                    ActionModel::Reply {
                        frame: FrameModel {
                            sender: self_id,
                            payload: PayloadModel::FoundValue {
                                key,
                                value: Some(m[key]),
                                peers: Seq::empty(),
                            },
                        },
                    },
                    m,
                )
            } else {
                (ActionModel::ReplyClosest { query: QueryModel::Value { key } }, m)
            },
            PayloadModel::FoundValue { key, value, peers } => match value {
                Some(v) => (ActionModel::Done, m.insert(key, v)),
                None => (
                    ActionModel::AskPeers {
                        peers: other_peers(peers, self_id),
                        request: FrameModel {
                            sender: self_id,
                            payload: PayloadModel::FindValue { key },
                        },
                    },
                    m,
                ),
            },
            PayloadModel::ThermodynamicPush { .. } => (ActionModel::Forward { frame: f }, m),
            PayloadModel::GradientDiff { .. } => (ActionModel::Forward { frame: f }, m),
        }
    }
}

/// The peers of `peers` whose id is not `self_id`, in order.
fn others_of(peers: &Vec<PeerInfo>, self_id: &NodeId) -> (r: Vec<PeerInfo>)
    ensures
        peers_view(r@) == other_peers(peers_view(peers@), self_id@),
{
    let ghost ps = peers_view(peers@);
    let ghost pred = |p: PeerModel| p.id != self_id@;
    let mut out: Vec<PeerInfo> = Vec::new();
    let n = peers.len();
    let mut i: usize = 0;
    while i < n
        invariant
            n == peers@.len(),
            ps == peers_view(peers@),
            pred == (|p: PeerModel| p.id != self_id@),
            i <= n,
            peers_view(out@) == ps.take(i as int).filter(pred),
        decreases n - i,
    {
        let p = peers[i];
        proof {
            reveal(Seq::filter);
            assert(ps.take(i + 1).drop_last() =~= ps.take(i as int));
            assert(ps.take(i + 1).last() == p@);
        }
        if !same_bytes20(&p.id.0, &self_id.0) {
            let ghost before = out@;
            out.push(p);
            proof {
                assert(peers_view(out@) =~= peers_view(before).push(p@));
            }
        }
        i = i + 1;
    }
    proof {
        assert(ps.take(n as int) =~= ps);
    }
    out
}

/// Decides what to do with `frame`, received by node `self_id` at time
/// `now_ms`: STORE and FOUND_VALUE frames carrying a value update the value
/// cache, the other frames are answered, handed on or dropped.
pub fn on_frame(self_id: &NodeId, frame: Frame, now_ms: u64, store: &mut ValueStore) -> (r:
    InboundAction)
    requires
        old(store).wf(),
    ensures
        final(store).wf(),
        (r@, final(store).view()) == spec_on_frame(self_id@, frame@, now_ms, old(store).view()),
{
    if same_bytes20(&frame.sender.0, &self_id.0) {
        return InboundAction::Ignore;
    }
    let ghost f = frame@;
    let sender = *self_id;
    let r = match frame.payload {
        FramePayload::Ping { timestamp } => InboundAction::Reply {
            frame: Frame { sender, payload: FramePayload::Pong { timestamp } },
        },
        FramePayload::Pong { .. } => InboundAction::Done,
        FramePayload::FindNode { target } => InboundAction::ReplyClosest {
            query: ClosestQuery::Nodes { target },
        },
        FramePayload::FoundNodes { peers } => InboundAction::LearnPeers {
            peers: others_of(&peers, self_id),
            ping: Frame { sender, payload: FramePayload::Ping { timestamp: now_ms } },
        },
        FramePayload::Store { key, value, .. } => {
            if value.len() <= MAX_VALUE_BYTES {
                store.insert(key, value);
            }
            InboundAction::Done
        },
        FramePayload::FindValue { key } => {
            match store.get(&key) {
                Some(v) => InboundAction::Reply {
                    frame: Frame {
                        sender,
                        payload: FramePayload::FoundValue { key, value: Some(v), peers: Vec::new() },
                    },
                },
                None => InboundAction::ReplyClosest { query: ClosestQuery::Value { key } },
            }
        },
        FramePayload::FoundValue { key, value, peers } => {
            match value {
                Some(v) => {
                    store.insert(key, v);
                    InboundAction::Done
                },
                None => InboundAction::AskPeers {
                    peers: others_of(&peers, self_id),
                    request: Frame { sender, payload: FramePayload::FindValue { key } },
                },
            }
        },
        FramePayload::ThermodynamicPush { free_energy_bits, pressure_bits } => InboundAction::Forward {
            frame: Frame {
                sender: frame.sender,
                payload: FramePayload::ThermodynamicPush { free_energy_bits, pressure_bits },
            },
        },
        FramePayload::GradientDiff { target_id, coefficient_bits, flow_bits } =>
            InboundAction::Forward {
            frame: Frame {
                sender: frame.sender,
                payload: FramePayload::GradientDiff { target_id, coefficient_bits, flow_bits },
            },
        },
    };
    proof {
        let expected = spec_on_frame(self_id@, f, now_ms, old(store).view());
        assert(r@ =~= expected.0);
    }
    r
}

impl ClosestQuery {
    /// The id whose closest peers answer the query.
    pub fn lookup_target(&self) -> (r: NodeId)
        ensures
            r@ == match self@ {
                QueryModel::Nodes { target } => target,
                QueryModel::Value { key } => key,
            },
    {
        match self {
            ClosestQuery::Nodes { target } => *target,
            ClosestQuery::Value { key } => NodeId(key.0),
        }
    }
}

/// The answer node `self_id` sends to `query` when the routing table's
/// peers closest to the query's target are `closest`.
pub fn reply_with_closest(self_id: &NodeId, query: &ClosestQuery, closest: Vec<PeerInfo>) -> (r:
    Frame)
    ensures
        r@ == (FrameModel {
            sender: self_id@,
            payload: match query@ {
                QueryModel::Nodes { .. } => PayloadModel::FoundNodes { peers: peers_view(closest@) },
                QueryModel::Value { key } => PayloadModel::FoundValue {
                    key,
                    value: None,
                    peers: peers_view(closest@),
                },
            },
        }),
{
    match query {
        ClosestQuery::Nodes { .. } => Frame {
            sender: *self_id,
            payload: FramePayload::FoundNodes { peers: closest },
        },
        ClosestQuery::Value { key } => Frame {
            sender: *self_id,
            payload: FramePayload::FoundValue { key: *key, value: None, peers: closest },
        },
    }
}

/// Encodes `frame` into a buffer of `capacity` bytes and returns exactly
/// the bytes of the encoding.
pub fn encode_frame(frame: &Frame, capacity: usize) -> (r: Result<Vec<u8>, &'static str>)
    ensures
        r is Ok <==> (frame_valid(frame@) && frame_len(frame@) <= capacity),
        match r {
            Ok(bytes) => bytes@.len() == frame_len(frame@) && starts_with_encoding(bytes@, frame@),
            Err(e) => spec_serialize_error(frame@, capacity as int) == Some(e@),
        },
{
    let mut buf: Vec<u8> = vec![0u8; capacity];
    let res = frame.serialize(buf.as_mut_slice());
    match res {
        Ok(n) => {
            let ghost full = buf@;
            buf.truncate(n);
            proof {
                assert(buf@ == full.subrange(0, n as int));
                assert(buf@.subrange(5, 25) =~= full.subrange(5, 25));
                lemma_starts_with_encoding_prefix(full, frame@, n as int);
            }
            Ok(buf)
        },
        Err(e) => Err(e),
    }
}

/// Cutting a buffer right after an encoding keeps the encoding.
proof fn lemma_starts_with_encoding_prefix(b: Seq<u8>, f: FrameModel, n: int)
    requires
        starts_with_encoding(b, f),
        n == frame_len(f),
    ensures
        starts_with_encoding(b.subrange(0, n), f),
{
    let t = b.subrange(0, n);
    assert(t.subrange(5, 25) =~= b.subrange(5, 25));
    match f.payload {
        PayloadModel::GradientDiff { .. } => {
            assert(t.subrange(25, 45) =~= b.subrange(25, 45));
        },
        PayloadModel::FindNode { .. } => {
            assert(t.subrange(25, 45) =~= b.subrange(25, 45));
        },
        PayloadModel::FindValue { .. } => {
            assert(t.subrange(25, 45) =~= b.subrange(25, 45));
        },
        PayloadModel::FoundNodes { peers } => {
            assert forall|i: int, j: int| 0 <= i < peers.len() && 0 <= j < 27 implies t[26 + 27 * i
                + j] == #[trigger] peer_byte(peers[i], j) by {
                assert(b[26 + 27 * i + j] == peer_byte(peers[i], j));
            }
        },
        PayloadModel::Store { value, .. } => {
            assert(t.subrange(25, 45) =~= b.subrange(25, 45));
            assert(t.subrange(47, 47 + value.len() as int) =~= b.subrange(
                47,
                47 + value.len() as int,
            ));
        },
        PayloadModel::FoundValue { value, peers, .. } => {
            let o = 49 + value_len_of(value) as int;
            assert(t.subrange(25, 45) =~= b.subrange(25, 45));
            match value {
                Some(v) => {
                    assert(t.subrange(48, 48 + v.len() as int) =~= b.subrange(
                        48,
                        48 + v.len() as int,
                    ));
                },
                None => {},
            }
            assert forall|i: int, j: int| 0 <= i < peers.len() && 0 <= j < 27 implies t[o + 27 * i
                + j] == #[trigger] peer_byte(peers[i], j) by {
                assert(b[o + 27 * i + j] == peer_byte(peers[i], j));
            }
        },
        _ => {},
    }
}

/// What sending `frame` to `addr` puts on the wire: nothing while `addr`
/// is blocked, otherwise the frame's encoding in a 1024-byte datagram
/// buffer, or the reason it cannot be encoded.
pub fn prepare_send(blocklist: &Blocklist, frame: &Frame, addr: &PeerAddress) -> (r: Result<
    Option<Vec<u8>>,
    &'static str,
>)
    requires
        blocklist.wf(),
    ensures
        blocklist.view().contains(addr@) ==> r == Ok::<Option<Vec<u8>>, &'static str>(None),
        !blocklist.view().contains(addr@) ==> match r {
            Ok(Some(bytes)) => frame_valid(frame@) && frame_len(frame@) <= 1024 && bytes@.len()
                == frame_len(frame@) && starts_with_encoding(bytes@, frame@),
            Ok(None) => false,
            Err(e) => spec_serialize_error(frame@, 1024) == Some(e@),
        },
{
    if blocklist.is_blocked(addr) {
        return Ok(None);
    }
    match encode_frame(frame, 1024) {
        Ok(bytes) => Ok(Some(bytes)),
        Err(e) => Err(e),
    }
}

/// Caches `value` under `key` and returns the STORE frame that publishes it,
/// unless the value is larger than `MAX_VALUE_BYTES`, in which case nothing
/// happens.
pub fn prepare_store(self_id: &NodeId, key: DhtKey, value: Vec<u8>, store: &mut ValueStore) -> (r:
    Option<Frame>)
    requires
        old(store).wf(),
    ensures
        final(store).wf(),
        value@.len() > MAX_VALUE_BYTES ==> r is None && final(store).view() == old(store).view(),
        value@.len() <= MAX_VALUE_BYTES ==> final(store).view() == old(store).view().insert(
            key@,
            value@,
        ),
        value@.len() <= MAX_VALUE_BYTES ==> (r matches Some(f) && f@ == (FrameModel {
            sender: self_id@,
            payload: PayloadModel::Store { key: key@, value_len: value@.len() as u16, value: value@ },
        })),
{
    if value.len() > MAX_VALUE_BYTES {
        return None;
    }
    store.insert(key, vstd::slice::slice_to_vec(value.as_slice()));
    let value_len = value.len() as u16;
    Some(Frame { sender: *self_id, payload: FramePayload::Store { key, value_len, value } })
}

/// A value that another node STOREs is what a later FIND_VALUE for its key
/// gets back: the node answers with FOUND_VALUE carrying exactly that value
/// and no peers.
pub proof fn law_store_then_find_value(
    self_id: Seq<u8>,
    store_frame: FrameModel,
    query_frame: FrameModel,
    t1: u64,
    t2: u64,
    m: Map<Seq<u8>, Seq<u8>>,
)
    requires
        store_frame.sender != self_id,
        query_frame.sender != self_id,
        store_frame.payload is Store,
        store_frame.payload->Store_value.len() <= 256,
        query_frame.payload == (PayloadModel::FindValue { key: store_frame.payload->Store_key }),
    ensures
        spec_on_frame(self_id, query_frame, t2, spec_on_frame(self_id, store_frame, t1, m).1).0 == (
        ActionModel::Reply {
            frame: FrameModel {
                sender: self_id,
                payload: PayloadModel::FoundValue {
                    key: store_frame.payload->Store_key,
                    value: Some(store_frame.payload->Store_value),
                    peers: Seq::empty(),
                },
            },
        }),
{
}

/// A FOUND_VALUE that carries a value caches it, so the node itself then
/// answers FIND_VALUE for that key.
pub proof fn law_found_value_is_cached(
    self_id: Seq<u8>,
    found: FrameModel,
    query_frame: FrameModel,
    t1: u64,
    t2: u64,
    m: Map<Seq<u8>, Seq<u8>>,
)
    requires
        found.sender != self_id,
        query_frame.sender != self_id,
        found.payload is FoundValue,
        found.payload->FoundValue_value is Some,
        query_frame.payload == (PayloadModel::FindValue { key: found.payload->FoundValue_key }),
    ensures
        spec_on_frame(self_id, query_frame, t2, spec_on_frame(self_id, found, t1, m).1).0 == (
        ActionModel::Reply {
            frame: FrameModel {
                sender: self_id,
                payload: PayloadModel::FoundValue {
                    key: found.payload->FoundValue_key,
                    value: found.payload->FoundValue_value,
                    peers: Seq::empty(),
                },
            },
        }),
{
}

/// Only STORE and FOUND_VALUE frames from other nodes change the value
/// cache.
pub proof fn law_cache_changes_only_on_values(
    self_id: Seq<u8>,
    f: FrameModel,
    t: u64,
    m: Map<Seq<u8>, Seq<u8>>,
)
    requires
        f.sender == self_id || !(f.payload is Store || f.payload is FoundValue),
    ensures
        spec_on_frame(self_id, f, t, m).1 == m,
{
}

/// Healing a partition undoes it: blocking an address that was not blocked
/// and then unblocking it leaves the blocklist as it was.
pub proof fn law_unblock_undoes_block(b0: Blocklist, b1: Blocklist, b2: Blocklist, a: PeerAddress)
    requires
        !b0.view().contains(a@),
        b1.view() == b0.view().insert(a@),
        b2.view() == b1.view().remove(a@),
    ensures
        b2.view() == b0.view(),
{
    assert(b2.view() =~= b0.view());
}

/// The peers of `ps` whose address is not in `blocked`, in order.
pub open spec fn reachable_peers(ps: Seq<PeerModel>, blocked: Set<AddressModel>) -> Seq<
    PeerModel,
> {
    ps.filter(|p: PeerModel| !blocked.contains(p.address))
}

/// The peers of `peers` that frames may be sent to: those whose address is
/// not held in a partition by `blocklist`. Every outbound path sends only
/// to these.
pub fn unblocked_peers(blocklist: &Blocklist, peers: &Vec<PeerInfo>) -> (r: Vec<PeerInfo>)
    requires
        blocklist.wf(),
    ensures
        peers_view(r@) == reachable_peers(peers_view(peers@), blocklist.view()),
{
    let ghost ps = peers_view(peers@);
    let ghost pred = |p: PeerModel| !blocklist.view().contains(p.address);
    let mut out: Vec<PeerInfo> = Vec::new();
    let n = peers.len();
    let mut i: usize = 0;
    while i < n
        invariant
            blocklist.wf(),
            n == peers@.len(),
            ps == peers_view(peers@),
            pred == (|p: PeerModel| !blocklist.view().contains(p.address)),
            i <= n,
            peers_view(out@) == ps.take(i as int).filter(pred),
        decreases n - i,
    {
        let p = peers[i];
        proof {
            reveal(Seq::filter);
            assert(ps.take(i + 1).drop_last() =~= ps.take(i as int));
            assert(ps.take(i + 1).last() == p@);
        }
        if !blocklist.is_blocked(&p.address) {
            let ghost before = out@;
            out.push(p);
            proof {
                assert(peers_view(out@) =~= peers_view(before).push(p@));
            }
        }
        i = i + 1;
    }
    proof {
        assert(ps.take(n as int) =~= ps);
    }
    out
}

/// Whether the pending eviction of `oldest` in favour of a new peer goes
/// ahead: it does exactly when `oldest` is still the least recently seen
/// peer of its bucket (`front`), that is, it has not answered the ping.
pub fn eviction_due(front: Option<PeerInfo>, oldest: &PeerInfo) -> (r: bool)
    ensures
        r == (front matches Some(p) && p@ == oldest@),
{
    match front {
        Some(p) => same_peer_info(&p, oldest),
        None => false,
    }
}

/// Keeping the elements of a sequence that all pass a test keeps the whole
/// sequence.
proof fn lemma_filter_all(s: Seq<PeerModel>, pred: spec_fn(PeerModel) -> bool)
    requires
        forall|i: int| 0 <= i < s.len() ==> pred(s[i]),
    ensures
        s.filter(pred) == s,
    decreases s.len(),
{
    reveal(Seq::filter);
    if s.len() > 0 {
        lemma_filter_all(s.drop_last(), pred);
        assert(s.drop_last().push(s.last()) =~= s);
    }
}

/// The peers a node forwards to out of a returned list `ps`: exactly the
/// peers of `ps` whose id is not `self_id` (each of them, nothing else),
/// never more than `ps` holds, and all of `ps` when none of them is the
/// node itself.
proof fn lemma_other_peers_exact(ps: Seq<PeerModel>, self_id: Seq<u8>)
    ensures
        other_peers(ps, self_id).len() <= ps.len(),
        forall|i: int|
            0 <= i < ps.len() && ps[i].id != self_id ==> other_peers(ps, self_id).contains(ps[i]),
        forall|q: PeerModel|
            #[trigger] other_peers(ps, self_id).contains(q) ==> q.id != self_id && ps.contains(q),
        (forall|i: int| 0 <= i < ps.len() ==> ps[i].id != self_id) ==> other_peers(ps, self_id)
            == ps,
{
    let pred = |p: PeerModel| p.id != self_id;
    ps.lemma_filter_len(pred);
    assert forall|i: int|
        0 <= i < ps.len() && ps[i].id != self_id implies other_peers(ps, self_id).contains(ps[i]) by {
        ps.lemma_filter_contains(pred, i);
    }
    assert forall|q: PeerModel| #[trigger] other_peers(ps, self_id).contains(q) implies q.id
        != self_id && ps.contains(q) by {
        let k = choose|k: int|
            0 <= k < ps.filter(pred).len() && ps.filter(pred)[k] == q;
        ps.lemma_filter_pred(pred, k);
        ps.lemma_filter_contains_rev(pred, q);
    }
    if forall|i: int| 0 <= i < ps.len() ==> ps[i].id != self_id {
        lemma_filter_all(ps, pred);
    }
}

/// A PING from another node is answered with a PONG from this node that
/// carries the PING's own timestamp, whatever the local clock reads, and
/// leaves the value cache as it is.
pub proof fn law_ping_is_echoed(
    self_id: Seq<u8>,
    sender: Seq<u8>,
    timestamp: u64,
    now_ms: u64,
    m: Map<Seq<u8>, Seq<u8>>,
)
    requires
        sender != self_id,
    ensures
        spec_on_frame(
            self_id,
            FrameModel { sender, payload: PayloadModel::Ping { timestamp } },
            now_ms,
            m,
        ) == (
            ActionModel::Reply {
                frame: FrameModel { sender: self_id, payload: PayloadModel::Pong { timestamp } },
            },
            m,
        ),
{
}

/// A STORE from another node with a value of at most `MAX_VALUE_BYTES`
/// bytes caches that value under its key and changes no other key; a
/// larger value leaves the cache as it is. Nothing is sent in either case.
pub proof fn law_store_changes_only_its_key(
    self_id: Seq<u8>,
    f: FrameModel,
    now_ms: u64,
    m: Map<Seq<u8>, Seq<u8>>,
)
    requires
        f.sender != self_id,
        f.payload is Store,
    ensures
        spec_on_frame(self_id, f, now_ms, m).0 == ActionModel::Done,
        f.payload->Store_value.len() <= 256 ==> spec_on_frame(self_id, f, now_ms, m).1.contains_key(
            f.payload->Store_key,
        ) && spec_on_frame(self_id, f, now_ms, m).1[f.payload->Store_key]
            == f.payload->Store_value,
        forall|k: Seq<u8>|
            k != f.payload->Store_key ==> (spec_on_frame(self_id, f, now_ms, m).1.contains_key(k)
                == m.contains_key(k) && (m.contains_key(k) ==> spec_on_frame(
                self_id,
                f,
                now_ms,
                m,
            ).1[k] == m[k])),
        f.payload->Store_value.len() > 256 ==> spec_on_frame(self_id, f, now_ms, m).1 == m,
{
}

/// Two STOREs under different keys are both served: after them, a
/// FIND_VALUE for the first key is answered with the first value.
pub proof fn law_two_stores_keep_both(
    self_id: Seq<u8>,
    s1: FrameModel,
    s2: FrameModel,
    q: FrameModel,
    t: u64,
    m: Map<Seq<u8>, Seq<u8>>,
)
    requires
        s1.sender != self_id,
        s2.sender != self_id,
        q.sender != self_id,
        s1.payload is Store,
        s2.payload is Store,
        s1.payload->Store_value.len() <= 256,
        s1.payload->Store_key != s2.payload->Store_key,
        q.payload == (PayloadModel::FindValue { key: s1.payload->Store_key }),
    ensures
        spec_on_frame(
            self_id,
            q,
            t,
            spec_on_frame(self_id, s2, t, spec_on_frame(self_id, s1, t, m).1).1,
        ).0 == (ActionModel::Reply {
            frame: FrameModel {
                sender: self_id,
                payload: PayloadModel::FoundValue {
                    key: s1.payload->Store_key,
                    value: Some(s1.payload->Store_value),
                    peers: Seq::empty(),
                },
            },
        }),
{
    let m1 = spec_on_frame(self_id, s1, t, m).1;
    let m2 = spec_on_frame(self_id, s2, t, m1).1;
    law_store_changes_only_its_key(self_id, s1, t, m);
    law_store_changes_only_its_key(self_id, s2, t, m1);
    assert(m2.contains_key(s1.payload->Store_key));
}

/// A FOUND_VALUE without a value continues the search: this node sends a
/// FIND_VALUE for the same key to every returned peer whose id is not its
/// own, and to no one else; when no returned peer is the node itself, all
/// of them are asked, in the order returned. The value cache is unchanged.
pub proof fn law_found_value_miss_asks_other_peers(
    self_id: Seq<u8>,
    f: FrameModel,
    now_ms: u64,
    m: Map<Seq<u8>, Seq<u8>>,
)
    requires
        f.sender != self_id,
        f.payload is FoundValue,
        f.payload->FoundValue_value is None,
    ensures
        spec_on_frame(self_id, f, now_ms, m).1 == m,
        spec_on_frame(self_id, f, now_ms, m).0 is AskPeers,
        spec_on_frame(self_id, f, now_ms, m).0->AskPeers_request == (FrameModel {
            sender: self_id,
            payload: PayloadModel::FindValue { key: f.payload->FoundValue_key },
        }),
        spec_on_frame(self_id, f, now_ms, m).0->AskPeers_peers.len()
            <= f.payload->FoundValue_peers.len(),
        forall|i: int|
            0 <= i < f.payload->FoundValue_peers.len() && f.payload->FoundValue_peers[i].id
                != self_id ==> spec_on_frame(
                self_id,
                f,
                now_ms,
                m,
            ).0->AskPeers_peers.contains(f.payload->FoundValue_peers[i]),
        forall|p: PeerModel|
            #[trigger] spec_on_frame(self_id, f, now_ms, m).0->AskPeers_peers.contains(p) ==> p.id
                != self_id && f.payload->FoundValue_peers.contains(p),
        (forall|i: int|
            0 <= i < f.payload->FoundValue_peers.len() ==> f.payload->FoundValue_peers[i].id
                != self_id) ==> spec_on_frame(self_id, f, now_ms, m).0->AskPeers_peers
            == f.payload->FoundValue_peers,
{
    lemma_other_peers_exact(f.payload->FoundValue_peers, self_id);
}

/// A FOUND_NODES from another node makes this node learn, and ping with a
/// PING stamped with its clock, every returned peer whose id is not its
/// own and no one else; all of them, in order, when none is the node
/// itself. The value cache is unchanged.
pub proof fn law_found_nodes_learns_other_peers(
    self_id: Seq<u8>,
    f: FrameModel,
    now_ms: u64,
    m: Map<Seq<u8>, Seq<u8>>,
)
    requires
        f.sender != self_id,
        f.payload is FoundNodes,
    ensures
        spec_on_frame(self_id, f, now_ms, m).1 == m,
        spec_on_frame(self_id, f, now_ms, m).0 is LearnPeers,
        spec_on_frame(self_id, f, now_ms, m).0->LearnPeers_ping == (FrameModel {
            sender: self_id,
            payload: PayloadModel::Ping { timestamp: now_ms },
        }),
        spec_on_frame(self_id, f, now_ms, m).0->LearnPeers_peers.len()
            <= f.payload->FoundNodes_peers.len(),
        forall|i: int|
            0 <= i < f.payload->FoundNodes_peers.len() && f.payload->FoundNodes_peers[i].id
                != self_id ==> spec_on_frame(
                self_id,
                f,
                now_ms,
                m,
            ).0->LearnPeers_peers.contains(f.payload->FoundNodes_peers[i]),
        forall|p: PeerModel|
            #[trigger] spec_on_frame(self_id, f, now_ms, m).0->LearnPeers_peers.contains(p) ==> p.id
                != self_id && f.payload->FoundNodes_peers.contains(p),
        (forall|i: int|
            0 <= i < f.payload->FoundNodes_peers.len() ==> f.payload->FoundNodes_peers[i].id
                != self_id) ==> spec_on_frame(self_id, f, now_ms, m).0->LearnPeers_peers
            == f.payload->FoundNodes_peers,
{
    lemma_other_peers_exact(f.payload->FoundNodes_peers, self_id);
}

} // verus!
