//! The UDP wire format spoken between Shivya nodes.
//!
//! Every frame starts with a 25-byte header: the four magic bytes `SHVY`,
//! one frame-type byte and the 20-byte sender id. The payload that follows
//! depends on the frame type. Multi-byte integers are big-endian. Floating
//! point quantities travel as their IEEE-754 bit patterns, and this module
//! keeps them as those `u64` bit patterns.
use vstd::prelude::*;
use vstd::slice::{slice_subrange, slice_to_vec};
use vstd::std_specs::cmp::PartialEqSpecImpl;

verus! {

/// Most peers ever packed into a FOUND_NODES / FOUND_VALUE frame.
pub const MAX_NODES_PER_FRAME: usize = 8;

/// Largest DHT value a STORE / FOUND_VALUE frame carries.
pub const MAX_VALUE_BYTES: usize = 256;

pub const FT_PING: u8 = 0x01;
pub const FT_PONG: u8 = 0x02;
pub const FT_THERMO_PUSH: u8 = 0x03;
pub const FT_GRAD_DIFF: u8 = 0x04;
pub const FT_FIND_NODE: u8 = 0x05;
pub const FT_FOUND_NODES: u8 = 0x06;
pub const FT_STORE: u8 = 0x07;
pub const FT_FIND_VALUE: u8 = 0x08;
pub const FT_FOUND_VALUE: u8 = 0x09;

/// A 160-bit node identifier.
#[derive(Debug, Clone, Copy, PartialEq, Eq, Hash)]
pub struct NodeId(pub [u8; 20]);

/// A 160-bit key for the Kademlia DHT layer.
#[derive(Debug, Clone, Copy, PartialEq, Eq, Hash)]
pub struct DhtKey(pub [u8; 20]);

/// A UDP socket address of a peer. Only IPv4 addresses can be framed.
/// An IPv6 address carries its flow information and scope id as well.
#[derive(Debug, Clone, Copy, PartialEq, Eq, Hash)]
pub enum PeerAddress {
    V4 { ip: [u8; 4], port: u16 },
    V6 { ip: [u8; 16], port: u16, flowinfo: u32, scope_id: u32 },
}

/// A peer as the routing layer knows it.
#[derive(Debug, Clone, Copy, PartialEq, Eq, Hash)]
pub struct PeerInfo {
    pub id: NodeId,
    pub address: PeerAddress,
}

/// What a frame carries after its header.
///
/// `ThermodynamicPush` and `GradientDiff` carry `f64` quantities; they are
/// held here as their IEEE-754 bit patterns (`f64::to_bits`); two payloads
/// compare equal as their `f64` values do (see `payload_eq_spec`).
#[derive(Debug, Clone)]
pub enum FramePayload {
    Ping { timestamp: u64 },
    Pong { timestamp: u64 },
    ThermodynamicPush { free_energy_bits: u64, pressure_bits: u64 },
    GradientDiff { target_id: NodeId, coefficient_bits: u64, flow_bits: u64 },
    /// Kademlia FIND_NODE: ask the receiver for the peers closest to `target`.
    FindNode { target: NodeId },
    /// Response to FIND_NODE: up to `MAX_NODES_PER_FRAME` peers.
    FoundNodes { peers: Vec<PeerInfo> },
    /// Kademlia STORE: best-effort key/value publish to the receiver.
    Store { key: DhtKey, value_len: u16, value: Vec<u8> },
    /// Kademlia FIND_VALUE: ask the receiver for `key`.
    FindValue { key: DhtKey },
    /// Response: the value if it is held, and a peer list to redirect to.
    FoundValue { key: DhtKey, value: Option<Vec<u8>>, peers: Vec<PeerInfo> },
}

#[derive(Debug, Clone, PartialEq)]
pub struct Frame {
    pub sender: NodeId,
    pub payload: FramePayload,
}

// ---------------------------------------------------------------------------
// Mathematical model of frames
// ---------------------------------------------------------------------------

#[verifier::ext_equal]
pub enum AddressModel {
    V4 { ip: Seq<u8>, port: u16 },
    V6 { ip: Seq<u8>, port: u16, flowinfo: u32, scope_id: u32 },
}

#[verifier::ext_equal]
pub struct PeerModel {
    pub id: Seq<u8>,
    pub address: AddressModel,
}

#[verifier::ext_equal]
pub enum PayloadModel {
    Ping { timestamp: u64 },
    Pong { timestamp: u64 },
    ThermodynamicPush { free_energy_bits: u64, pressure_bits: u64 },
    GradientDiff { target_id: Seq<u8>, coefficient_bits: u64, flow_bits: u64 },
    FindNode { target: Seq<u8> },
    FoundNodes { peers: Seq<PeerModel> },
    Store { key: Seq<u8>, value_len: u16, value: Seq<u8> },
    FindValue { key: Seq<u8> },
    FoundValue { key: Seq<u8>, value: Option<Seq<u8>>, peers: Seq<PeerModel> },
}

#[verifier::ext_equal]
pub struct FrameModel {
    pub sender: Seq<u8>,
    pub payload: PayloadModel,
}

impl View for NodeId {
    type V = Seq<u8>;

    open spec fn view(&self) -> Seq<u8> {
        self.0@
    }
}

impl View for DhtKey {
    type V = Seq<u8>;

    open spec fn view(&self) -> Seq<u8> {
        self.0@
    }
}

impl View for PeerAddress {
    type V = AddressModel;

    open spec fn view(&self) -> AddressModel {
        match *self {
            PeerAddress::V4 { ip, port } => AddressModel::V4 { ip: ip@, port },
            PeerAddress::V6 { ip, port, flowinfo, scope_id } => AddressModel::V6 {
                ip: ip@,
                port,
                flowinfo,
                scope_id,
            },
        }
    }
}

impl View for PeerInfo {
    type V = PeerModel;

    open spec fn view(&self) -> PeerModel {
        PeerModel { id: self.id@, address: self.address@ }
    }
}

pub open spec fn peers_view(ps: Seq<PeerInfo>) -> Seq<PeerModel> {
    ps.map_values(|p: PeerInfo| p@)
}

pub open spec fn value_view(v: Option<Vec<u8>>) -> Option<Seq<u8>> {
    match v {
        Some(v) => Some(v@),
        None => None,
    }
}

impl View for FramePayload {
    type V = PayloadModel;

    open spec fn view(&self) -> PayloadModel {
        match self {
            FramePayload::Ping { timestamp } => PayloadModel::Ping { timestamp: *timestamp },
            FramePayload::Pong { timestamp } => PayloadModel::Pong { timestamp: *timestamp },
            FramePayload::ThermodynamicPush { free_energy_bits, pressure_bits } =>
                PayloadModel::ThermodynamicPush {
                    free_energy_bits: *free_energy_bits,
                    pressure_bits: *pressure_bits,
                },
            FramePayload::GradientDiff { target_id, coefficient_bits, flow_bits } =>
                PayloadModel::GradientDiff {
                    target_id: target_id@,
                    coefficient_bits: *coefficient_bits,
                    flow_bits: *flow_bits,
                },
            FramePayload::FindNode { target } => PayloadModel::FindNode { target: target@ },
            FramePayload::FoundNodes { peers } => PayloadModel::FoundNodes { peers: peers_view(peers@) },
            FramePayload::Store { key, value_len, value } =>
                PayloadModel::Store { key: key@, value_len: *value_len, value: value@ },
            FramePayload::FindValue { key } => PayloadModel::FindValue { key: key@ },
            FramePayload::FoundValue { key, value, peers } =>
                PayloadModel::FoundValue {
                    key: key@,
                    value: value_view(*value),
                    peers: peers_view(peers@),
                },
        }
    }
}

impl View for Frame {
    type V = FrameModel;

    open spec fn view(&self) -> FrameModel {
        FrameModel { sender: self.sender@, payload: self.payload@ }
    }
}

// ---------------------------------------------------------------------------
// Byte-level helpers
// ---------------------------------------------------------------------------

/// The big-endian `u64` stored at `b[o..o+8]`.
pub open spec fn be_u64_at(b: Seq<u8>, o: int) -> u64 {
    ((b[o] as u64) << 56u64) | ((b[o + 1] as u64) << 48u64) | ((b[o + 2] as u64) << 40u64) | ((b[o
        + 3] as u64) << 32u64) | ((b[o + 4] as u64) << 24u64) | ((b[o + 5] as u64) << 16u64) | ((b[o
        + 6] as u64) << 8u64) | (b[o + 7] as u64)
}

/// The big-endian `u16` stored at `b[o..o+2]`.
pub open spec fn be_u16_at(b: Seq<u8>, o: int) -> u16 {
    ((b[o] as u16) << 8u16) | (b[o + 1] as u16)
}

/// `b[o..o+8]` holds `x` in big-endian order.
pub open spec fn u64_written_at(b: Seq<u8>, o: int, x: u64) -> bool {
    &&& b[o] == (x >> 56u64) as u8
    &&& b[o + 1] == (x >> 48u64) as u8
    &&& b[o + 2] == (x >> 40u64) as u8
    &&& b[o + 3] == (x >> 32u64) as u8
    &&& b[o + 4] == (x >> 24u64) as u8
    &&& b[o + 5] == (x >> 16u64) as u8
    &&& b[o + 6] == (x >> 8u64) as u8
    &&& b[o + 7] == x as u8
}

/// `b[o..o+2]` holds `x` in big-endian order.
pub open spec fn u16_written_at(b: Seq<u8>, o: int, x: u16) -> bool {
    &&& b[o] == (x >> 8u16) as u8
    &&& b[o + 1] == x as u8
}

proof fn lemma_u64_roundtrip(b: Seq<u8>, o: int, x: u64)
    requires
        0 <= o,
        o + 8 <= b.len(),
        u64_written_at(b, o, x),
    ensures
        be_u64_at(b, o) == x,
{
    let b0 = b[o];
    let b1 = b[o + 1];
    let b2 = b[o + 2];
    let b3 = b[o + 3];
    let b4 = b[o + 4];
    let b5 = b[o + 5];
    let b6 = b[o + 6];
    let b7 = b[o + 7];
    assert(((b0 as u64) << 56u64) | ((b1 as u64) << 48u64) | ((b2 as u64) << 40u64) | ((b3 as u64)
        << 32u64) | ((b4 as u64) << 24u64) | ((b5 as u64) << 16u64) | ((b6 as u64) << 8u64) | (b7 as u64)
        == x) by (bit_vector)
        requires
            b0 == (x >> 56u64) as u8,
            b1 == (x >> 48u64) as u8,
            b2 == (x >> 40u64) as u8,
            b3 == (x >> 32u64) as u8,
            b4 == (x >> 24u64) as u8,
            b5 == (x >> 16u64) as u8,
            b6 == (x >> 8u64) as u8,
            b7 == x as u8,
    ;
}

proof fn lemma_u16_roundtrip(b: Seq<u8>, o: int, x: u16)
    requires
        0 <= o,
        o + 2 <= b.len(),
        u16_written_at(b, o, x),
    ensures
        be_u16_at(b, o) == x,
{
    let b0 = b[o];
    let b1 = b[o + 1];
    assert(((b0 as u16) << 8u16) | (b1 as u16) == x) by (bit_vector)
        requires
            b0 == (x >> 8u16) as u8,
            b1 == x as u8,
    ;
}

fn read_u64_be(buf: &[u8], o: usize) -> (r: u64)
    requires
        o + 8 <= buf@.len(),
    ensures
        r == be_u64_at(buf@, o as int),
{
    ((buf[o] as u64) << 56u64) | ((buf[o + 1] as u64) << 48u64) | ((buf[o + 2] as u64) << 40u64) | ((
    buf[o + 3] as u64) << 32u64) | ((buf[o + 4] as u64) << 24u64) | ((buf[o + 5] as u64) << 16u64) | ((
    buf[o + 6] as u64) << 8u64) | (buf[o + 7] as u64)
}

fn read_u16_be(buf: &[u8], o: usize) -> (r: u16)
    requires
        o + 2 <= buf@.len(),
    ensures
        r == be_u16_at(buf@, o as int),
{
    ((buf[o] as u16) << 8u16) | (buf[o + 1] as u16)
}

fn write_u64_be(buf: &mut [u8], o: usize, x: u64)
    requires
        o + 8 <= old(buf)@.len(),
    ensures
        final(buf)@.len() == old(buf)@.len(),
        u64_written_at(final(buf)@, o as int, x),
        forall|k: int|
            0 <= k < old(buf)@.len() && !(o <= k < o + 8) ==> final(buf)@[k] == old(buf)@[k],
{
    buf[o] = (x >> 56u64) as u8;
    buf[o + 1] = (x >> 48u64) as u8;
    buf[o + 2] = (x >> 40u64) as u8;
    buf[o + 3] = (x >> 32u64) as u8;
    buf[o + 4] = (x >> 24u64) as u8;
    buf[o + 5] = (x >> 16u64) as u8;
    buf[o + 6] = (x >> 8u64) as u8;
    buf[o + 7] = x as u8;
}

fn write_u16_be(buf: &mut [u8], o: usize, x: u16)
    requires
        o + 2 <= old(buf)@.len(),
    ensures
        final(buf)@.len() == old(buf)@.len(),
        u16_written_at(final(buf)@, o as int, x),
        forall|k: int|
            0 <= k < old(buf)@.len() && !(o <= k < o + 2) ==> final(buf)@[k] == old(buf)@[k],
{
    buf[o] = (x >> 8u16) as u8;
    buf[o + 1] = x as u8;
}

/// Copies the 20 bytes starting at `off`.
fn read_id(buf: &[u8], off: usize) -> (r: [u8; 20])
    requires
        off + 20 <= buf@.len(),
    ensures
        r@ == buf@.subrange(off as int, off + 20),
{
    let mut r = [0u8; 20];
    let mut i: usize = 0;
    while i < 20
        invariant
            i <= 20,
            off + 20 <= buf.len(),
            r@.len() == 20,
            forall|j: int| 0 <= j < i ==> r@[j] == buf@[off + j],
        decreases 20 - i,
    {
        r[i] = buf[off + i];
        i = i + 1;
    }
    assert(r@ =~= buf@.subrange(off as int, off + 20));
    r
}

/// Copies `src` into `buf` starting at `off`.
fn write_bytes(buf: &mut [u8], off: usize, src: &[u8])
    requires
        off + src@.len() <= old(buf)@.len(),
    ensures
        final(buf)@.len() == old(buf)@.len(),
        final(buf)@.subrange(off as int, off + src@.len()) == src@,
        forall|j: int| 0 <= j < src@.len() ==> final(buf)@[off + j] == src@[j],
        forall|k: int|
            0 <= k < old(buf)@.len() && !(off <= k < off + src@.len()) ==> final(buf)@[k]
                == old(buf)@[k],
{
    let n = src.len();
    let mut i: usize = 0;
    while i < n
        invariant
            n == src@.len(),
            i <= n,
            off + n <= buf.len(),
            buf@.len() == old(buf)@.len(),
            forall|j: int| 0 <= j < i ==> buf@[off + j] == src@[j],
            forall|k: int|
                0 <= k < old(buf)@.len() && !(off <= k < off + i) ==> buf@[k] == old(buf)@[k],
        decreases n - i,
    {
        buf[off + i] = src[i];
        i = i + 1;
    }
    assert(buf@.subrange(off as int, off + n) =~= src@);
}


// ---------------------------------------------------------------------------
// Parsing
// ---------------------------------------------------------------------------

/// The magic sequence `SHVY` opens every frame.
pub open spec fn has_magic(b: Seq<u8>) -> bool {
    &&& b[0] == 0x53u8
    &&& b[1] == 0x48u8
    &&& b[2] == 0x56u8
    &&& b[3] == 0x59u8
}

/// The peer record at `b[o..o+27]`: 20-byte id, the IPv4 family byte,
/// 4 address bytes and a big-endian port.
pub open spec fn peer_at(b: Seq<u8>, o: int) -> PeerModel {
    PeerModel {
        id: b.subrange(o, o + 20),
        address: AddressModel::V4 { ip: b.subrange(o + 21, o + 25), port: be_u16_at(b, o + 25) },
    }
}

/// The `n` consecutive peer records starting at `o`.
pub open spec fn peers_at(b: Seq<u8>, o: int, n: nat) -> Seq<PeerModel> {
    Seq::new(n, |i: int| peer_at(b, o + 27 * i))
}

/// The address-family byte of the `i`-th peer record starting at `o`.
pub open spec fn family_byte(b: Seq<u8>, o: int, i: int) -> u8 {
    b[o + 27 * i + 20]
}

/// All `n` peer records starting at `o` lie inside `b` and are IPv4.
pub open spec fn peer_records_fit(b: Seq<u8>, o: int, n: nat) -> bool {
    &&& o + 27 * n <= b.len()
    &&& forall|i: int| 0 <= i < n ==> #[trigger] family_byte(b, o, i) == 4
}

/// Some complete peer record among the first `n` is not IPv4.
pub open spec fn peer_family_error(b: Seq<u8>, o: int, n: nat) -> bool {
    exists|i: int| 0 <= i < n && o + 27 * (i + 1) <= b.len() && #[trigger] family_byte(b, o, i) != 4
}

/// The message for a peer list that does not fit: the first bad record
/// decides whether it was cut short or is not IPv4.
pub open spec fn peer_list_error(b: Seq<u8>, o: int, n: nat, truncated: Seq<char>) -> Seq<char> {
    if peer_family_error(b, o, n) {
        "only ipv4 sockaddrs supported"@
    } else {
        truncated
    }
}

/// What `Frame::parse` yields on the bytes `b`.
pub open spec fn spec_parse(b: Seq<u8>) -> Result<FrameModel, Seq<char>> {
    if b.len() < 25 {
        Err("Frame too short for header"@)
    } else if !has_magic(b) {
        Err("Invalid frame magic sequence"@)
    } else {
        match spec_parse_payload(b) {
            Ok(p) => Ok(FrameModel { sender: b.subrange(5, 25), payload: p }),
            Err(e) => Err(e),
        }
    }
}

/// The payload of a frame whose header `b[0..25]` is present.
pub open spec fn spec_parse_payload(b: Seq<u8>) -> Result<PayloadModel, Seq<char>> {
    let t = b[4];
    if t == FT_PING {
        if b.len() < 33 {
            Err("Ping frame too short"@)
        } else {
            Ok(PayloadModel::Ping { timestamp: be_u64_at(b, 25) })
        }
    } else if t == FT_PONG {
        if b.len() < 33 {
            Err("Pong frame too short"@)
        } else {
            Ok(PayloadModel::Pong { timestamp: be_u64_at(b, 25) })
        }
    } else if t == FT_THERMO_PUSH {
        if b.len() < 41 {
            Err("ThermodynamicPush frame too short"@)
        } else {
            Ok(
                PayloadModel::ThermodynamicPush {
                    free_energy_bits: be_u64_at(b, 25),
                    pressure_bits: be_u64_at(b, 33),
                },
            )
        }
    } else if t == FT_GRAD_DIFF {
        if b.len() < 61 {
            Err("GradientDiff frame too short"@)
        } else {
            Ok(
                PayloadModel::GradientDiff {
                    target_id: b.subrange(25, 45),
                    coefficient_bits: be_u64_at(b, 45),
                    flow_bits: be_u64_at(b, 53),
                },
            )
        }
    } else if t == FT_FIND_NODE {
        if b.len() < 45 {
            Err("FindNode frame too short"@)
        } else {
            Ok(PayloadModel::FindNode { target: b.subrange(25, 45) })
        }
    } else if t == FT_FOUND_NODES {
        if b.len() < 26 {
            Err("FoundNodes frame too short"@)
        } else if b[25] > 8 {
            Err("FoundNodes count exceeds max"@)
        } else if peer_records_fit(b, 26, b[25] as nat) {
            Ok(PayloadModel::FoundNodes { peers: peers_at(b, 26, b[25] as nat) })
        } else {
            Err(peer_list_error(b, 26, b[25] as nat, "FoundNodes truncated mid-peer"@))
        }
    } else if t == FT_STORE {
        if b.len() < 47 {
            Err("Store frame too short"@)
        } else if be_u16_at(b, 45) > 256 {
            Err("Store value exceeds MAX_VALUE_BYTES"@)
        } else if b.len() < 47 + be_u16_at(b, 45) {
            Err("Store frame value truncated"@)
        } else {
            Ok(
                PayloadModel::Store {
                    key: b.subrange(25, 45),
                    value_len: be_u16_at(b, 45),
                    value: b.subrange(47, 47 + be_u16_at(b, 45)),
                },
            )
        }
    } else if t == FT_FIND_VALUE {
        if b.len() < 45 {
            Err("FindValue frame too short"@)
        } else {
            Ok(PayloadModel::FindValue { key: b.subrange(25, 45) })
        }
    } else if t == FT_FOUND_VALUE {
        let has_value = b[45] != 0;
        let vl = be_u16_at(b, 46) as int;
        let c: int = if has_value { 48 + vl } else { 48 };
        if b.len() < 48 {
            Err("FoundValue frame too short"@)
        } else if vl > 256 {
            Err("FoundValue value exceeds MAX_VALUE_BYTES"@)
        } else if has_value && b.len() < 48 + vl {
            Err("FoundValue value truncated"@)
        } else if b.len() < c + 1 {
            Err("FoundValue peer count missing"@)
        } else if b[c] > 8 {
            Err("FoundValue peer count exceeds max"@)
        } else if peer_records_fit(b, c + 1, b[c] as nat) {
            Ok(
                PayloadModel::FoundValue {
                    key: b.subrange(25, 45),
                    value: if has_value {
                        Some(b.subrange(48, 48 + vl))
                    } else {
                        None
                    },
                    peers: peers_at(b, c + 1, b[c] as nat),
                },
            )
        } else {
            Err(peer_list_error(b, c + 1, b[c] as nat, "FoundValue truncated mid-peer"@))
        }
    } else {
        Err("Unknown frame type action"@)
    }
}

pub open spec fn parse_result_view(r: Result<Frame, &'static str>) -> Result<FrameModel, Seq<char>> {
    match r {
        Ok(f) => Ok(f@),
        Err(e) => Err(e@),
    }
}

/// What reading a socket address at `b[off..]` yields: the address and the
/// number of bytes it took.
pub open spec fn spec_decode_sockaddr(b: Seq<u8>, off: int) -> Result<(AddressModel, usize), Seq<char>> {
    if b.len() - off < 7 {
        Err("sockaddr slice too short"@)
    } else if b[off] != 4 {
        Err("only ipv4 sockaddrs supported"@)
    } else {
        Ok((AddressModel::V4 { ip: b.subrange(off + 1, off + 5), port: be_u16_at(b, off + 5) }, 7))
    }
}

pub open spec fn decode_result_view(r: Result<(PeerAddress, usize), &'static str>) -> Result<
    (AddressModel, usize),
    Seq<char>,
> {
    match r {
        Ok((a, n)) => Ok((a@, n)),
        Err(e) => Err(e@),
    }
}

/// Reads the 7-byte socket address at `buf[off..]`.
pub fn decode_sockaddr(buf: &[u8], off: usize) -> (r: Result<(PeerAddress, usize), &'static str>)
    requires
        off <= buf@.len(),
    ensures
        decode_result_view(r) == spec_decode_sockaddr(buf@, off as int),
{
    if buf.len() - off < 7 {
        return Err("sockaddr slice too short");
    }
    if buf[off] != 4 {
        return Err("only ipv4 sockaddrs supported");
    }
    let ip: [u8; 4] = [buf[off + 1], buf[off + 2], buf[off + 3], buf[off + 4]];
    let port = read_u16_be(buf, off + 5);
    let r = Ok((PeerAddress::V4 { ip, port }, 7));
    assert(ip@ =~= buf@.subrange(off + 1, off + 5));
    assert(decode_result_view(r) =~= spec_decode_sockaddr(buf@, off as int));
    r
}

/// Reads `count` consecutive peer records starting at `start`.
fn parse_peers(buf: &[u8], start: usize, count: usize, truncated: &'static str) -> (r: Result<
    Vec<PeerInfo>,
    &'static str,
>)
    requires
        start <= buf@.len(),
    ensures
        match r {
            Ok(v) => peer_records_fit(buf@, start as int, count as nat) && peers_view(v@)
                == peers_at(buf@, start as int, count as nat),
            Err(e) => !peer_records_fit(buf@, start as int, count as nat) && e@ == peer_list_error(
                buf@,
                start as int,
                count as nat,
                truncated@,
            ),
        },
{
    let mut peers: Vec<PeerInfo> = Vec::new();
    let mut cursor = start;
    let mut k: usize = 0;
    while k < count
        invariant
            start <= buf@.len(),
            k <= count,
            cursor == start + 27 * k,
            cursor <= buf@.len(),
            forall|i: int| 0 <= i < k ==> #[trigger] family_byte(buf@, start as int, i) == 4,
            peers_view(peers@) == peers_at(buf@, start as int, k as nat),
        decreases count - k,
    {
        if buf.len() - cursor < 27 {
            proof {
                assert forall|i: int|
                    0 <= i < count && start + 27 * (i + 1) <= buf@.len() implies #[trigger] family_byte(
                    buf@,
                    start as int,
                    i,
                ) == 4 by {
                    assert(i < k);
                }
            }
            return Err(truncated);
        }
        let id = read_id(buf, cursor);
        let decoded = decode_sockaddr(buf, cursor + 20);
        match decoded {
            Err(e) => {
                assert(family_byte(buf@, start as int, k as int) != 4);
                return Err(e);
            },
            Ok((address, _used)) => {
                let p = PeerInfo { id: NodeId(id), address };
                let ghost before = peers@;
                peers.push(p);
                proof {
                    assert(family_byte(buf@, start as int, k as int) == 4);
                    assert(peers_view(peers@) =~= peers_view(before).push(p@));
                    assert(p@ =~= peer_at(buf@, cursor as int));
                    assert(peers_at(buf@, start as int, (k + 1) as nat) =~= peers_at(
                        buf@,
                        start as int,
                        k as nat,
                    ).push(peer_at(buf@, start + 27 * k)));
                }
                cursor = cursor + 27;
                k = k + 1;
            },
        }
    }
    Ok(peers)
}

/// Copies `buf[start..end]` into a new vector.
fn copy_range(buf: &[u8], start: usize, end: usize) -> (r: Vec<u8>)
    requires
        start <= end <= buf@.len(),
    ensures
        r@ == buf@.subrange(start as int, end as int),
{
    slice_to_vec(slice_subrange(buf, start, end))
}

impl Frame {
    /// Decodes one frame from the front of `buf`; trailing bytes are ignored.
    pub fn parse(buf: &[u8]) -> (r: Result<Frame, &'static str>)
        ensures
            parse_result_view(r) == spec_parse(buf@),
    {
        if buf.len() < 25 {
            return Err("Frame too short for header");
        }
        if !(buf[0] == 0x53u8 && buf[1] == 0x48u8 && buf[2] == 0x56u8 && buf[3] == 0x59u8) {
            return Err("Invalid frame magic sequence");
        }
        let frame_type = buf[4];
        let sender = NodeId(read_id(buf, 5));
        let payload = if frame_type == FT_PING {
            if buf.len() < 33 {
                return Err("Ping frame too short");
            }
            FramePayload::Ping { timestamp: read_u64_be(buf, 25) }
        } else if frame_type == FT_PONG {
            if buf.len() < 33 {
                return Err("Pong frame too short");
            }
            FramePayload::Pong { timestamp: read_u64_be(buf, 25) }
        } else if frame_type == FT_THERMO_PUSH {
            if buf.len() < 41 {
                return Err("ThermodynamicPush frame too short");
            }
            FramePayload::ThermodynamicPush {
                free_energy_bits: read_u64_be(buf, 25),
                pressure_bits: read_u64_be(buf, 33),
            }
        } else if frame_type == FT_GRAD_DIFF {
            if buf.len() < 61 {
                return Err("GradientDiff frame too short");
            }
            FramePayload::GradientDiff {
                target_id: NodeId(read_id(buf, 25)),
                coefficient_bits: read_u64_be(buf, 45),
                flow_bits: read_u64_be(buf, 53),
            }
        } else if frame_type == FT_FIND_NODE {
            if buf.len() < 45 {
                return Err("FindNode frame too short");
            }
            FramePayload::FindNode { target: NodeId(read_id(buf, 25)) }
        } else if frame_type == FT_FOUND_NODES {
            if buf.len() < 26 {
                return Err("FoundNodes frame too short");
            }
            let count = buf[25] as usize;
            if count > MAX_NODES_PER_FRAME {
                return Err("FoundNodes count exceeds max");
            }
            match parse_peers(buf, 26, count, "FoundNodes truncated mid-peer") {
                Ok(peers) => FramePayload::FoundNodes { peers },
                Err(e) => {
                    return Err(e);
                },
            }
        } else if frame_type == FT_STORE {
            if buf.len() < 47 {
                return Err("Store frame too short");
            }
            let key = DhtKey(read_id(buf, 25));
            let value_len = read_u16_be(buf, 45);
            let vl = value_len as usize;
            if vl > MAX_VALUE_BYTES {
                return Err("Store value exceeds MAX_VALUE_BYTES");
            }
            if buf.len() < 47 + vl {
                return Err("Store frame value truncated");
            }
            let value = copy_range(buf, 47, 47 + vl);
            FramePayload::Store { key, value_len, value }
        } else if frame_type == FT_FIND_VALUE {
            if buf.len() < 45 {
                return Err("FindValue frame too short");
            }
            FramePayload::FindValue { key: DhtKey(read_id(buf, 25)) }
        } else if frame_type == FT_FOUND_VALUE {
            if buf.len() < 48 {
                return Err("FoundValue frame too short");
            }
            let key = DhtKey(read_id(buf, 25));
            let has_value = buf[45] != 0;
            let vl = read_u16_be(buf, 46) as usize;
            if vl > MAX_VALUE_BYTES {
                return Err("FoundValue value exceeds MAX_VALUE_BYTES");
            }
            let mut cursor: usize = 48;
            let value = if has_value {
                if buf.len() < cursor + vl {
                    return Err("FoundValue value truncated");
                }
                let v = copy_range(buf, cursor, cursor + vl);
                cursor = cursor + vl;
                Some(v)
            } else {
                None
            };
            if buf.len() < cursor + 1 {
                return Err("FoundValue peer count missing");
            }
            let pcount = buf[cursor] as usize;
            cursor = cursor + 1;
            if pcount > MAX_NODES_PER_FRAME {
                return Err("FoundValue peer count exceeds max");
            }
            match parse_peers(buf, cursor, pcount, "FoundValue truncated mid-peer") {
                Ok(peers) => FramePayload::FoundValue { key, value, peers },
                Err(e) => {
                    return Err(e);
                },
            }
        } else {
            return Err("Unknown frame type action");
        };
        let frame = Frame { sender, payload };
        proof {
            assert(parse_result_view(Ok::<Frame, &'static str>(frame)) =~= spec_parse(buf@));
        }
        Ok(frame)
    }
}


// ---------------------------------------------------------------------------
// Serialization
// ---------------------------------------------------------------------------

pub open spec fn is_v4(p: PeerModel) -> bool {
    p.address is V4
}

pub open spec fn peer_wf(p: PeerModel) -> bool {
    &&& p.id.len() == 20
    &&& match p.address {
        AddressModel::V4 { ip, .. } => ip.len() == 4,
        AddressModel::V6 { ip, .. } => ip.len() == 16,
    }
}

pub open spec fn peers_wf(ps: Seq<PeerModel>) -> bool {
    forall|i: int| 0 <= i < ps.len() ==> #[trigger] peer_wf(ps[i])
}

pub open spec fn all_v4(ps: Seq<PeerModel>) -> bool {
    forall|i: int| 0 <= i < ps.len() ==> #[trigger] is_v4(ps[i])
}

/// The shape every model of an in-memory frame has: 20-byte ids and keys,
/// 4- or 16-byte addresses.
pub open spec fn frame_wf(f: FrameModel) -> bool {
    &&& f.sender.len() == 20
    &&& match f.payload {
        PayloadModel::GradientDiff { target_id, .. } => target_id.len() == 20,
        PayloadModel::FindNode { target } => target.len() == 20,
        PayloadModel::FoundNodes { peers } => peers_wf(peers),
        PayloadModel::Store { key, .. } => key.len() == 20,
        PayloadModel::FindValue { key } => key.len() == 20,
        PayloadModel::FoundValue { key, peers, .. } => key.len() == 20 && peers_wf(peers),
        _ => true,
    }
}

pub open spec fn value_len_of(v: Option<Seq<u8>>) -> nat {
    match v {
        Some(v) => v.len(),
        None => 0,
    }
}

/// A frame that has an encoding: peer lists of at most
/// `MAX_NODES_PER_FRAME` IPv4 peers, values of at most `MAX_VALUE_BYTES`
/// bytes, and a STORE length field that matches its value.
pub open spec fn frame_valid(f: FrameModel) -> bool {
    &&& frame_wf(f)
    &&& match f.payload {
        PayloadModel::FoundNodes { peers } => peers.len() <= 8 && all_v4(peers),
        PayloadModel::Store { value_len, value, .. } => value.len() <= 256 && value_len
            == value.len(),
        PayloadModel::FoundValue { value, peers, .. } => peers.len() <= 8 && all_v4(peers)
            && value_len_of(value) <= 256,
        _ => true,
    }
}

/// Number of bytes in the encoding of `f`.
pub open spec fn frame_len(f: FrameModel) -> nat {
    match f.payload {
        PayloadModel::Ping { .. } => 33,
        PayloadModel::Pong { .. } => 33,
        PayloadModel::ThermodynamicPush { .. } => 41,
        PayloadModel::GradientDiff { .. } => 61,
        PayloadModel::FindNode { .. } => 45,
        PayloadModel::FoundNodes { peers } => 26 + 27 * peers.len(),
        PayloadModel::Store { value, .. } => 47 + value.len(),
        PayloadModel::FindValue { .. } => 45,
        PayloadModel::FoundValue { value, peers, .. } => 49 + value_len_of(value) + 27
            * peers.len(),
    }
}

pub open spec fn type_byte(p: PayloadModel) -> u8 {
    match p {
        PayloadModel::Ping { .. } => FT_PING,
        PayloadModel::Pong { .. } => FT_PONG,
        PayloadModel::ThermodynamicPush { .. } => FT_THERMO_PUSH,
        PayloadModel::GradientDiff { .. } => FT_GRAD_DIFF,
        PayloadModel::FindNode { .. } => FT_FIND_NODE,
        PayloadModel::FoundNodes { .. } => FT_FOUND_NODES,
        PayloadModel::Store { .. } => FT_STORE,
        PayloadModel::FindValue { .. } => FT_FIND_VALUE,
        PayloadModel::FoundValue { .. } => FT_FOUND_VALUE,
    }
}

/// Byte `j` (`0 <= j < 7`) of the encoding of an IPv4 socket address.
pub open spec fn address_byte(a: AddressModel, j: int) -> u8 {
    match a {
        AddressModel::V4 { ip, port } => if j == 0 {
            4u8
        } else if j < 5 {
            ip[j - 1]
        } else if j == 5 {
            (port >> 8u16) as u8
        } else {
            port as u8
        },
        AddressModel::V6 { .. } => 0u8,
    }
}

/// Byte `j` (`0 <= j < 27`) of the record of an IPv4 peer.
pub open spec fn peer_byte(p: PeerModel, j: int) -> u8 {
    if j < 20 {
        p.id[j]
    } else {
        address_byte(p.address, j - 20)
    }
}

/// The records of `ps` lie one after another from `b[o]` on.
pub open spec fn peers_written_at(b: Seq<u8>, o: int, ps: Seq<PeerModel>) -> bool {
    forall|i: int, j: int|
        0 <= i < ps.len() && 0 <= j < 27 ==> b[o + 27 * i + j] == #[trigger] peer_byte(ps[i], j)
}

/// The payload of `p` is written from `b[25]` on.
pub open spec fn payload_written(b: Seq<u8>, p: PayloadModel) -> bool {
    match p {
        PayloadModel::Ping { timestamp } => u64_written_at(b, 25, timestamp),
        PayloadModel::Pong { timestamp } => u64_written_at(b, 25, timestamp),
        PayloadModel::ThermodynamicPush { free_energy_bits, pressure_bits } => u64_written_at(
            b,
            25,
            free_energy_bits,
        ) && u64_written_at(b, 33, pressure_bits),
        PayloadModel::GradientDiff { target_id, coefficient_bits, flow_bits } => b.subrange(25, 45)
            == target_id && u64_written_at(b, 45, coefficient_bits) && u64_written_at(
            b,
            53,
            flow_bits,
        ),
        PayloadModel::FindNode { target } => b.subrange(25, 45) == target,
        PayloadModel::FoundNodes { peers } => b[25] == peers.len() as u8 && peers_written_at(
            b,
            26,
            peers,
        ),
        PayloadModel::Store { key, value_len, value } => b.subrange(25, 45) == key
            && u16_written_at(b, 45, value_len) && b.subrange(47, 47 + value.len() as int) == value,
        PayloadModel::FindValue { key } => b.subrange(25, 45) == key,
        PayloadModel::FoundValue { key, value, peers } => {
            &&& b.subrange(25, 45) == key
            &&& b[45] == (if value is Some {
                1u8
            } else {
                0u8
            })
            &&& u16_written_at(b, 46, value_len_of(value) as u16)
            &&& (value matches Some(v) ==> b.subrange(48, 48 + v.len() as int) == v)
            &&& b[48 + value_len_of(value) as int] == peers.len() as u8
            &&& peers_written_at(b, 49 + value_len_of(value) as int, peers)
        },
    }
}

/// `b` begins with the encoding of `f`: magic, frame type, sender, payload.
pub open spec fn starts_with_encoding(b: Seq<u8>, f: FrameModel) -> bool {
    &&& frame_len(f) <= b.len()
    &&& has_magic(b)
    &&& b[4] == type_byte(f.payload)
    &&& b.subrange(5, 25) == f.sender
    &&& payload_written(b, f.payload)
}

/// Why a peer list cannot be written from `base` on into `l` bytes, if it
/// cannot: the first record that fails decides.
pub open spec fn peers_serialize_error(ps: Seq<PeerModel>, base: int, l: int) -> Option<Seq<char>> {
    if exists|i: int| 0 <= i < ps.len() && base + 27 * (i + 1) <= l && !#[trigger] is_v4(ps[i]) {
        Some("ipv6 not supported in frame"@)
    } else if base + 27 * ps.len() > l {
        Some("Buffer too small for peer record"@)
    } else {
        None
    }
}

/// Why `Frame::serialize` refuses `f` for an `l`-byte buffer, if it does.
pub open spec fn spec_serialize_error(f: FrameModel, l: int) -> Option<Seq<char>> {
    if l < 25 {
        Some("Buffer too small for header"@)
    } else {
        match f.payload {
            PayloadModel::Ping { .. } => if l < 33 {
                Some("Buffer too small for Ping"@)
            } else {
                None
            },
            PayloadModel::Pong { .. } => if l < 33 {
                Some("Buffer too small for Pong"@)
            } else {
                None
            },
            PayloadModel::ThermodynamicPush { .. } => if l < 41 {
                Some("Buffer too small for ThermodynamicPush"@)
            } else {
                None
            },
            PayloadModel::GradientDiff { .. } => if l < 61 {
                Some("Buffer too small for GradientDiff"@)
            } else {
                None
            },
            PayloadModel::FindNode { .. } => if l < 45 {
                Some("Buffer too small for FindNode"@)
            } else {
                None
            },
            PayloadModel::FoundNodes { peers } => if peers.len() > 8 {
                Some("FoundNodes too many peers"@)
            } else if l < 26 {
                Some("Buffer too small for FoundNodes header"@)
            } else {
                peers_serialize_error(peers, 26, l)
            },
            PayloadModel::Store { value_len, value, .. } => if value_len > 256 {
                Some("Store value too large"@)
            } else if value_len != value.len() {
                Some("Store value_len mismatch"@)
            } else if l < 47 + value_len {
                Some("Buffer too small for Store"@)
            } else {
                None
            },
            PayloadModel::FindValue { .. } => if l < 45 {
                Some("Buffer too small for FindValue"@)
            } else {
                None
            },
            PayloadModel::FoundValue { value, peers, .. } => if l < 48 {
                Some("Buffer too small for FoundValue header"@)
            } else if peers.len() > 8 {
                Some("FoundValue too many peers"@)
            } else if value_len_of(value) > 256 {
                Some("FoundValue value too large"@)
            } else if value is Some && l < 48 + value_len_of(value) {
                Some("Buffer too small for FoundValue value"@)
            } else if l < 48 + value_len_of(value) + 1 {
                Some("Buffer too small for peer count"@)
            } else {
                peers_serialize_error(peers, 49 + value_len_of(value) as int, l)
            },
        }
    }
}

/// What writing `a` as a socket address into `b[off..]` does: the number of
/// bytes written, or why it cannot be written.
pub open spec fn spec_encode_sockaddr(b_len: int, off: int, a: AddressModel) -> Result<usize, Seq<char>> {
    if b_len - off < 7 {
        Err("buf too small for sockaddr"@)
    } else {
        match a {
            AddressModel::V4 { .. } => Ok(7),
            AddressModel::V6 { .. } => Err("ipv6 not supported in frame"@),
        }
    }
}

pub open spec fn usize_result_view(r: Result<usize, &'static str>) -> Result<usize, Seq<char>> {
    match r {
        Ok(n) => Ok(n),
        Err(e) => Err(e@),
    }
}

/// Writes the 7-byte socket address `addr` at `buf[off..]`.
pub fn encode_sockaddr(buf: &mut [u8], off: usize, addr: PeerAddress) -> (r: Result<usize, &'static str>)
    requires
        off <= old(buf)@.len(),
    ensures
        final(buf)@.len() == old(buf)@.len(),
        usize_result_view(r) == spec_encode_sockaddr(old(buf)@.len() as int, off as int, addr@),
        r is Ok ==> forall|j: int| 0 <= j < 7 ==> final(buf)@[off + j] == #[trigger] address_byte(addr@, j),
        r is Err ==> final(buf)@ == old(buf)@,
        forall|k: int|
            0 <= k < old(buf)@.len() && !(off <= k < off + 7) ==> final(buf)@[k] == old(buf)@[k],
{
    if buf.len() - off < 7 {
        return Err("buf too small for sockaddr");
    }
    match addr {
        PeerAddress::V4 { ip, port } => {
            buf[off] = 4;
            buf[off + 1] = ip[0];
            buf[off + 2] = ip[1];
            buf[off + 3] = ip[2];
            buf[off + 4] = ip[3];
            write_u16_be(buf, off + 5, port);
            Ok(7)
        },
        PeerAddress::V6 { .. } => Err("ipv6 not supported in frame"),
    }
}

/// Writes the records of `peers` one after another from `buf[start]` on.
fn write_peers(buf: &mut [u8], start: usize, peers: &Vec<PeerInfo>) -> (r: Result<
    usize,
    &'static str,
>)
    requires
        start <= old(buf)@.len(),
    ensures
        final(buf)@.len() == old(buf)@.len(),
        forall|k: int|
            0 <= k < old(buf)@.len() && !(start <= k < start + 27 * peers@.len())
                ==> final(buf)@[k] == old(buf)@[k],
        match r {
            Ok(n) => {
                &&& peers_serialize_error(peers_view(peers@), start as int, old(buf)@.len() as int)
                    is None
                &&& n == start + 27 * peers@.len()
                &&& peers_written_at(final(buf)@, start as int, peers_view(peers@))
                &&& forall|k: int|
                    0 <= k < old(buf)@.len() && !(start <= k < n) ==> final(buf)@[k] == old(
                        buf,
                    )@[k]
            },
            Err(e) => peers_serialize_error(peers_view(peers@), start as int, old(buf)@.len() as int)
                == Some(e@),
        },
{
    let ghost ps = peers_view(peers@);
    let n = peers.len();
    let mut cursor = start;
    let mut k: usize = 0;
    while k < n
        invariant
            n == peers@.len(),
            ps == peers_view(peers@),
            buf@.len() == old(buf)@.len(),
            k <= n,
            cursor == start + 27 * k,
            cursor <= buf@.len(),
            forall|i: int| 0 <= i < k ==> #[trigger] is_v4(ps[i]),
            peers_written_at(buf@, start as int, ps.take(k as int)),
            forall|q: int|
                0 <= q < old(buf)@.len() && !(start <= q < cursor) ==> buf@[q] == old(buf)@[q],
        decreases n - k,
    {
        if buf.len() - cursor < 27 {
            proof {
                assert forall|i: int|
                    0 <= i < ps.len() && start + 27 * (i + 1) <= old(buf)@.len() implies #[trigger] is_v4(
                    ps[i],
                ) by {
                    assert(i < k);
                }
            }
            return Err("Buffer too small for peer record");
        }
        let p = peers[k];
        let ghost before = buf@;
        write_bytes(buf, cursor, p.id.0.as_slice());
        let res = encode_sockaddr(buf, cursor + 20, p.address);
        match res {
            Err(e) => {
                assert(!is_v4(ps[k as int]));
                return Err(e);
            },
            Ok(_) => {},
        }
        proof {
            assert(ps[k as int] == p@);
            assert forall|i: int, j: int|
                0 <= i < k + 1 && 0 <= j < 27 implies buf@[start + 27 * i + j] == #[trigger] peer_byte(
                ps.take(k + 1)[i],
                j,
            ) by {
                if i < k {
                    assert(ps.take(k + 1)[i] == ps.take(k as int)[i]);
                    assert(before[start + 27 * i + j] == peer_byte(ps.take(k as int)[i], j));
                } else {
                    assert(ps.take(k + 1)[i] == p@);
                    if j < 20 {
                        assert(buf@.subrange(cursor as int, cursor + 20)[j] == p.id.0@[j]);
                    } else {
                        assert(buf@[cursor + 20 + (j - 20)] == address_byte(p.address@, j - 20));
                    }
                }
            }
        }
        cursor = cursor + 27;
        k = k + 1;
    }
    proof {
        assert(ps.take(n as int) =~= ps);
        assert(!(exists|i: int| 0 <= i < ps.len() && start + 27 * (i + 1) <= old(buf)@.len() && !#[trigger] is_v4(ps[i])));
    }
    Ok(cursor)
}


/// Writes the magic bytes, the frame type and the sender id.
fn write_header(buf: &mut [u8], frame_type: u8, sender: &NodeId)
    requires
        25 <= old(buf)@.len(),
    ensures
        final(buf)@.len() == old(buf)@.len(),
        has_magic(final(buf)@),
        final(buf)@[4] == frame_type,
        final(buf)@.subrange(5, 25) == sender@,
        forall|j: int| 0 <= j < 20 ==> final(buf)@[5 + j] == sender@[j],
        forall|k: int| 25 <= k < old(buf)@.len() ==> final(buf)@[k] == old(buf)@[k],
{
    buf[0] = 0x53u8;
    buf[1] = 0x48u8;
    buf[2] = 0x56u8;
    buf[3] = 0x59u8;
    buf[4] = frame_type;
    write_bytes(buf, 5, sender.0.as_slice());
}

/// The peer list of a frame model always has the shape of in-memory peers.
proof fn lemma_peers_view_wf(ps: Seq<PeerInfo>)
    ensures
        peers_wf(peers_view(ps)),
        peers_view(ps).len() == ps.len(),
{
    assert forall|i: int| 0 <= i < peers_view(ps).len() implies #[trigger] peer_wf(
        peers_view(ps)[i],
    ) by {
        let p = ps[i];
        assert(p.id.0@.len() == 20);
        match p.address {
            PeerAddress::V4 { ip, .. } => assert(ip@.len() == 4),
            PeerAddress::V6 { ip, .. } => assert(ip@.len() == 16),
        }
    }
}

/// The model of every in-memory frame is well formed.
pub proof fn lemma_frame_view_wf(f: Frame)
    ensures
        frame_wf(f@),
{
    assert(f.sender.0@.len() == 20);
    match f.payload {
        FramePayload::GradientDiff { target_id, .. } => assert(target_id.0@.len() == 20),
        FramePayload::FindNode { target } => assert(target.0@.len() == 20),
        FramePayload::FoundNodes { peers } => lemma_peers_view_wf(peers@),
        FramePayload::Store { key, .. } => assert(key.0@.len() == 20),
        FramePayload::FindValue { key } => assert(key.0@.len() == 20),
        FramePayload::FoundValue { key, peers, .. } => {
            assert(key.0@.len() == 20);
            lemma_peers_view_wf(peers@);
        },
        _ => {},
    }
}

/// A peer list can be written exactly when every peer is IPv4 and all
/// records fit.
proof fn lemma_peers_serialize_error_none(ps: Seq<PeerModel>, base: int, l: int)
    ensures
        peers_serialize_error(ps, base, l) is None <==> (all_v4(ps) && base + 27 * ps.len() <= l),
{
    if peers_serialize_error(ps, base, l) is None {
        assert forall|i: int| 0 <= i < ps.len() implies #[trigger] is_v4(ps[i]) by {
            assert(base + 27 * (i + 1) <= l);
        }
    }
}

/// `Frame::serialize` succeeds exactly on valid frames whose encoding fits.
pub proof fn lemma_serialize_error_none(f: FrameModel, l: int)
    requires
        frame_wf(f),
    ensures
        spec_serialize_error(f, l) is None <==> (frame_valid(f) && frame_len(f) <= l),
{
    match f.payload {
        PayloadModel::FoundNodes { peers } => lemma_peers_serialize_error_none(peers, 26, l),
        PayloadModel::FoundValue { value, peers, .. } => lemma_peers_serialize_error_none(
            peers,
            49 + value_len_of(value) as int,
            l,
        ),
        _ => {},
    }
}

impl Frame {
    /// Encodes the frame at the front of `buf` and returns its length.
    pub fn serialize(&self, buf: &mut [u8]) -> (r: Result<usize, &'static str>)
        ensures
            final(buf)@.len() == old(buf)@.len(),
            r is Ok <==> (frame_valid(self@) && frame_len(self@) <= old(buf)@.len()),
            old(buf)@.len() < 25 ==> final(buf)@ == old(buf)@,
            r is Err && old(buf)@.len() >= 25 ==> {
                &&& has_magic(final(buf)@)
                &&& final(buf)@[4] == type_byte(self@.payload)
                &&& final(buf)@.subrange(5, 25) == self@.sender
            },
            forall|k: int|
                frame_len(self@) <= k < old(buf)@.len() ==> final(buf)@[k] == old(buf)@[k],
            match r {
                Ok(n) => {
                    &&& n == frame_len(self@)
                    &&& starts_with_encoding(final(buf)@, self@)
                    &&& forall|k: int| n <= k < old(buf)@.len() ==> final(buf)@[k] == old(buf)@[k]
                },
                Err(e) => spec_serialize_error(self@, old(buf)@.len() as int) == Some(e@),
            },
    {
        proof {
            lemma_frame_view_wf(*self);
            lemma_serialize_error_none(self@, old(buf)@.len() as int);
        }
        if buf.len() < 25 {
            return Err("Buffer too small for header");
        }
        match &self.payload {
            FramePayload::Ping { timestamp } => {
                write_header(buf, FT_PING, &self.sender);
                if buf.len() < 33 {
                    return Err("Buffer too small for Ping");
                }
                write_u64_be(buf, 25, *timestamp);
                assert(buf@.subrange(5, 25) =~= self@.sender);
                Ok(33)
            },
            FramePayload::Pong { timestamp } => {
                write_header(buf, FT_PONG, &self.sender);
                if buf.len() < 33 {
                    return Err("Buffer too small for Pong");
                }
                write_u64_be(buf, 25, *timestamp);
                assert(buf@.subrange(5, 25) =~= self@.sender);
                Ok(33)
            },
            FramePayload::ThermodynamicPush { free_energy_bits, pressure_bits } => {
                write_header(buf, FT_THERMO_PUSH, &self.sender);
                if buf.len() < 41 {
                    return Err("Buffer too small for ThermodynamicPush");
                }
                write_u64_be(buf, 25, *free_energy_bits);
                write_u64_be(buf, 33, *pressure_bits);
                assert(buf@.subrange(5, 25) =~= self@.sender);
                Ok(41)
            },
            FramePayload::GradientDiff { target_id, coefficient_bits, flow_bits } => {
                write_header(buf, FT_GRAD_DIFF, &self.sender);
                if buf.len() < 61 {
                    return Err("Buffer too small for GradientDiff");
                }
                write_bytes(buf, 25, target_id.0.as_slice());
                write_u64_be(buf, 45, *coefficient_bits);
                write_u64_be(buf, 53, *flow_bits);
                assert(buf@.subrange(5, 25) =~= self@.sender);
                assert(buf@.subrange(25, 45) =~= target_id@);
                Ok(61)
            },
            FramePayload::FindNode { target } => {
                write_header(buf, FT_FIND_NODE, &self.sender);
                if buf.len() < 45 {
                    return Err("Buffer too small for FindNode");
                }
                write_bytes(buf, 25, target.0.as_slice());
                assert(buf@.subrange(5, 25) =~= self@.sender);
                assert(buf@.subrange(25, 45) =~= target@);
                Ok(45)
            },
            FramePayload::FoundNodes { peers } => {
                write_header(buf, FT_FOUND_NODES, &self.sender);
                if peers.len() > MAX_NODES_PER_FRAME {
                    return Err("FoundNodes too many peers");
                }
                if buf.len() < 26 {
                    return Err("Buffer too small for FoundNodes header");
                }
                buf[25] = peers.len() as u8;
                match write_peers(buf, 26, peers) {
                    Ok(n) => {
                        assert(buf@.subrange(5, 25) =~= self@.sender);
                        Ok(n)
                    },
                    Err(e) => Err(e),
                }
            },
            FramePayload::Store { key, value_len, value } => {
                write_header(buf, FT_STORE, &self.sender);
                let vl = *value_len as usize;
                if vl > MAX_VALUE_BYTES {
                    return Err("Store value too large");
                }
                if vl != value.len() {
                    return Err("Store value_len mismatch");
                }
                if buf.len() < 47 + vl {
                    return Err("Buffer too small for Store");
                }
                write_bytes(buf, 25, key.0.as_slice());
                write_u16_be(buf, 45, vl as u16);
                write_bytes(buf, 47, value.as_slice());
                assert(buf@.subrange(5, 25) =~= self@.sender);
                assert(buf@.subrange(25, 45) =~= key@);
                assert(buf@.subrange(47, 47 + vl) =~= value@);
                Ok(47 + vl)
            },
            FramePayload::FindValue { key } => {
                write_header(buf, FT_FIND_VALUE, &self.sender);
                if buf.len() < 45 {
                    return Err("Buffer too small for FindValue");
                }
                write_bytes(buf, 25, key.0.as_slice());
                assert(buf@.subrange(5, 25) =~= self@.sender);
                assert(buf@.subrange(25, 45) =~= key@);
                Ok(45)
            },
            FramePayload::FoundValue { key, value, peers } => {
                write_header(buf, FT_FOUND_VALUE, &self.sender);
                if buf.len() < 48 {
                    return Err("Buffer too small for FoundValue header");
                }
                if peers.len() > MAX_NODES_PER_FRAME {
                    return Err("FoundValue too many peers");
                }
                write_bytes(buf, 25, key.0.as_slice());
                let vl = match value {
                    Some(v) => v.len(),
                    None => 0,
                };
                if vl > MAX_VALUE_BYTES {
                    return Err("FoundValue value too large");
                }
                buf[45] = if value.is_some() {
                    1
                } else {
                    0
                };
                write_u16_be(buf, 46, vl as u16);
                let mut cursor: usize = 48;
                match value {
                    Some(v) => {
                        if buf.len() < cursor + vl {
                            return Err("Buffer too small for FoundValue value");
                        }
                        write_bytes(buf, cursor, v.as_slice());
                        cursor = cursor + vl;
                    },
                    None => {},
                }
                if buf.len() < cursor + 1 {
                    return Err("Buffer too small for peer count");
                }
                buf[cursor] = peers.len() as u8;
                cursor = cursor + 1;
                match write_peers(buf, cursor, peers) {
                    Ok(n) => {
                        assert(buf@.subrange(5, 25) =~= self@.sender);
                        assert(buf@.subrange(25, 45) =~= key@);
                        match value {
                            Some(v) => assert(buf@.subrange(48, 48 + v@.len() as int) =~= v@),
                            None => {},
                        }
                        Ok(n)
                    },
                    Err(e) => Err(e),
                }
            },
        }
    }
}


// ---------------------------------------------------------------------------
// Laws of the wire format
// ---------------------------------------------------------------------------

proof fn lemma_peers_decode(b: Seq<u8>, o: int, ps: Seq<PeerModel>)
    requires
        0 <= o,
        o + 27 * ps.len() <= b.len(),
        peers_wf(ps),
        all_v4(ps),
        peers_written_at(b, o, ps),
    ensures
        peer_records_fit(b, o, ps.len()),
        peers_at(b, o, ps.len()) == ps,
{
    assert forall|i: int| 0 <= i < ps.len() implies #[trigger] family_byte(b, o, i) == 4 by {
        assert(is_v4(ps[i]));
        assert(b[o + 27 * i + 20] == peer_byte(ps[i], 20));
    }
    assert forall|i: int| 0 <= i < ps.len() implies peers_at(b, o, ps.len())[i] == ps[i] by {
        let p = ps[i];
        let q = o + 27 * i;
        assert(is_v4(p));
        assert(peer_wf(p));
        assert forall|j: int| 0 <= j < 20 implies b.subrange(q, q + 20)[j] == p.id[j] by {
            assert(b[q + j] == peer_byte(p, j));
        }
        assert(b.subrange(q, q + 20) =~= p.id);
        match p.address {
            AddressModel::V4 { ip, port } => {
                assert forall|j: int| 0 <= j < 4 implies b.subrange(q + 21, q + 25)[j] == ip[j] by {
                    assert(b[q + 21 + j] == peer_byte(p, 21 + j));
                }
                assert(b.subrange(q + 21, q + 25) =~= ip);
                assert(b[q + 25] == peer_byte(p, 25));
                assert(b[q + 26] == peer_byte(p, 26));
                lemma_u16_roundtrip(b, q + 25, port);
                assert(peer_at(b, q) =~= p);
            },
            AddressModel::V6 { .. } => {},
        }
    }
    assert(peers_at(b, o, ps.len()) =~= ps);
}

/// Round trip: decoding any buffer that begins with the encoding of a valid
/// frame gives that frame back, whatever bytes follow the encoding.
pub proof fn lemma_parse_of_encoding(b: Seq<u8>, f: FrameModel)
    requires
        frame_valid(f),
        starts_with_encoding(b, f),
    ensures
        spec_parse(b) == Ok::<FrameModel, Seq<char>>(f),
{
    let r = spec_parse_payload(b);
    match f.payload {
        PayloadModel::Ping { timestamp } => lemma_u64_roundtrip(b, 25, timestamp),
        PayloadModel::Pong { timestamp } => lemma_u64_roundtrip(b, 25, timestamp),
        PayloadModel::ThermodynamicPush { free_energy_bits, pressure_bits } => {
            lemma_u64_roundtrip(b, 25, free_energy_bits);
            lemma_u64_roundtrip(b, 33, pressure_bits);
        },
        PayloadModel::GradientDiff { coefficient_bits, flow_bits, .. } => {
            lemma_u64_roundtrip(b, 45, coefficient_bits);
            lemma_u64_roundtrip(b, 53, flow_bits);
        },
        PayloadModel::FoundNodes { peers } => {
            lemma_peers_decode(b, 26, peers);
            assert(r == Ok::<PayloadModel, Seq<char>>(f.payload));
        },
        PayloadModel::Store { value_len, value, .. } => {
            lemma_u16_roundtrip(b, 45, value_len);
            assert(r == Ok::<PayloadModel, Seq<char>>(f.payload));
        },
        PayloadModel::FoundValue { key, value, peers } => {
            let vl = value_len_of(value);
            lemma_u16_roundtrip(b, 46, vl as u16);
            lemma_peers_decode(b, 49 + vl as int, peers);
            assert(r == Ok::<PayloadModel, Seq<char>>(f.payload));
        },
        _ => {},
    }
    assert(spec_parse(b) =~= Ok::<FrameModel, Seq<char>>(f));
}

/// Everything `Frame::parse` accepts is a valid frame, so it can be
/// serialized again.
pub proof fn lemma_parsed_frame_valid(b: Seq<u8>)
    requires
        spec_parse(b) is Ok,
    ensures
        frame_valid(spec_parse(b)->Ok_0),
{
    let f = spec_parse(b)->Ok_0;
    match f.payload {
        PayloadModel::FoundNodes { peers } => {
            let n = b[25] as nat;
            assert forall|i: int| 0 <= i < peers.len() implies #[trigger] is_v4(peers[i]) by {
                assert(peers[i] == peer_at(b, 26 + 27 * i));
            }
            assert forall|i: int| 0 <= i < peers.len() implies #[trigger] peer_wf(peers[i]) by {
                assert(peers[i] == peer_at(b, 26 + 27 * i));
            }
        },
        PayloadModel::FoundValue { value, peers, .. } => {
            let has_value = b[45] != 0;
            let vl = be_u16_at(b, 46) as int;
            let c: int = if has_value { 48 + vl } else { 48 };
            assert forall|i: int| 0 <= i < peers.len() implies #[trigger] is_v4(peers[i]) by {
                assert(peers[i] == peer_at(b, c + 1 + 27 * i));
            }
            assert forall|i: int| 0 <= i < peers.len() implies #[trigger] peer_wf(peers[i]) by {
                assert(peers[i] == peer_at(b, c + 1 + 27 * i));
            }
        },
        _ => {},
    }
}

/// Reading back a socket address written by `encode_sockaddr`: seven bytes
/// that encode an IPv4 address decode to that address, taking seven bytes.
pub proof fn lemma_decode_of_encoded_address(b: Seq<u8>, off: int, a: AddressModel)
    requires
        0 <= off,
        off + 7 <= b.len(),
        a is V4,
        a->V4_ip.len() == 4,
        forall|j: int| 0 <= j < 7 ==> b[off + j] == #[trigger] address_byte(a, j),
    ensures
        spec_decode_sockaddr(b, off) == Ok::<(AddressModel, usize), Seq<char>>((a, 7)),
{
    match a {
        AddressModel::V4 { ip, port } => {
            assert(b[off] == address_byte(a, 0));
            assert forall|j: int| 0 <= j < 4 implies b.subrange(off + 1, off + 5)[j] == ip[j] by {
                assert(b[off + 1 + j] == address_byte(a, 1 + j));
            }
            assert(b.subrange(off + 1, off + 5) =~= ip);
            assert(b[off + 5] == address_byte(a, 5));
            assert(b[off + 6] == address_byte(a, 6));
            lemma_u16_roundtrip(b, off + 5, port);
        },
        AddressModel::V6 { .. } => {},
    }
}

// ---------------------------------------------------------------------------
// Equality
// ---------------------------------------------------------------------------

/// `a` and `b` hold the same 20 bytes.
pub fn same_bytes20(a: &[u8; 20], b: &[u8; 20]) -> (r: bool)
    ensures
        r == (a@ == b@),
{
    let mut i: usize = 0;
    while i < 20
        invariant
            i <= 20,
            a@.len() == 20,
            b@.len() == 20,
            forall|j: int| 0 <= j < i ==> a@[j] == b@[j],
        decreases 20 - i,
    {
        if a[i] != b[i] {
            return false;
        }
        i = i + 1;
    }
    assert(a@ =~= b@);
    true
}

/// `a` and `b` are the same socket address.
pub fn same_address(a: &PeerAddress, b: &PeerAddress) -> (r: bool)
    ensures
        r == (a@ == b@),
{
    match (a, b) {
        (PeerAddress::V4 { ip: ia, port: pa }, PeerAddress::V4 { ip: ib, port: pb }) => {
            let same = ia[0] == ib[0] && ia[1] == ib[1] && ia[2] == ib[2] && ia[3] == ib[3] && *pa
                == *pb;
            proof {
                if same {
                    assert(ia@ =~= ib@);
                }
            }
            same
        },
        (
            PeerAddress::V6 { ip: ia, port: pa, flowinfo: fa, scope_id: sa },
            PeerAddress::V6 { ip: ib, port: pb, flowinfo: fb, scope_id: sb },
        ) => {
            assert(a@ == (AddressModel::V6 { ip: ia@, port: *pa, flowinfo: *fa, scope_id: *sa }));
            assert(b@ == (AddressModel::V6 { ip: ib@, port: *pb, flowinfo: *fb, scope_id: *sb }));
            if *pa != *pb || *fa != *fb || *sa != *sb {
                return false;
            }
            let mut i: usize = 0;
            while i < 16
                invariant
                    i <= 16,
                    ia@.len() == 16,
                    ib@.len() == 16,
                    a@ == (AddressModel::V6 { ip: ia@, port: *pa, flowinfo: *fa, scope_id: *sa }),
                    b@ == (AddressModel::V6 { ip: ib@, port: *pb, flowinfo: *fb, scope_id: *sb }),
                    *pa == *pb,
                    *fa == *fb,
                    *sa == *sb,
                    forall|j: int| 0 <= j < i ==> ia@[j] == ib@[j],
                decreases 16 - i,
            {
                if ia[i] != ib[i] {
                    assert(ia@[i as int] != ib@[i as int]);
                    assert(ia@ != ib@);
                    return false;
                }
                i = i + 1;
            }
            assert(ia@ =~= ib@);
            true
        },
        _ => false,
    }
}

/// The bits `a` are those of a NaN.
pub open spec fn is_nan_bits(a: u64) -> bool {
    (a & 0x7ff0_0000_0000_0000u64) == 0x7ff0_0000_0000_0000u64 && (a & 0x000f_ffff_ffff_ffffu64)
        != 0
}

/// `f64` equality of the values whose bits are `a` and `b`: a NaN equals
/// nothing, `+0.0` equals `-0.0`, and otherwise the bits must agree.
pub open spec fn f64_bits_eq(a: u64, b: u64) -> bool {
    &&& !is_nan_bits(a)
    &&& !is_nan_bits(b)
    &&& (a == b || ((a & 0x7fff_ffff_ffff_ffffu64) == 0 && (b & 0x7fff_ffff_ffff_ffffu64) == 0))
}

/// When two payloads compare equal: the same variant with equal fields,
/// floating-point fields compared as `f64` values.
pub open spec fn payload_eq_spec(a: PayloadModel, b: PayloadModel) -> bool {
    match (a, b) {
        (PayloadModel::Ping { timestamp: t1 }, PayloadModel::Ping { timestamp: t2 }) => t1 == t2,
        (PayloadModel::Pong { timestamp: t1 }, PayloadModel::Pong { timestamp: t2 }) => t1 == t2,
        (
            PayloadModel::ThermodynamicPush { free_energy_bits: e1, pressure_bits: p1 },
            PayloadModel::ThermodynamicPush { free_energy_bits: e2, pressure_bits: p2 },
        ) => f64_bits_eq(e1, e2) && f64_bits_eq(p1, p2),
        (
            PayloadModel::GradientDiff { target_id: t1, coefficient_bits: c1, flow_bits: f1 },
            PayloadModel::GradientDiff { target_id: t2, coefficient_bits: c2, flow_bits: f2 },
        ) => t1 == t2 && f64_bits_eq(c1, c2) && f64_bits_eq(f1, f2),
        (PayloadModel::FindNode { target: t1 }, PayloadModel::FindNode { target: t2 }) => t1 == t2,
        (PayloadModel::FoundNodes { peers: p1 }, PayloadModel::FoundNodes { peers: p2 }) => p1
            == p2,
        (
            PayloadModel::Store { key: k1, value_len: l1, value: v1 },
            PayloadModel::Store { key: k2, value_len: l2, value: v2 },
        ) => k1 == k2 && l1 == l2 && v1 == v2,
        (PayloadModel::FindValue { key: k1 }, PayloadModel::FindValue { key: k2 }) => k1 == k2,
        (
            PayloadModel::FoundValue { key: k1, value: v1, peers: p1 },
            PayloadModel::FoundValue { key: k2, value: v2, peers: p2 },
        ) => k1 == k2 && v1 == v2 && p1 == p2,
        _ => false,
    }
}

fn f64_bits_equal(a: u64, b: u64) -> (r: bool)
    ensures
        r == f64_bits_eq(a, b),
{
    let a_nan = (a & 0x7ff0_0000_0000_0000u64) == 0x7ff0_0000_0000_0000u64 && (a
        & 0x000f_ffff_ffff_ffffu64) != 0;
    let b_nan = (b & 0x7ff0_0000_0000_0000u64) == 0x7ff0_0000_0000_0000u64 && (b
        & 0x000f_ffff_ffff_ffffu64) != 0;
    !a_nan && !b_nan && (a == b || ((a & 0x7fff_ffff_ffff_ffffu64) == 0 && (b
        & 0x7fff_ffff_ffff_ffffu64) == 0))
}

/// `a` and `b` are the same peer: same id and same address.
pub fn same_peer_info(a: &PeerInfo, b: &PeerInfo) -> (r: bool)
    ensures
        r == (a@ == b@),
{
    same_bytes20(&a.id.0, &b.id.0) && same_address(&a.address, &b.address)
}

fn same_peers(a: &Vec<PeerInfo>, b: &Vec<PeerInfo>) -> (r: bool)
    ensures
        r == (peers_view(a@) == peers_view(b@)),
{
    if a.len() != b.len() {
        assert(peers_view(a@).len() != peers_view(b@).len());
        return false;
    }
    let n = a.len();
    let mut i: usize = 0;
    while i < n
        invariant
            n == a@.len(),
            n == b@.len(),
            i <= n,
            forall|j: int| 0 <= j < i ==> a@[j]@ == b@[j]@,
        decreases n - i,
    {
        if !same_peer_info(&a[i], &b[i]) {
            assert(peers_view(a@)[i as int] != peers_view(b@)[i as int]);
            return false;
        }
        i = i + 1;
    }
    assert(peers_view(a@) =~= peers_view(b@));
    true
}

fn same_byte_vecs(a: &Vec<u8>, b: &Vec<u8>) -> (r: bool)
    ensures
        r == (a@ == b@),
{
    if a.len() != b.len() {
        return false;
    }
    let n = a.len();
    let mut i: usize = 0;
    while i < n
        invariant
            n == a@.len(),
            n == b@.len(),
            i <= n,
            forall|j: int| 0 <= j < i ==> a@[j] == b@[j],
        decreases n - i,
    {
        if a[i] != b[i] {
            assert(a@[i as int] != b@[i as int]);
            return false;
        }
        i = i + 1;
    }
    assert(a@ =~= b@);
    true
}

impl PartialEq for FramePayload {
    fn eq(&self, other: &Self) -> (r: bool) {
        match (self, other) {
            (FramePayload::Ping { timestamp: t1 }, FramePayload::Ping { timestamp: t2 }) => *t1
                == *t2,
            (FramePayload::Pong { timestamp: t1 }, FramePayload::Pong { timestamp: t2 }) => *t1
                == *t2,
            (
                FramePayload::ThermodynamicPush { free_energy_bits: e1, pressure_bits: p1 },
                FramePayload::ThermodynamicPush { free_energy_bits: e2, pressure_bits: p2 },
            ) => f64_bits_equal(*e1, *e2) && f64_bits_equal(*p1, *p2),
            (
                FramePayload::GradientDiff { target_id: t1, coefficient_bits: c1, flow_bits: f1 },
                FramePayload::GradientDiff { target_id: t2, coefficient_bits: c2, flow_bits: f2 },
            ) => same_bytes20(&t1.0, &t2.0) && f64_bits_equal(*c1, *c2) && f64_bits_equal(*f1, *f2),
            (FramePayload::FindNode { target: t1 }, FramePayload::FindNode { target: t2 }) =>
                same_bytes20(&t1.0, &t2.0),
            (FramePayload::FoundNodes { peers: p1 }, FramePayload::FoundNodes { peers: p2 }) =>
                same_peers(p1, p2),
            (
                FramePayload::Store { key: k1, value_len: l1, value: v1 },
                FramePayload::Store { key: k2, value_len: l2, value: v2 },
            ) => same_bytes20(&k1.0, &k2.0) && *l1 == *l2 && same_byte_vecs(v1, v2),
            (FramePayload::FindValue { key: k1 }, FramePayload::FindValue { key: k2 }) =>
                same_bytes20(&k1.0, &k2.0),
            (
                FramePayload::FoundValue { key: k1, value: v1, peers: p1 },
                FramePayload::FoundValue { key: k2, value: v2, peers: p2 },
            ) => {
                let same_value = match (v1, v2) {
                    (Some(a), Some(b)) => same_byte_vecs(a, b),
                    (None, None) => true,
                    _ => false,
                };
                same_bytes20(&k1.0, &k2.0) && same_value && same_peers(p1, p2)
            },
            _ => false,
        }
    }
}

impl PartialEqSpecImpl for FramePayload {
    open spec fn obeys_eq_spec() -> bool {
        true
    }

    open spec fn eq_spec(&self, other: &FramePayload) -> bool {
        payload_eq_spec(self@, other@)
    }
}

/// Equality of payloads: payloads without floating-point fields are equal
/// exactly when they are the same value (the same variant with the same
/// fields, peer lists and byte strings element by element); payloads of
/// different variants are never equal; a GRAD_DIFF equals only a GRAD_DIFF
/// to the same target; a float field that holds a NaN makes a payload
/// unequal to every payload; `+0.0` and `-0.0` fields compare equal; and
/// equal non-NaN bits compare equal.
pub proof fn law_payload_equality(a: PayloadModel, b: PayloadModel)
    ensures
        !(a is ThermodynamicPush) && !(a is GradientDiff) ==> (payload_eq_spec(a, b) <==> a == b),
        payload_eq_spec(a, b) ==> type_byte(a) == type_byte(b),
        a is GradientDiff && payload_eq_spec(a, b) ==> b is GradientDiff
            && b->GradientDiff_target_id == a->GradientDiff_target_id,
        a is ThermodynamicPush && (a->ThermodynamicPush_free_energy_bits
            & 0x7ff0_0000_0000_0000u64) == 0x7ff0_0000_0000_0000u64
            && (a->ThermodynamicPush_free_energy_bits & 0x000f_ffff_ffff_ffffu64) != 0
            ==> !payload_eq_spec(a, b),
        a is ThermodynamicPush && b is ThermodynamicPush && a->ThermodynamicPush_free_energy_bits
            == 0 && b->ThermodynamicPush_free_energy_bits == 0x8000_0000_0000_0000u64
            && a->ThermodynamicPush_pressure_bits == b->ThermodynamicPush_pressure_bits
            && a->ThermodynamicPush_pressure_bits == 0 ==> payload_eq_spec(a, b),
        a is ThermodynamicPush && b == a && (a->ThermodynamicPush_free_energy_bits
            & 0x7ff0_0000_0000_0000u64) != 0x7ff0_0000_0000_0000u64
            && (a->ThermodynamicPush_pressure_bits & 0x7ff0_0000_0000_0000u64)
            != 0x7ff0_0000_0000_0000u64 ==> payload_eq_spec(a, b),
{
    if a is ThermodynamicPush && b is ThermodynamicPush {
        let e1 = a->ThermodynamicPush_free_energy_bits;
        let e2 = b->ThermodynamicPush_free_energy_bits;
        let p1 = a->ThermodynamicPush_pressure_bits;
        if e1 == 0 && e2 == 0x8000_0000_0000_0000u64 && p1 == 0 {
            assert((e2 & 0x7fff_ffff_ffff_ffffu64) == 0) by (bit_vector)
                requires
                    e2 == 0x8000_0000_0000_0000u64,
            ;
            assert((e1 & 0x7fff_ffff_ffff_ffffu64) == 0) by (bit_vector)
                requires
                    e1 == 0,
            ;
            assert(!is_nan_bits(e1)) by (bit_vector)
                requires
                    e1 == 0,
            ;
            assert(!is_nan_bits(e2)) by (bit_vector)
                requires
                    e2 == 0x8000_0000_0000_0000u64,
            ;
            assert(!is_nan_bits(p1)) by (bit_vector)
                requires
                    p1 == 0,
            ;
        }
    }
}

/// A big-endian unsigned number: the `n` bytes from `b[o]` on, most
/// significant first.
pub open spec fn big_endian(b: Seq<u8>, o: int, n: nat) -> int
    decreases n,
{
    if n == 0 {
        0
    } else {
        big_endian(b, o, (n - 1) as nat) * 256 + b[o + n - 1] as int
    }
}

proof fn lemma_big_endian_u64(b: Seq<u8>, o: int, x: u64)
    requires
        0 <= o,
        o + 8 <= b.len(),
        u64_written_at(b, o, x),
    ensures
        big_endian(b, o, 8) == x,
{
    reveal_with_fuel(big_endian, 9);
    let b0 = b[o];
    let b1 = b[o + 1];
    let b2 = b[o + 2];
    let b3 = b[o + 3];
    let b4 = b[o + 4];
    let b5 = b[o + 5];
    let b6 = b[o + 6];
    let b7 = b[o + 7];
    assert((((((((b0 as u64) * 256 + b1 as u64) * 256 + b2 as u64) * 256 + b3 as u64) * 256
        + b4 as u64) * 256 + b5 as u64) * 256 + b6 as u64) * 256 + b7 as u64 == x) by (bit_vector)
        requires
            b0 == (x >> 56u64) as u8,
            b1 == (x >> 48u64) as u8,
            b2 == (x >> 40u64) as u8,
            b3 == (x >> 32u64) as u8,
            b4 == (x >> 24u64) as u8,
            b5 == (x >> 16u64) as u8,
            b6 == (x >> 8u64) as u8,
            b7 == x as u8,
    ;
}

proof fn lemma_big_endian_u16(b: Seq<u8>, o: int, x: u16)
    requires
        0 <= o,
        o + 2 <= b.len(),
        u16_written_at(b, o, x),
    ensures
        big_endian(b, o, 2) == x,
{
    reveal_with_fuel(big_endian, 3);
    let b0 = b[o];
    let b1 = b[o + 1];
    assert((b0 as u16) * 256 + b1 as u16 == x) by (bit_vector)
        requires
            b0 == (x >> 8u16) as u8,
            b1 == x as u8,
    ;
}

/// The record of peer `p` at `b[o..o+27]`: its 20-byte id, the IPv4 family
/// byte 4, the four address bytes and the big-endian port.
pub open spec fn peer_record_at(b: Seq<u8>, o: int, p: PeerModel) -> bool {
    &&& b.subrange(o, o + 20) == p.id
    &&& b[o + 20] == 4
    &&& p.address is V4
    &&& b.subrange(o + 21, o + 25) == p.address->V4_ip
    &&& big_endian(b, o + 25, 2) == p.address->V4_port as int
}

proof fn lemma_peer_records(b: Seq<u8>, o: int, ps: Seq<PeerModel>)
    requires
        0 <= o,
        o + 27 * ps.len() <= b.len(),
        peers_wf(ps),
        all_v4(ps),
        peers_written_at(b, o, ps),
    ensures
        forall|i: int| 0 <= i < ps.len() ==> peer_record_at(b, o + 27 * i, #[trigger] ps[i]),
{
    assert forall|i: int| 0 <= i < ps.len() implies peer_record_at(b, o + 27 * i, #[trigger] ps[i]) by {
        let p = ps[i];
        let q = o + 27 * i;
        assert(is_v4(p));
        assert(peer_wf(p));
        assert forall|j: int| 0 <= j < 20 implies b.subrange(q, q + 20)[j] == p.id[j] by {
            assert(b[q + j] == peer_byte(p, j));
        }
        assert(b.subrange(q, q + 20) =~= p.id);
        assert(b[q + 20] == peer_byte(p, 20));
        match p.address {
            AddressModel::V4 { ip, port } => {
                assert forall|j: int| 0 <= j < 4 implies b.subrange(q + 21, q + 25)[j] == ip[j] by {
                    assert(b[q + 21 + j] == peer_byte(p, 21 + j));
                }
                assert(b.subrange(q + 21, q + 25) =~= ip);
                assert(b[q + 25] == peer_byte(p, 25));
                assert(b[q + 26] == peer_byte(p, 26));
                lemma_big_endian_u16(b, q + 25, port);
            },
            AddressModel::V6 { .. } => {},
        }
    }
}

/// The wire layout, byte by byte, of the encoding of a valid frame: the
/// magic bytes `SHVY`, the frame-type byte, the 20-byte sender, then the
/// payload fields at their fixed offsets, numbers big-endian.
pub proof fn law_wire_layout(b: Seq<u8>, f: FrameModel)
    requires
        frame_valid(f),
        starts_with_encoding(b, f),
    ensures
        b[0] == 0x53 && b[1] == 0x48 && b[2] == 0x56 && b[3] == 0x59,
        b.subrange(5, 25) == f.sender,
        match f.payload {
            PayloadModel::Ping { timestamp } => b[4] == 1 && big_endian(b, 25, 8) == timestamp
                && b.len() >= 33,
            PayloadModel::Pong { timestamp } => b[4] == 2 && big_endian(b, 25, 8) == timestamp
                && b.len() >= 33,
            PayloadModel::ThermodynamicPush { free_energy_bits, pressure_bits } => b[4] == 3
                && big_endian(b, 25, 8) == free_energy_bits && big_endian(b, 33, 8)
                == pressure_bits && b.len() >= 41,
            PayloadModel::GradientDiff { target_id, coefficient_bits, flow_bits } => b[4] == 4
                && b.subrange(25, 45) == target_id && big_endian(b, 45, 8) == coefficient_bits
                && big_endian(b, 53, 8) == flow_bits && b.len() >= 61,
            PayloadModel::FindNode { target } => b[4] == 5 && b.subrange(25, 45) == target
                && b.len() >= 45,
            PayloadModel::FoundNodes { peers } => {
                &&& b[4] == 6
                &&& b[25] == peers.len()
                &&& b.len() >= 26 + 27 * peers.len()
                &&& forall|i: int|
                    0 <= i < peers.len() ==> peer_record_at(b, 26 + 27 * i, #[trigger] peers[i])
            },
            PayloadModel::Store { key, value_len, value } => {
                &&& b[4] == 7
                &&& b.subrange(25, 45) == key
                &&& big_endian(b, 45, 2) == value_len
                &&& value_len == value.len()
                &&& b.subrange(47, 47 + value.len() as int) == value
            },
            PayloadModel::FindValue { key } => b[4] == 8 && b.subrange(25, 45) == key && b.len()
                >= 45,
            PayloadModel::FoundValue { key, value, peers } => {
                let vl: int = match value {
                    Some(v) => v.len() as int,
                    None => 0,
                };
                &&& b[4] == 9
                &&& b.subrange(25, 45) == key
                &&& b[45] == (if value is Some {
                    1u8
                } else {
                    0u8
                })
                &&& big_endian(b, 46, 2) == vl
                &&& (value matches Some(v) ==> b.subrange(48, 48 + v.len() as int) == v)
                &&& b[48 + vl] == peers.len()
                &&& b.len() >= 49 + vl + 27 * peers.len()
                &&& forall|i: int|
                    0 <= i < peers.len() ==> peer_record_at(
                        b,
                        49 + vl + 27 * i,
                        #[trigger] peers[i],
                    )
            },
        },
{
    match f.payload {
        PayloadModel::Ping { timestamp } => lemma_big_endian_u64(b, 25, timestamp),
        PayloadModel::Pong { timestamp } => lemma_big_endian_u64(b, 25, timestamp),
        PayloadModel::ThermodynamicPush { free_energy_bits, pressure_bits } => {
            lemma_big_endian_u64(b, 25, free_energy_bits);
            lemma_big_endian_u64(b, 33, pressure_bits);
        },
        PayloadModel::GradientDiff { coefficient_bits, flow_bits, .. } => {
            lemma_big_endian_u64(b, 45, coefficient_bits);
            lemma_big_endian_u64(b, 53, flow_bits);
        },
        PayloadModel::FoundNodes { peers } => lemma_peer_records(b, 26, peers),
        PayloadModel::Store { value_len, .. } => lemma_big_endian_u16(b, 45, value_len),
        PayloadModel::FoundValue { value, peers, .. } => {
            let vl = value_len_of(value);
            lemma_big_endian_u16(b, 46, vl as u16);
            lemma_peer_records(b, 49 + vl as int, peers);
        },
        _ => {},
    }
}

} // verus!
