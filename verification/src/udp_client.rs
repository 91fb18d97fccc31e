//! The client's end of a UDP tunnel: one local flow for each end user.
//!
//! A frame from the server carries the datagram of an end user. The first datagram of an end user
//! opens a flow, which may hold a source address of the tunnel's pool; the flow ends when it has
//! been idle for a while. The number of flows is bounded, since the addresses of end users can be
//! forged.

use crate::addr::{IpAddr, SocketAddr};
use crate::buffer::{be16_bytes, bytes_slice, copy_bytes};
use crate::buffer::{be, frozen_bytes, frozen_option, lemma_be_len};
use crate::diagnostics::{DiagnosticsView, LatencyBatch, PlainUdpDiagnostics};
use crate::diagnostics::{law_batch_is_exact, measured_us, Totals};
use crate::maps::{count_flows, get_flow, insert_flow, list_flows, new_flows, remove_flow};
use crate::maps::{flow_map, lists_flows, no_flows};
use crate::protocol::{
    decode_plain_udp, decode_udp, decode_udp_fragment_body, encode_plain_udp, encode_udp,
    PlainUdpKind, UDP_IDLE_TIMEOUT,
};
use crate::protocol::{
    law_packet_roundtrip, law_udp_frame_roundtrip, parsed_fragment, parsed_packet, parsed_udp,
    plain_packet, udp_frame, ProtocolError,
};
use crate::reassembly::PlainUdpReassembler;
use crate::reassembly::{expired, pushes, SetView};
use crate::source_pool::{SourcePoolState, UdpSourcePool};
use crate::source_pool::{law_pool_exhaustion, law_pool_reads_back, pool_addresses, selects};
use crate::udp::{
    encode_diag_ping_body, encode_plain_udp_data_packets, next_seq, record_diag_pong, PacketError,
};
use crate::udp::{
    all_bytes, data_packet_error, data_packets, pong_recorded, seq_after, seq_after_data,
};
use crate::udp_server::{packet_list, MAX_DATAGRAM};
use bytes::Bytes;
use dashmap::DashMap;
use std::collections::hash_map::RandomState;
use vstd::prelude::*;

verus! {

/// Bounded outbound queue of a UDP tunnel; when it is full, datagrams are dropped.
pub const OUTBOUND_QUEUE: usize = 1024;

/// Cap on concurrent end-user flows of a UDP tunnel. While at the cap, datagrams from new end
/// users are dropped.
pub const MAX_FLOWS: usize = 4096;

/// Milliseconds of inactivity after which a flow ends.
pub const UDP_IDLE_MS: u64 = UDP_IDLE_TIMEOUT * 1000;

// ---------------------------------------------------------------------------
// Traffic counters
// ---------------------------------------------------------------------------

/// The traffic of a tunnel.
#[derive(Clone, Copy, Debug, PartialEq, Eq, Structural)]
pub struct Counters {
    pub bytes_in: u64,
    pub bytes_out: u64,
    pub active: u32,
}

impl Default for Counters {
    fn default() -> (r: Counters)
        ensures
            r == (Counters { bytes_in: 0, bytes_out: 0, active: 0 }),
    {
        Counters { bytes_in: 0, bytes_out: 0, active: 0 }
    }
}

/// A counter after `n` more; counters wrap around.
pub open spec fn counted(counter: u64, n: nat) -> u64 {
    ((counter + n) % 0x1_0000_0000_0000_0000) as u64
}

impl Counters {
    /// Count bytes that went to the local service.
    pub fn add_in(&mut self, n: u64)
        ensures
            *final(self) == (Counters {
                bytes_in: counted(old(self).bytes_in, n as nat),
                ..*old(self)
            }),
    {
        self.bytes_in = self.bytes_in.wrapping_add(n);
    }

    /// Count bytes that came from the local service.
    pub fn add_out(&mut self, n: u64)
        ensures
            *final(self) == (Counters {
                bytes_out: counted(old(self).bytes_out, n as nat),
                ..*old(self)
            }),
    {
        self.bytes_out = self.bytes_out.wrapping_add(n);
    }

    /// A connection opened.
    pub fn opened(&mut self)
        ensures
            *final(self) == (Counters {
                active: ((old(self).active + 1) % 0x1_0000_0000) as u32,
                ..*old(self)
            }),
    {
        self.active = self.active.wrapping_add(1);
    }

    /// A connection closed.
    pub fn closed(&mut self)
        ensures
            *final(self) == (Counters {
                active: ((old(self).active + 0xffff_ffff) % 0x1_0000_0000) as u32,
                ..*old(self)
            }),
    {
        self.active = self.active.wrapping_add(0xffff_ffff);
    }
}

// ---------------------------------------------------------------------------
// Flows
// ---------------------------------------------------------------------------

/// An end user: the address family, the address and the port.
pub type FlowKey = (u8, u128, u16);

/// The flow of an end user.
#[derive(Clone, Copy, Debug, PartialEq, Eq, Structural)]
pub struct FlowEntry {
    /// The pooled source address that the flow holds.
    pub source_ip: Option<u32>,
    /// When a datagram last passed in either direction, in milliseconds.
    pub last_seen: u64,
}

/// The key of an endpoint.
pub open spec fn flow_key_of(addr: SocketAddr) -> FlowKey {
    match addr {
        SocketAddr::V4 { ip, port } => (4u8, ip as u128, port),
        SocketAddr::V6 { ip, port, .. } => (6u8, ip, port),
    }
}

/// The key of an endpoint.
pub fn flow_key(addr: SocketAddr) -> (r: FlowKey)
    ensures
        r == flow_key_of(addr),
{
    match addr {
        SocketAddr::V4 { ip, port } => (4u8, ip as u128, port),
        SocketAddr::V6 { ip, port, .. } => (6u8, ip, port),
    }
}

/// End users with different addresses or ports have different keys.
pub proof fn law_flow_keys_distinct(a: SocketAddr, b: SocketAddr)
    requires
        flow_key_of(a) == flow_key_of(b),
    ensures
        a.unscoped() == b.unscoped(),
{
}

// ---------------------------------------------------------------------------
// The flows of a channel: model
// ---------------------------------------------------------------------------

/// A flow whose socket is being opened.
#[derive(Clone, Copy, Debug, PartialEq, Eq)]
pub struct Opening {
    pub key: FlowKey,
    pub source_ip: Option<u32>,
    pub now: u64,
}

/// The flows of a channel.
#[verifier::ext_equal]
pub struct FlowsState {
    /// The local service.
    pub local: SocketAddr,
    /// The pool of source addresses, if they are pooled.
    pub pool: Option<UdpSourcePool>,
    pub flows: Map<FlowKey, FlowEntry>,
    pub opening: Option<Opening>,
    /// The source addresses in use.
    pub used: Set<u32>,
}

/// Whether a flow, or the flow being opened, holds the source address.
pub open spec fn holds(s: FlowsState, ip: u32) -> bool {
    ||| s.opening matches Some(o) && o.source_ip == Some(ip)
    ||| exists|key: FlowKey| #[trigger]
        s.flows.contains_key(key) && s.flows[key].source_ip == Some(ip)
}

impl FlowsState {
    /// The source addresses in use are those of the flows, no two flows share one, and the number
    /// of flows is bounded.
    pub open spec fn valid(self) -> bool {
        &&& self.flows.dom().finite()
        &&& self.flows.dom().len() <= MAX_FLOWS
        &&& forall|ip: u32| self.used.contains(ip) <==> #[trigger] holds(self, ip)
        &&& forall|a: FlowKey, b: FlowKey| #[trigger]
            self.flows.contains_key(a) && #[trigger] self.flows.contains_key(b) && a != b
                && self.flows[a].source_ip is Some ==> self.flows[a].source_ip
                != self.flows[b].source_ip
        &&& self.opening matches Some(o) ==> {
            &&& !self.flows.contains_key(o.key)
            &&& self.flows.dom().len() < MAX_FLOWS
            &&& o.source_ip is Some <==> self.pool is Some
            &&& o.source_ip is Some ==> forall|key: FlowKey| #[trigger]
                self.flows.contains_key(key) ==> self.flows[key].source_ip != o.source_ip
        }
        &&& forall|key: FlowKey| #[trigger]
            self.flows.contains_key(key) ==> (self.flows[key].source_ip is Some
                <==> self.pool is Some)
    }
}

/// The local address that the socket of a flow binds: its pooled source address, or any address
/// of the family of the local service.
pub open spec fn flow_bind_addr(local: SocketAddr, source_ip: Option<u32>) -> SocketAddr {
    match source_ip {
        Some(ip) => SocketAddr::V4 { ip, port: 0 },
        None => match local {
            SocketAddr::V4 { .. } => SocketAddr::V4 { ip: 0, port: 0 },
            SocketAddr::V6 { .. } => SocketAddr::V6 { ip: 0, port: 0, flowinfo: 0, scope_id: 0 },
        },
    }
}

/// What the datagram of an end user asks to do.
#[verifier::ext_equal]
pub enum FlowStep {
    /// Nothing.
    Ignore,
    /// Send it to the local service through the socket of the flow.
    Send { flow: FlowKey, data: Seq<u8> },
    /// Open a socket bound to `bind` for the flow, and send it through that socket.
    Open { flow: FlowKey, bind: SocketAddr, data: Seq<u8> },
}

/// The flows after the datagram of an end user that has a flow.
pub open spec fn seen(s: FlowsState, key: FlowKey, now: u64) -> FlowsState {
    FlowsState {
        flows: s.flows.insert(key, FlowEntry { last_seen: now, ..s.flows[key] }),
        ..s
    }
}

/// The datagram of an end user arrives.
pub open spec fn datagram_step(
    s: FlowsState,
    src: SocketAddr,
    data: Seq<u8>,
    now: u64,
    after: FlowsState,
    step: FlowStep,
) -> bool {
    let key = flow_key_of(src);
    if s.flows.contains_key(key) {
        after == seen(s, key, now) && step == (FlowStep::Send { flow: key, data })
    } else if s.flows.dom().len() >= MAX_FLOWS {
        after == s && step is Ignore
    } else {
        match s.pool {
            None => {
                &&& after == (FlowsState {
                    opening: Some(Opening { key, source_ip: None, now }),
                    ..s
                })
                &&& step == (FlowStep::Open {
                    flow: key,
                    bind: flow_bind_addr(s.local, None),
                    data,
                })
            },
            Some(pool) => if s.used == pool_addresses(pool) {
                after == s && step is Ignore
            } else {
                exists|ip: u32|
                    {
                        &&& #[trigger] selects(src, pool, s.used, Some(ip))
                        &&& after == (FlowsState {
                            opening: Some(Opening { key, source_ip: Some(ip), now }),
                            used: s.used.insert(ip),
                            ..s
                        })
                        &&& step == (FlowStep::Open {
                            flow: key,
                            bind: flow_bind_addr(s.local, Some(ip)),
                            data,
                        })
                    }
            },
        }
    }
}

/// The flows once the socket of the flow being opened is open.
pub open spec fn after_opened(s: FlowsState) -> FlowsState {
    let o = s.opening->0;
    FlowsState {
        flows: s.flows.insert(o.key, FlowEntry { source_ip: o.source_ip, last_seen: o.now }),
        opening: None,
        ..s
    }
}

/// The flows once the socket of the flow being opened could not be opened.
pub open spec fn after_open_failed(s: FlowsState) -> FlowsState {
    FlowsState {
        opening: None,
        used: match s.opening->0.source_ip {
            Some(ip) => s.used.remove(ip),
            None => s.used,
        },
        ..s
    }
}

/// The flows after the local service answered an end user.
pub open spec fn after_reply(s: FlowsState, src: SocketAddr, now: u64) -> FlowsState {
    if s.flows.contains_key(flow_key_of(src)) {
        seen(s, flow_key_of(src), now)
    } else {
        s
    }
}

/// The local service answers the end user `src`: the frame that takes the answer to the server.
pub open spec fn reply_step(
    s: FlowsState,
    counters: Counters,
    src: SocketAddr,
    data: Seq<u8>,
    now: u64,
    after: FlowsState,
    counters_after: Counters,
    frame: Seq<u8>,
) -> bool {
    &&& frame == udp_frame(src, data)
    &&& counters_after == (Counters {
        bytes_out: counted(counters.bytes_out, data.len()),
        ..counters
    })
    &&& after == after_reply(s, src, now)
}

/// Flows before the first datagram.
pub open spec fn fresh_flows(local: SocketAddr, pool: Option<UdpSourcePool>) -> FlowsState {
    FlowsState { local, pool, flows: no_flows(), opening: None, used: Set::empty() }
}

/// The flows that are idle at the time `now` end.
pub open spec fn reaps(s: FlowsState, now: u64, after: FlowsState, ended: Seq<FlowKey>) -> bool {
    &&& after.local == s.local
    &&& after.pool == s.pool
    &&& after.opening == s.opening
    &&& after.flows == live_flows(s.flows, now)
    &&& ended.no_duplicates()
    &&& forall|key: FlowKey|
        ended.contains(key) <==> #[trigger] s.flows.contains_key(key) && idle(s.flows[key], now)
}

/// A frame from the server arrives.
pub open spec fn frame_step(
    s: FlowsState,
    counters: Counters,
    frame: Seq<u8>,
    now: u64,
    after: FlowsState,
    counters_after: Counters,
    step: FlowStep,
) -> bool {
    match parsed_udp(frame) {
        Err(_) => after == s && counters_after == counters && step is Ignore,
        Ok((src, data)) => {
            &&& counters_after == (Counters {
                bytes_in: counted(counters.bytes_in, data.len()),
                ..counters
            })
            &&& datagram_step(s, src, data, now, after, step)
        },
    }
}

/// Whether a flow has been idle for too long.
pub open spec fn idle(entry: FlowEntry, now: u64) -> bool {
    now - entry.last_seen > UDP_IDLE_MS
}

/// The flows that stay when idle ones end.
pub open spec fn live_flows(flows: Map<FlowKey, FlowEntry>, now: u64) -> Map<FlowKey, FlowEntry> {
    Map::new(|key: FlowKey| flows.contains_key(key) && !idle(flows[key], now), |key: FlowKey|
        flows[key])
}

/// Two end users that have a flow at the same time never share a pooled source address.
pub proof fn law_flow_sources_distinct(s: FlowsState, a: FlowKey, b: FlowKey)
    requires
        s.valid(),
        s.pool is Some,
        s.flows.contains_key(a),
        s.flows.contains_key(b),
        a != b,
    ensures
        s.flows[a].source_ip is Some,
        s.flows[a].source_ip != s.flows[b].source_ip,
{
}

/// The key of an end user is the address and the port, and nothing else.
pub proof fn law_flow_key(a: SocketAddr, b: SocketAddr)
    ensures
        a.spec_ip() == b.spec_ip() && a.spec_port() == b.spec_port() <==> flow_key_of(a)
            == flow_key_of(b),
        flow_key_of(a) == flow_key_of(a.unscoped()),
        flow_key_of(a).2 == a.spec_port(),
{
}

/// The datagram of an end user goes to the local service through the flow of that end user, byte
/// for byte, with a source pool or without. The flow is opened if there is none yet. A datagram is
/// dropped only if it has no flow and none can be opened: there are too many, or the pool is
/// exhausted.
pub proof fn law_datagram_carried(
    s: FlowsState,
    src: SocketAddr,
    data: Seq<u8>,
    now: u64,
    after: FlowsState,
    step: FlowStep,
)
    requires
        datagram_step(s, src, data, now, after, step),
    ensures
        match step {
            FlowStep::Send { flow, data: sent } => {
                &&& flow == flow_key_of(src)
                &&& sent == data
                &&& s.flows.contains_key(flow)
            },
            FlowStep::Open { flow, data: sent, .. } => {
                &&& flow == flow_key_of(src)
                &&& sent == data
                &&& !s.flows.contains_key(flow)
                &&& s.flows.dom().len() < 4096
            },
            FlowStep::Ignore => {
                &&& after == s
                &&& !s.flows.contains_key(flow_key_of(src))
                &&& s.flows.dom().len() >= 4096 || (s.pool matches Some(pool) && s.used
                    == pool_addresses(pool))
            },
        },
        s.flows.contains_key(flow_key_of(src)) ==> step is Send,
        !s.flows.contains_key(flow_key_of(src)) && s.flows.dom().len() < 4096 && (
        s.pool matches Some(pool) ==> s.used != pool_addresses(pool)) ==> step is Open,
{
}

/// A flow that is opened binds an address of the tunnel's pool that no other flow holds, and holds
/// it from then on; without a pool it binds any address of the family of the local service. The
/// port is left to the system.
pub proof fn law_opened_flow_binds(
    s: FlowsState,
    src: SocketAddr,
    data: Seq<u8>,
    now: u64,
    after: FlowsState,
    step: FlowStep,
)
    requires
        datagram_step(s, src, data, now, after, step),
        s.pool matches Some(pool) ==> pool.wf() && s.used.subset_of(pool_addresses(pool)),
        step is Open,
    ensures
        step matches FlowStep::Open { flow, bind, .. } && after.opening matches Some(o) && {
            &&& o.key == flow
            &&& o.now == now
            &&& bind.spec_port() == 0
            &&& s.pool is None ==> {
                &&& o.source_ip is None
                &&& after.used == s.used
                &&& s.local is V4 ==> bind.spec_ip() == IpAddr::V4(0)
                &&& s.local is V6 ==> bind.spec_ip() == IpAddr::V6(0)
            }
            &&& s.pool matches Some(pool) ==> (o.source_ip matches Some(ip) && {
                &&& bind.spec_ip() == IpAddr::V4(ip)
                &&& pool.spec_base() <= ip < pool.spec_base() + pool.spec_size()
                &&& !s.used.contains(ip)
                &&& after.used == s.used.insert(ip)
            })
        },
        after.flows == s.flows,
        after.local == s.local,
        after.pool == s.pool,
{
    if let Some(pool) = s.pool {
        let ip = choose|ip: u32|
            {
                &&& #[trigger] selects(src, pool, s.used, Some(ip))
                &&& after == (FlowsState {
                    opening: Some(Opening { key: flow_key_of(src), source_ip: Some(ip), now }),
                    used: s.used.insert(ip),
                    ..s
                })
                &&& step == (FlowStep::Open {
                    flow: flow_key_of(src),
                    bind: flow_bind_addr(s.local, Some(ip)),
                    data,
                })
            };
        law_pool_exhaustion(src, pool, s.used, Some(ip));
    }
}

/// A datagram of an end user whose flow is open marks that flow as seen and changes nothing else;
/// so does an answer to that end user.
pub proof fn law_datagram_marks_flow(
    s: FlowsState,
    src: SocketAddr,
    data: Seq<u8>,
    now: u64,
    after: FlowsState,
    step: FlowStep,
    other: FlowKey,
)
    requires
        s.flows.contains_key(flow_key_of(src)),
        datagram_step(s, src, data, now, after, step) || after == after_reply(s, src, now),
    ensures
        after == (FlowsState { flows: after.flows, ..s }),
        after.flows.dom() == s.flows.dom(),
        after.flows[flow_key_of(src)].last_seen == now,
        after.flows[flow_key_of(src)].source_ip == s.flows[flow_key_of(src)].source_ip,
        other != flow_key_of(src) && s.flows.contains_key(other) ==> after.flows[other]
            == s.flows[other],
{
    assert(after.flows.dom() =~= s.flows.dom());
}

/// A flow whose socket was opened joins the others with the source address that was reserved for
/// it. One whose socket was not gives the address back. Either way no other flow changes, and an
/// end user without a flow is not given one by an answer.
pub proof fn law_opening_ends(s: FlowsState, key: FlowKey, src: SocketAddr, now: u64)
    requires
        s.opening is Some,
    ensures
        ({
            let after = after_opened(s);
            &&& after.opening is None
            &&& after.flows.contains_key(s.opening->0.key)
            &&& after.flows[s.opening->0.key].source_ip == s.opening->0.source_ip
            &&& after.flows[s.opening->0.key].last_seen == s.opening->0.now
            &&& key != s.opening->0.key ==> (after.flows.contains_key(key)
                <==> s.flows.contains_key(key)) && after.flows[key] == s.flows[key]
            &&& after.used == s.used
            &&& after.local == s.local
            &&& after.pool == s.pool
        }),
        ({
            let after = after_open_failed(s);
            &&& after.opening is None
            &&& after.flows == s.flows
            &&& s.opening->0.source_ip matches Some(ip) ==> after.used == s.used.remove(ip)
            &&& s.opening->0.source_ip is None ==> after.used == s.used
            &&& after.local == s.local
            &&& after.pool == s.pool
        }),
        !s.flows.contains_key(flow_key_of(src)) ==> after_reply(s, src, now) == s,
{
}

/// An end user whose flow was opened is served through that flow from then on, until it ends.
pub proof fn law_opened_flow_serves(
    s: FlowsState,
    src: SocketAddr,
    first: Seq<u8>,
    now: u64,
    opening: FlowsState,
    step: FlowStep,
    data: Seq<u8>,
    later: u64,
    after: FlowsState,
    next: FlowStep,
)
    requires
        datagram_step(s, src, first, now, opening, step),
        step is Open,
        datagram_step(after_opened(opening), src, data, later, after, next),
    ensures
        next == (FlowStep::Send { flow: flow_key_of(src), data }),
{
}

/// A flow ends when nothing has passed for more than a minute, and not before.
pub proof fn law_idle_flows_end(flows: Map<FlowKey, FlowEntry>, now: u64, key: FlowKey)
    ensures
        live_flows(flows, now).contains_key(key) <==> flows.contains_key(key) && now
            <= flows[key].last_seen + 60_000,
        live_flows(flows, now).contains_key(key) ==> live_flows(flows, now)[key] == flows[key],
{
}

/// A counter that is not full counts on.
pub proof fn law_counted(counter: u64, n: nat)
    ensures
        counter + n <= u64::MAX ==> counted(counter, n) == counter + n,
{
}

/// A frame of the server that holds a datagram counts its bytes and hands the datagram on; any
/// other frame changes nothing.
pub proof fn law_frame_counts(
    s: FlowsState,
    counters: Counters,
    frame: Seq<u8>,
    now: u64,
    after: FlowsState,
    counters_after: Counters,
    step: FlowStep,
)
    requires
        frame_step(s, counters, frame, now, after, counters_after, step),
    ensures
        parsed_udp(frame) is Err ==> step is Ignore && after == s && counters_after == counters,
        parsed_udp(frame) matches Ok((src, data)) ==> {
            &&& step matches FlowStep::Send { flow, data: sent } ==> flow == flow_key_of(src)
                && sent == data
            &&& step matches FlowStep::Open { flow, data: sent, .. } ==> flow == flow_key_of(src)
                && sent == data
            &&& counters.bytes_in + data.len() <= u64::MAX ==> counters_after.bytes_in
                == counters.bytes_in + data.len()
            &&& counters_after.bytes_out == counters.bytes_out
            &&& counters_after.active == counters.active
        },
{
    if let Ok((src, data)) = parsed_udp(frame) {
        law_datagram_carried(s, src, data, now, after, step);
    }
}

/// The first datagram of a channel opens a flow for its end user and goes through it as it is. The
/// flow binds an address of the tunnel's pool, if it has one.
pub proof fn law_first_datagram_opens(
    local: SocketAddr,
    pool: Option<UdpSourcePool>,
    src: SocketAddr,
    data: Seq<u8>,
    now: u64,
    after: FlowsState,
    step: FlowStep,
)
    requires
        pool matches Some(p) ==> p.wf(),
        datagram_step(fresh_flows(local, pool), src, data, now, after, step),
    ensures
        step matches FlowStep::Open { flow, bind, data: sent } && {
            &&& flow == flow_key_of(src)
            &&& sent == data
            &&& bind.spec_port() == 0
            &&& pool matches Some(p) ==> (bind.spec_ip() matches IpAddr::V4(ip) && p.spec_base()
                <= ip < p.spec_base() + p.spec_size())
            &&& pool is None ==> bind.spec_ip() == (if local is V4 {
                IpAddr::V4(0)
            } else {
                IpAddr::V6(0)
            })
        },
        after.local == local,
        after.pool == pool,
{
    let s = fresh_flows(local, pool);
    assert(s.flows.dom() =~= Set::empty());
    law_datagram_carried(s, src, data, now, after, step);
    if let Some(p) = pool {
        assert(pool_addresses(p).contains(p.spec_base())) by {
            law_pool_reads_back(p);
            vstd::arithmetic::power2::lemma_pow2_pos((32 - p.spec_prefix()) as nat);
            }
        assert(s.used != pool_addresses(p)) by {
            assert(!s.used.contains(p.spec_base()));
        }
    }
    law_opened_flow_binds(s, src, data, now, after, step);
}

/// The frame of an answer reads as that answer to that end user, and its bytes are counted as bytes
/// that came from the local service.
pub proof fn law_reply_framed(
    s: FlowsState,
    counters: Counters,
    src: SocketAddr,
    data: Seq<u8>,
    now: u64,
    after: FlowsState,
    counters_after: Counters,
    frame: Seq<u8>,
)
    requires
        reply_step(s, counters, src, data, now, after, counters_after, frame),
    ensures
        parsed_udp(frame) == Ok::<_, ProtocolError>((src.unscoped(), data)),
        counters.bytes_out + data.len() <= u64::MAX ==> counters_after.bytes_out
            == counters.bytes_out + data.len(),
        counters_after.bytes_in == counters.bytes_in,
        counters_after.active == counters.active,
        after.flows.dom() == s.flows.dom(),
        after.used == s.used,
        s.flows.contains_key(flow_key_of(src)) ==> after.flows[flow_key_of(src)].last_seen == now,
{
    law_udp_frame_roundtrip(src, data);
    assert(after.flows.dom() =~= s.flows.dom());
}

/// A flow that ends gives its source address back: no flow holds it any more, and it is free for
/// another end user. The flows that stay keep theirs.
pub proof fn law_ended_flow_frees_address(
    s: FlowsState,
    now: u64,
    after: FlowsState,
    ended: Seq<FlowKey>,
    key: FlowKey,
)
    requires
        s.valid(),
        s.opening is None,
        after.valid(),
        reaps(s, now, after, ended),
        s.flows.contains_key(key),
    ensures
        ended.contains(key) <==> now > s.flows[key].last_seen + 60_000,
        ended.contains(key) <==> !after.flows.contains_key(key),
        s.flows[key].source_ip matches Some(ip) ==> (after.used.contains(ip) <==> !ended.contains(
            key,
        )),
        !ended.contains(key) ==> after.flows[key] == s.flows[key],
{
    if let Some(ip) = s.flows[key].source_ip {
        if ended.contains(key) {
            if holds(after, ip) {
                let other = choose|k: FlowKey| #[trigger]
                    after.flows.contains_key(k) && after.flows[k].source_ip == Some(ip);
                assert(s.flows.contains_key(other));
            }
        } else {
            assert(after.flows.contains_key(key));
            assert(holds(after, ip));
        }
        assert(after.used.contains(ip) <==> holds(after, ip));
    }
}

// ---------------------------------------------------------------------------
// The flows of a channel
// ---------------------------------------------------------------------------

/// What the datagram of an end user asks to do.
pub enum FlowAction {
    Ignore,
    Send { flow: FlowKey, data: Bytes },
    Open { flow: FlowKey, bind: SocketAddr, data: Bytes },
}

impl View for FlowAction {
    type V = FlowStep;

    open spec fn view(&self) -> FlowStep {
        match self {
            FlowAction::Ignore => FlowStep::Ignore,
            FlowAction::Send { flow, data } => FlowStep::Send {
                flow: *flow,
                data: frozen_bytes(*data),
            },
            FlowAction::Open { flow, bind, data } => FlowStep::Open {
                flow: *flow,
                bind: *bind,
                data: frozen_bytes(*data),
            },
        }
    }
}

/// Whether a key is among the first `n` of a list.
spec fn listed_before(list: Seq<(FlowKey, FlowEntry)>, n: int, key: FlowKey) -> bool {
    exists|j: int| 0 <= j < n && (#[trigger] list[j]).0 == key
}

/// The flows of one data channel.
pub struct ClientFlows {
    local: SocketAddr,
    flows: DashMap<FlowKey, FlowEntry, RandomState>,
    pool: SourcePoolState,
    opening: Option<Opening>,
}

impl View for ClientFlows {
    type V = FlowsState;

    closed spec fn view(&self) -> FlowsState {
        FlowsState {
            local: self.local,
            pool: self.pool.spec_pool(),
            flows: flow_map(self.flows),
            opening: self.opening,
            used: self.pool.spec_used(),
        }
    }
}

impl ClientFlows {
    pub closed spec fn wf(&self) -> bool {
        self.pool.wf() && self@.valid()
    }

    /// Well-formed flows are valid, and their sources are addresses of the pool.
    pub proof fn law_flows_well_formed(&self)
        requires
            self.wf(),
        ensures
            self@.valid(),
            self@.pool matches Some(pool) ==> pool.wf() && self@.used.subset_of(
                pool_addresses(pool),
            ),
    {
    }

    /// No flows yet.
    pub fn new(local: SocketAddr, pool: Option<UdpSourcePool>) -> (r: ClientFlows)
        requires
            pool matches Some(p) ==> p.wf(),
        ensures
            r.wf(),
            r@ == fresh_flows(local, pool),
    {
        ClientFlows { local, flows: new_flows(), pool: SourcePoolState::new(pool), opening: None }
    }

    /// A frame from the server arrives at the time `now`, in milliseconds. A step that asks to
    /// open a socket is followed by [`ClientFlows::opened`] or [`ClientFlows::open_failed`].
    pub fn on_frame(&mut self, frame: &[u8], now: u64, counters: &mut Counters) -> (r: FlowAction)
        requires
            old(self).wf(),
            old(self)@.opening is None,
        ensures
            final(self).wf(),
            frame_step(
                old(self)@,
                *old(counters),
                frame@,
                now,
                final(self)@,
                *final(counters),
                r@,
            ),
            r is Open <==> final(self)@.opening is Some,
    {
        match decode_udp(frame) {
            Err(_) => FlowAction::Ignore,
            Ok((src, data)) => {
                counters.add_in(data.len() as u64);
                self.on_datagram(src, data, now)
            },
        }
    }

    fn on_datagram(&mut self, src: SocketAddr, data: &[u8], now: u64) -> (r: FlowAction)
        requires
            old(self).wf(),
            old(self)@.opening is None,
        ensures
            final(self).wf(),
            datagram_step(old(self)@, src, data@, now, final(self)@, r@),
            r is Open <==> final(self)@.opening is Some,
    {
        let key = flow_key(src);
        let ghost before = self@;
        match get_flow(&self.flows, key) {
            Some(entry) => {
                insert_flow(&mut self.flows, key, FlowEntry { last_seen: now, ..entry });
                proof {
                    lemma_seen(before, key, now);
                    assert(self@ =~= seen(before, key, now));
                }
                return FlowAction::Send { flow: key, data: copy_bytes(data) };
            },
            None => {},
        }
        if count_flows(&self.flows) >= MAX_FLOWS {
            return FlowAction::Ignore;
        }
        match self.pool.reserve(src) {
            None => FlowAction::Ignore,
            Some(source_ip) => {
                self.opening = Some(Opening { key, source_ip, now });
                let bind = bind_addr(self.local, source_ip);
                let action = FlowAction::Open { flow: key, bind, data: copy_bytes(data) };
                proof {
                    lemma_reserved(before, key, source_ip, now, self@);
                }
                action
            },
        }
    }

    /// The socket of the flow being opened is open.
    pub fn opened(&mut self)
        requires
            old(self).wf(),
            old(self)@.opening is Some,
        ensures
            final(self).wf(),
            final(self)@ == after_opened(old(self)@),
    {
        let ghost before = self@;
        match self.opening {
            Some(o) => {
                insert_flow(
                    &mut self.flows,
                    o.key,
                    FlowEntry { source_ip: o.source_ip, last_seen: o.now },
                );
                self.opening = None;
                proof {
                    lemma_opened(before, self@);
                }
            },
            None => {},
        }
    }

    /// The socket of the flow being opened could not be opened.
    pub fn open_failed(&mut self)
        requires
            old(self).wf(),
            old(self)@.opening is Some,
        ensures
            final(self).wf(),
            final(self)@ == after_open_failed(old(self)@),
    {
        let ghost before = self@;
        match self.opening {
            Some(o) => {
                self.pool.release(o.source_ip);
                self.opening = None;
                proof {
                    lemma_open_failed(before, self@);
                }
            },
            None => {},
        }
    }

    /// The local service answers an end user; the frame that takes the answer to the server.
    pub fn on_reply(
        &mut self,
        src: SocketAddr,
        data: &[u8],
        now: u64,
        counters: &mut Counters,
    ) -> (r: Bytes)
        requires
            old(self).wf(),
            data@.len() <= MAX_DATAGRAM,
        ensures
            final(self).wf(),
            reply_step(
                old(self)@,
                *old(counters),
                src,
                data@,
                now,
                final(self)@,
                *final(counters),
                frozen_bytes(r),
            ),
    {
        let key = flow_key(src);
        let ghost before = self@;
        match get_flow(&self.flows, key) {
            Some(entry) => {
                insert_flow(&mut self.flows, key, FlowEntry { last_seen: now, ..entry });
                proof {
                    lemma_seen(before, key, now);
                    assert(self@ =~= seen(before, key, now));
                }
            },
            None => {},
        }
        counters.add_out(data.len() as u64);
        encode_udp(src, data)
    }
}

impl ClientFlows {
    /// End the flows that are idle at the time `now`, in milliseconds. The keys of the flows that
    /// ended come back, in an order that is left open.
    pub fn reap(&mut self, now: u64) -> (r: Vec<FlowKey>)
        requires
            old(self).wf(),
        ensures
            final(self).wf(),
            reaps(old(self)@, now, final(self)@, r@),
    {
        let ghost before = self@;
        let list = list_flows(&self.flows);
        let ghost all = list@;
        let mut ended: Vec<FlowKey> = Vec::new();
        let mut i: usize = 0;
        while i < list.len()
            invariant
                self.wf(),
                all == list@,
                lists_flows(before.flows, all),
                i <= list@.len(),
                self@.local == before.local,
                self@.pool == before.pool,
                self@.opening == before.opening,
                forall|key: FlowKey| #[trigger]
                    self@.flows.contains_key(key) <==> before.flows.contains_key(key)
                        && !ended@.contains(key),
                forall|key: FlowKey| #[trigger]
                    self@.flows.contains_key(key) ==> self@.flows[key] == before.flows[key],
                ended@.no_duplicates(),
                forall|key: FlowKey| #[trigger]
                    ended@.contains(key) ==> before.flows.contains_key(key) && idle(
                        before.flows[key],
                        now,
                    ) && listed_before(all, i as int, key),
                forall|j: int|
                    0 <= j < i && idle((#[trigger] all[j]).1, now) ==> ended@.contains(all[j].0),
            decreases list@.len() - i,
        {
            let (key, entry) = list[i];
            let ghost current = self@;
            let ghost done = ended@;
            assert(before.flows.contains_key(all[i as int].0));
            assert(!done.contains(key)) by {
                if done.contains(key) {
                    let j = choose|j: int| 0 <= j < i && (#[trigger] all[j]).0 == key;
                    assert(all[j].0 != all[i as int].0);
                }
            }
            assert(current.flows.contains_key(key));
            if now.saturating_sub(entry.last_seen) > UDP_IDLE_MS {
                match remove_flow(&mut self.flows, key) {
                    Some(entry) => {
                        self.pool.release(entry.source_ip);
                    },
                    None => {},
                }
                ended.push(key);
                proof {
                    lemma_ended(current, key, self@);
                    assert(ended@[done.len() as int] == key);
                    assert forall|k: FlowKey| ended@.contains(k) <==> done.contains(k) || k
                        == key by {
                        if done.contains(k) {
                            let j = choose|j: int| 0 <= j < done.len() && done[j] == k;
                            assert(ended@[j] == k);
                        }
                        if ended@.contains(k) && k != key {
                            let j = choose|j: int| 0 <= j < ended@.len() && ended@[j] == k;
                            assert(done[j] == k);
                        }
                    }
                    assert(idle(before.flows[key], now));
                    assert forall|k: FlowKey| #[trigger]
                        ended@.contains(k) implies before.flows.contains_key(k) && idle(
                        before.flows[k],
                        now,
                    ) && listed_before(all, i + 1, k) by {
                        if k == key {
                            assert(all[i as int].0 == k);
                        } else {
                            assert(done.contains(k));
                            let j = choose|j: int| 0 <= j < i && (#[trigger] all[j]).0 == k;
                            assert(all[j].0 == k);
                        }
                    }
                }
            } else {
                proof {
                    assert forall|k: FlowKey| #[trigger] ended@.contains(k) implies listed_before(
                        all,
                        i + 1,
                        k,
                    ) by {
                        let j = choose|j: int| 0 <= j < i && (#[trigger] all[j]).0 == k;
                        assert(all[j].0 == k);
                    }
                }
            }
            i += 1;
        }
        proof {
            assert forall|key: FlowKey|
                ended@.contains(key) <==> #[trigger] before.flows.contains_key(key) && idle(
                    before.flows[key],
                    now,
                ) by {
                if before.flows.contains_key(key) && idle(before.flows[key], now) {
                    let j = choose|j: int| 0 <= j < all.len() && (#[trigger] all[j]).0 == key;
                    assert(all[j].1 == before.flows[key]);
                }
            }
            assert(self@.flows =~= live_flows(before.flows, now));
        }
        ended
    }
}

/// The local address that the socket of a flow binds.
fn bind_addr(local: SocketAddr, source_ip: Option<u32>) -> (r: SocketAddr)
    ensures
        r == flow_bind_addr(local, source_ip),
{
    match source_ip {
        Some(ip) => SocketAddr::new(IpAddr::V4(ip), 0),
        None => {
            if local.is_ipv4() {
                SocketAddr::new(IpAddr::V4(0), 0)
            } else {
                SocketAddr::new(IpAddr::V6(0), 0)
            }
        },
    }
}

proof fn lemma_seen(s: FlowsState, key: FlowKey, now: u64)
    requires
        s.valid(),
        s.flows.contains_key(key),
    ensures
        seen(s, key, now).valid(),
{
    let after = seen(s, key, now);
    assert(after.flows.dom() =~= s.flows.dom());
    assert forall|ip: u32| after.used.contains(ip) <==> #[trigger] holds(after, ip) by {
        assert(holds(s, ip) <==> s.used.contains(ip));
        if holds(s, ip) && !(s.opening matches Some(o) && o.source_ip == Some(ip)) {
            let k = choose|k: FlowKey| #[trigger]
                s.flows.contains_key(k) && s.flows[k].source_ip == Some(ip);
            assert(after.flows.contains_key(k) && after.flows[k].source_ip == Some(ip));
        }
        if holds(after, ip) && !(after.opening matches Some(o) && o.source_ip == Some(ip)) {
            let k = choose|k: FlowKey| #[trigger]
                after.flows.contains_key(k) && after.flows[k].source_ip == Some(ip);
            assert(s.flows.contains_key(k) && s.flows[k].source_ip == Some(ip));
        }
    }
    assert forall|a: FlowKey, b: FlowKey| #[trigger]
        after.flows.contains_key(a) && #[trigger] after.flows.contains_key(b) && a != b
            && after.flows[a].source_ip is Some implies after.flows[a].source_ip
        != after.flows[b].source_ip by {
        assert(s.flows.contains_key(a) && s.flows.contains_key(b));
    }
    assert forall|k: FlowKey| #[trigger] after.flows.contains_key(k) implies (
    after.flows[k].source_ip is Some <==> after.pool is Some) by {
        assert(s.flows.contains_key(k));
    }
    if after.opening is Some {
        let o = after.opening->0;
        assert forall|k: FlowKey| #[trigger]
            after.flows.contains_key(k) && o.source_ip is Some implies after.flows[k].source_ip
            != o.source_ip by {
            assert(s.flows.contains_key(k));
        }
    }
}

proof fn lemma_reserved(
    s: FlowsState,
    key: FlowKey,
    source_ip: Option<u32>,
    now: u64,
    after: FlowsState,
)
    requires
        s.valid(),
        s.opening is None,
        !s.flows.contains_key(key),
        s.flows.dom().len() < MAX_FLOWS,
        source_ip is Some <==> s.pool is Some,
        source_ip matches Some(ip) ==> !s.used.contains(ip) && after.used == s.used.insert(ip),
        source_ip is None ==> after.used == s.used,
        after == (FlowsState {
            opening: Some(Opening { key, source_ip, now }),
            used: after.used,
            ..s
        }),
    ensures
        after.valid(),
{
    assert forall|ip: u32| after.used.contains(ip) <==> #[trigger] holds(after, ip) by {
        assert(holds(s, ip) <==> s.used.contains(ip));
        if holds(s, ip) {
            let k = choose|k: FlowKey| #[trigger]
                s.flows.contains_key(k) && s.flows[k].source_ip == Some(ip);
            assert(after.flows.contains_key(k));
        }
    }
    if source_ip is Some {
        assert forall|k: FlowKey| #[trigger] after.flows.contains_key(k) implies after.flows[k].source_ip
            != source_ip by {
            if s.flows[k].source_ip == source_ip {
                assert(s.flows.contains_key(k));
                assert(holds(s, source_ip->0));
            }
        }
    }
}

proof fn lemma_opened(s: FlowsState, after: FlowsState)
    requires
        s.valid(),
        s.opening is Some,
        after == ({
            let o = s.opening->0;
            FlowsState {
                flows: s.flows.insert(
                    o.key,
                    FlowEntry { source_ip: o.source_ip, last_seen: o.now },
                ),
                opening: None,
                ..s
            }
        }),
    ensures
        after.valid(),
{
    let o = s.opening->0;
    assert(after.flows.dom() =~= s.flows.dom().insert(o.key));
    assert(after.flows.contains_key(o.key));
    assert forall|ip: u32| after.used.contains(ip) <==> #[trigger] holds(after, ip) by {
        assert(holds(s, ip) <==> s.used.contains(ip));
        if holds(s, ip) && o.source_ip != Some(ip) {
            let k = choose|k: FlowKey| #[trigger]
                s.flows.contains_key(k) && s.flows[k].source_ip == Some(ip);
            assert(after.flows.contains_key(k) && after.flows[k].source_ip == Some(ip));
        }
        if holds(after, ip) {
            let k = choose|k: FlowKey| #[trigger]
                after.flows.contains_key(k) && after.flows[k].source_ip == Some(ip);
            if k != o.key {
                assert(s.flows.contains_key(k) && s.flows[k].source_ip == Some(ip));
            }
        }
    }
    assert forall|a: FlowKey, b: FlowKey| #[trigger]
        after.flows.contains_key(a) && #[trigger] after.flows.contains_key(b) && a != b
            && after.flows[a].source_ip is Some implies after.flows[a].source_ip
        != after.flows[b].source_ip by {
        assert(a != o.key ==> s.flows.contains_key(a));
        assert(b != o.key ==> s.flows.contains_key(b));
    }
    assert forall|k: FlowKey| #[trigger] after.flows.contains_key(k) implies (
    after.flows[k].source_ip is Some <==> after.pool is Some) by {
        assert(k != o.key ==> s.flows.contains_key(k));
    }
}

proof fn lemma_ended(s: FlowsState, key: FlowKey, after: FlowsState)
    requires
        s.valid(),
        s.flows.contains_key(key),
        after == (FlowsState {
            flows: s.flows.remove(key),
            used: match s.flows[key].source_ip {
                Some(ip) => s.used.remove(ip),
                None => s.used,
            },
            ..s
        }),
    ensures
        after.valid(),
{
    assert(after.flows.dom() =~= s.flows.dom().remove(key));
    assert forall|ip: u32| after.used.contains(ip) <==> #[trigger] holds(after, ip) by {
        assert(holds(s, ip) <==> s.used.contains(ip));
        if after.used.contains(ip) && !(s.opening matches Some(o) && o.source_ip == Some(ip)) {
            let k = choose|k: FlowKey| #[trigger]
                s.flows.contains_key(k) && s.flows[k].source_ip == Some(ip);
            assert(k != key);
            assert(after.flows.contains_key(k));
        }
        if holds(after, ip) {
            if !(after.opening matches Some(o) && o.source_ip == Some(ip)) {
                let k = choose|k: FlowKey| #[trigger]
                    after.flows.contains_key(k) && after.flows[k].source_ip == Some(ip);
                assert(s.flows.contains_key(k));
            }
            assert(s.flows.contains_key(key));
        }
    }
    assert forall|a: FlowKey, b: FlowKey| #[trigger]
        after.flows.contains_key(a) && #[trigger] after.flows.contains_key(b) && a != b
            && after.flows[a].source_ip is Some implies after.flows[a].source_ip
        != after.flows[b].source_ip by {
        assert(s.flows.contains_key(a) && s.flows.contains_key(b));
    }
    assert forall|k: FlowKey| #[trigger] after.flows.contains_key(k) implies (
    after.flows[k].source_ip is Some <==> after.pool is Some) by {
        assert(s.flows.contains_key(k));
    }
    if after.opening is Some {
        let o = after.opening->0;
        assert forall|k: FlowKey| #[trigger]
            after.flows.contains_key(k) && o.source_ip is Some implies after.flows[k].source_ip
            != o.source_ip by {
            assert(s.flows.contains_key(k));
        }
    }
}

proof fn lemma_open_failed(s: FlowsState, after: FlowsState)
    requires
        s.valid(),
        s.opening is Some,
        after == ({
            let o = s.opening->0;
            FlowsState {
                opening: None,
                used: match o.source_ip {
                    Some(ip) => s.used.remove(ip),
                    None => s.used,
                },
                ..s
            }
        }),
    ensures
        after.valid(),
{
    let o = s.opening->0;
    assert forall|ip: u32| after.used.contains(ip) <==> #[trigger] holds(after, ip) by {
        assert(holds(s, ip) <==> s.used.contains(ip));
        if holds(s, ip) && o.source_ip != Some(ip) {
            let k = choose|k: FlowKey| #[trigger]
                s.flows.contains_key(k) && s.flows[k].source_ip == Some(ip);
            assert(after.flows.contains_key(k));
        }
        if holds(after, ip) {
            let k = choose|k: FlowKey| #[trigger]
                after.flows.contains_key(k) && after.flows[k].source_ip == Some(ip);
            assert(s.flows.contains_key(k));
        }
    }
}

// ---------------------------------------------------------------------------
// Plaintext channels: what arrives from the server
// ---------------------------------------------------------------------------

/// What a plaintext UDP channel needs to know.
#[derive(Clone, Copy)]
pub struct PlainUdpSettings {
    pub token: u128,
    pub key: [u8; 32],
    pub udp_mtu: u16,
    pub source_pool: Option<UdpSourcePool>,
}

/// The state of the receiving side of a plaintext channel.
#[verifier::ext_equal]
pub struct ChannelState {
    pub flows: FlowsState,
    pub sets: Map<u64, SetView>,
    /// The latencies measured since they were last merged into the diagnostics.
    pub new_server_to_local: Totals,
}

/// A channel before the first packet.
pub open spec fn fresh_channel(local: SocketAddr, pool: Option<UdpSourcePool>) -> ChannelState {
    ChannelState {
        flows: fresh_flows(local, pool),
        sets: Map::empty(),
        new_server_to_local: Totals::zero(),
    }
}

/// What a packet changes besides the flows and the fragments.
#[verifier::ext_equal]
pub struct ChannelTotals {
    pub counters: Counters,
    pub diagnostics: DiagnosticsView,
}

/// Merge new latencies into the diagnostics.
pub open spec fn flushed(d: DiagnosticsView, new_server_to_local: Totals) -> DiagnosticsView {
    DiagnosticsView {
        client_server_to_local: d.client_server_to_local.merged(new_server_to_local),
        ..d
    }
}

/// An encapsulated datagram from the server is complete.
pub open spec fn delivers(
    s: ChannelState,
    t: ChannelTotals,
    frame: Seq<u8>,
    now: u64,
    after: ChannelState,
    t_after: ChannelTotals,
    step: FlowStep,
) -> bool {
    &&& frame_step(
        s.flows,
        t.counters,
        frame,
        now / 1_000_000,
        after.flows,
        t_after.counters,
        step,
    )
    &&& after.new_server_to_local == s.new_server_to_local
    &&& t_after.diagnostics == t.diagnostics
}

/// Nothing happens.
pub open spec fn ignores(
    s: ChannelState,
    t: ChannelTotals,
    after: ChannelState,
    t_after: ChannelTotals,
    step: FlowStep,
) -> bool {
    after == s && t_after == t && step is Ignore
}

/// The body of a fragment from the server.
pub open spec fn channel_fragment_step(
    s: ChannelState,
    t: ChannelTotals,
    body: Seq<u8>,
    now: u64,
    after: ChannelState,
    t_after: ChannelTotals,
    step: FlowStep,
) -> bool {
    match parsed_fragment(body) {
        Err(_) => ignores(s, t, after, t_after, step),
        Ok(f) => exists|out: Option<Seq<u8>>| #[trigger]
            pushes(s.sets, f, now, after.sets, out) && (match out {
                None => ignores(ChannelState { sets: after.sets, ..s }, t, after, t_after, step),
                Some(frame) => delivers(s, t, frame, now, after, t_after, step),
            }),
    }
}

/// A packet from the server arrives at the time `now`, in nanoseconds.
pub open spec fn channel_step(
    key: Seq<u8>,
    s: ChannelState,
    t: ChannelTotals,
    packet: Seq<u8>,
    now: u64,
    after: ChannelState,
    t_after: ChannelTotals,
    step: FlowStep,
) -> bool {
    match parsed_packet(packet, key) {
        Ok((PlainUdpKind::Data, _, body)) => {
            &&& delivers(s, t, body, now, after, t_after, step)
            &&& after.sets == s.sets
        },
        Ok((PlainUdpKind::Fragment, _, body)) => channel_fragment_step(
            s,
            t,
            body,
            now,
            after,
            t_after,
            step,
        ),
        Ok((PlainUdpKind::DiagPong, _, body)) => {
            &&& after == (ChannelState { new_server_to_local: Totals::zero(), ..s })
            &&& t_after == (ChannelTotals {
                diagnostics: pong_recorded(
                    flushed(t.diagnostics, s.new_server_to_local),
                    body,
                    now / 1000,
                ),
                ..t
            })
            &&& step is Ignore
        },
        _ => ignores(s, t, after, t_after, step),
    }
}

/// The receiving side of a plaintext channel. Its clock counts nanoseconds since the channel was
/// opened.
pub struct PlainChannel {
    key: [u8; 32],
    flows: ClientFlows,
    reassembly: PlainUdpReassembler,
    server_to_local: LatencyBatch,
}

impl View for PlainChannel {
    type V = ChannelState;

    closed spec fn view(&self) -> ChannelState {
        ChannelState {
            flows: self.flows@,
            sets: self.reassembly@,
            new_server_to_local: self.server_to_local@,
        }
    }
}

impl PlainChannel {
    /// The key of the channel.
    pub closed spec fn spec_key(&self) -> Seq<u8> {
        self.key@
    }

    pub closed spec fn wf(&self) -> bool {
        self.flows.wf() && self.reassembly.wf()
    }

    /// A channel without flows.
    pub fn new(local: SocketAddr, settings: PlainUdpSettings) -> (r: PlainChannel)
        requires
            settings.source_pool matches Some(p) ==> p.wf(),
        ensures
            r.wf(),
            r.spec_key() == settings.key@,
            r@ == fresh_channel(local, settings.source_pool),
    {
        PlainChannel {
            key: settings.key,
            flows: ClientFlows::new(local, settings.source_pool),
            reassembly: PlainUdpReassembler::new(),
            server_to_local: LatencyBatch::default(),
        }
    }

    /// The flow being opened, if there is one.
    pub open spec fn opening(&self) -> Option<Opening> {
        self@.flows.opening
    }

    /// A packet from the server arrives at the time `now`. A step that asks to open a socket is
    /// followed by [`ClientFlows::opened`] or [`ClientFlows::open_failed`] on the flows.
    pub fn on_packet(
        &mut self,
        packet: &[u8],
        now: u64,
        counters: &mut Counters,
        diagnostics: &mut PlainUdpDiagnostics,
    ) -> (r: FlowAction)
        requires
            old(self).wf(),
            old(self).opening() is None,
        ensures
            final(self).wf(),
            final(self).spec_key() == old(self).spec_key(),
            channel_step(
                old(self).spec_key(),
                old(self)@,
                ChannelTotals { counters: *old(counters), diagnostics: old(diagnostics)@ },
                packet@,
                now,
                final(self)@,
                ChannelTotals { counters: *final(counters), diagnostics: final(diagnostics)@ },
                r@,
            ),
            r is Open <==> final(self).opening() is Some,
    {
        match decode_plain_udp(packet, &self.key) {
            Ok((PlainUdpKind::Data, _, body)) => {
                self.flows.on_frame(body, now / 1_000_000, counters)
            },
            Ok((PlainUdpKind::Fragment, _, body)) => {
                let action = self.on_fragment(body, now, counters, Ghost(diagnostics@));
                action
            },
            Ok((PlainUdpKind::DiagPong, _, body)) => {
                self.flush(diagnostics);
                record_diag_pong(body, now / 1000, diagnostics);
                FlowAction::Ignore
            },
            _ => FlowAction::Ignore,
        }
    }

    fn on_fragment(
        &mut self,
        body: &[u8],
        now: u64,
        counters: &mut Counters,
        Ghost(d): Ghost<DiagnosticsView>,
    ) -> (r: FlowAction)
        requires
            old(self).wf(),
            old(self).opening() is None,
        ensures
            final(self).wf(),
            final(self).spec_key() == old(self).spec_key(),
            channel_fragment_step(
                old(self)@,
                ChannelTotals { counters: *old(counters), diagnostics: d },
                body@,
                now,
                final(self)@,
                ChannelTotals { counters: *final(counters), diagnostics: d },
                r@,
            ),
            r is Open <==> final(self).opening() is Some,
    {
        match decode_udp_fragment_body(body) {
            Err(_) => FlowAction::Ignore,
            Ok(fragment) => {
                let ghost before = self@;
                let ghost t = ChannelTotals { counters: *counters, diagnostics: d };
                let pushed = self.reassembly.push(fragment, now);
                let ghost out = frozen_option(pushed);
                let action = match pushed {
                    None => FlowAction::Ignore,
                    Some(frame) => self.flows.on_frame(
                        bytes_slice(&frame),
                        now / 1_000_000,
                        counters,
                    ),
                };
                proof {
                    let f = parsed_fragment(body@)->Ok_0;
                    let t_after = ChannelTotals { counters: *counters, diagnostics: d };
                    assert(pushes(before.sets, f, now, self@.sets, out));
                    match out {
                        None => {
                            assert(self@ =~= ChannelState { sets: self@.sets, ..before });
                            assert(ignores(
                                ChannelState { sets: self@.sets, ..before },
                                t,
                                self@,
                                t_after,
                                action@,
                            ));
                        },
                        Some(frame) => {
                            assert(delivers(before, t, frame, now, self@, t_after, action@));
                        },
                    }
                    assert(pushes(before.sets, f, now, self@.sets, out) && (match out {
                        None => ignores(
                            ChannelState { sets: self@.sets, ..before },
                            t,
                            self@,
                            t_after,
                            action@,
                        ),
                        Some(frame) => delivers(before, t, frame, now, self@, t_after, action@),
                    }));
                }
                action
            },
        }
    }

    /// Merge the new latencies into the diagnostics.
    pub fn flush(&mut self, diagnostics: &mut PlainUdpDiagnostics)
        requires
            old(self).wf(),
        ensures
            final(self).wf(),
            final(self).spec_key() == old(self).spec_key(),
            final(self)@ == (ChannelState {
                new_server_to_local: Totals::zero(),
                ..old(self)@
            }),
            final(diagnostics)@ == flushed(old(diagnostics)@, old(self)@.new_server_to_local),
    {
        diagnostics.client_server_to_local.record_batch(&mut self.server_to_local);
    }

    /// A datagram was sent to the local service, `elapsed_us` microseconds after it had arrived.
    pub fn sent_to_local(&mut self, elapsed_us: u128)
        requires
            old(self).wf(),
        ensures
            final(self).wf(),
            final(self).spec_key() == old(self).spec_key(),
            final(self)@ == (ChannelState {
                new_server_to_local: old(self)@.new_server_to_local.with(
                    measured_us(elapsed_us),
                ),
                ..old(self)@
            }),
    {
        self.server_to_local.record(elapsed_us);
    }

    /// Drop the fragments of datagrams that have been incomplete for too long.
    pub fn prune(&mut self, now: u64)
        requires
            old(self).wf(),
        ensures
            final(self).wf(),
            final(self).spec_key() == old(self).spec_key(),
            final(self)@ == (ChannelState { sets: final(self)@.sets, ..old(self)@ }),
            forall|id: u64| #[trigger]
                final(self)@.sets.contains_key(id) <==> old(self)@.sets.contains_key(id)
                    && !expired(old(self)@.sets[id], now),
            forall|id: u64| #[trigger]
                final(self)@.sets.contains_key(id) ==> final(self)@.sets[id]
                    == old(self)@.sets[id],
    {
        self.reassembly.prune_expired(now);
    }

    /// The flows of the channel.
    pub fn flows_mut(&mut self) -> (r: &mut ClientFlows)
        requires
            old(self).wf(),
        ensures
            r@ == old(self)@.flows,
            r.wf(),
            final(r).wf() ==> final(self).wf(),
            final(self).spec_key() == old(self).spec_key(),
            final(self)@ == (ChannelState { flows: final(r)@, ..old(self)@ }),
    {
        &mut self.flows
    }
}

// ---------------------------------------------------------------------------
// Plaintext channels: what goes to the server
// ---------------------------------------------------------------------------

/// The packet that makes the endpoint of a channel known to the server.
pub open spec fn hello_packet(token: u128, key: Seq<u8>, seq: u64) -> Seq<u8> {
    plain_packet(PlainUdpKind::Hello, seq, be(token as nat, 16), key)
}

/// The packet that keeps address translations on the way alive.
pub open spec fn keepalive_packet(key: Seq<u8>, seq: u64) -> Seq<u8> {
    plain_packet(PlainUdpKind::Keepalive, seq, Seq::<u8>::empty(), key)
}

/// A ping sent at `now_us`, in microseconds.
pub open spec fn ping_packet(now_us: u64, key: Seq<u8>, seq: u64) -> Seq<u8> {
    plain_packet(PlainUdpKind::DiagPing, seq, be(now_us as nat, 8), key)
}

/// The bytes of packets, if there are any.
pub open spec fn packets_view(r: Result<Vec<Bytes>, PacketError>) -> Result<
    Seq<Seq<u8>>,
    PacketError,
> {
    match r {
        Ok(packets) => Ok(all_bytes(packets@)),
        Err(e) => Err(e),
    }
}

/// The packets that carry a frame to the server, numbered from `seq` on, and the number after them.
pub open spec fn writes(
    key: Seq<u8>,
    mtu: u16,
    seq: u64,
    frame: Seq<u8>,
    r: Result<Seq<Seq<u8>>, PacketError>,
    seq_next: u64,
) -> bool {
    match r {
        Ok(packets) => {
            &&& data_packet_error(frame.len(), mtu) is None
            &&& packets == data_packets(frame, key, mtu, seq)
            &&& seq_next == seq_after_data(frame.len(), mtu, seq)
        },
        Err(e) => data_packet_error(frame.len(), mtu) == Some(e) && seq_next == seq,
    }
}

/// The sending side of a plaintext channel.
pub struct PlainWriter {
    token: u128,
    key: [u8; 32],
    udp_mtu: u16,
    seq: u64,
}

impl PlainWriter {
    pub closed spec fn spec_token(&self) -> u128 {
        self.token
    }

    pub closed spec fn spec_key(&self) -> Seq<u8> {
        self.key@
    }

    pub closed spec fn spec_mtu(&self) -> u16 {
        self.udp_mtu
    }

    /// The next sequence number.
    pub closed spec fn spec_seq(&self) -> u64 {
        self.seq
    }

    /// Whether only the sequence number differs, by `k` numbers taken.
    pub open spec fn advanced(&self, before: &PlainWriter, k: nat) -> bool {
        &&& self.spec_token() == before.spec_token()
        &&& self.spec_key() == before.spec_key()
        &&& self.spec_mtu() == before.spec_mtu()
        &&& self.spec_seq() == seq_after(before.spec_seq(), k)
    }

    pub fn new(settings: PlainUdpSettings) -> (r: PlainWriter)
        ensures
            r.spec_token() == settings.token,
            r.spec_key() == settings.key@,
            r.spec_mtu() == settings.udp_mtu,
            r.spec_seq() == 0,
    {
        PlainWriter {
            token: settings.token,
            key: settings.key,
            udp_mtu: settings.udp_mtu,
            seq: 0,
        }
    }

    fn packet(&mut self, kind: PlainUdpKind, body: &[u8]) -> (r: Bytes)
        requires
            body@.len() <= 16,
        ensures
            final(self).advanced(&*old(self), 1),
            frozen_bytes(r) == plain_packet(
                kind,
                old(self).spec_seq(),
                body@,
                old(self).spec_key(),
            ),
    {
        let number = next_seq(&mut self.seq);
        match encode_plain_udp(kind, number, body, &self.key) {
            Some(packet) => packet,
            None => {
                assert(false);
                copy_bytes(body)
            },
        }
    }

    /// The packet that makes the endpoint of the channel known to the server.
    pub fn hello(&mut self) -> (r: Bytes)
        ensures
            final(self).advanced(&*old(self), 1),
            frozen_bytes(r) == hello_packet(
                old(self).spec_token(),
                old(self).spec_key(),
                old(self).spec_seq(),
            ),
    {
        let token = be16_bytes(self.token);
        self.packet(PlainUdpKind::Hello, &token)
    }

    /// The packet that keeps address translations on the way alive.
    pub fn keepalive(&mut self) -> (r: Bytes)
        ensures
            final(self).advanced(&*old(self), 1),
            frozen_bytes(r) == keepalive_packet(old(self).spec_key(), old(self).spec_seq()),
    {
        let empty: Vec<u8> = Vec::new();
        assert(empty@ =~= Seq::<u8>::empty());
        self.packet(PlainUdpKind::Keepalive, &empty)
    }

    /// A ping sent at `now_us`, in microseconds.
    pub fn ping(&mut self, now_us: u64) -> (r: Bytes)
        ensures
            final(self).advanced(&*old(self), 1),
            frozen_bytes(r) == ping_packet(now_us, old(self).spec_key(), old(self).spec_seq()),
    {
        let body = encode_diag_ping_body(now_us);
        proof {
            lemma_be_len(now_us as nat, 8);
        }
        self.packet(PlainUdpKind::DiagPing, bytes_slice(&body))
    }

    /// The packets that carry a frame.
    pub fn data(&mut self, frame: &[u8]) -> (r: Result<Vec<Bytes>, PacketError>)
        ensures
            final(self).spec_token() == old(self).spec_token(),
            final(self).spec_key() == old(self).spec_key(),
            final(self).spec_mtu() == old(self).spec_mtu(),
            writes(
                old(self).spec_key(),
                old(self).spec_mtu(),
                old(self).spec_seq(),
                frame@,
                packets_view(r),
                final(self).spec_seq(),
            ),
    {
        match encode_plain_udp_data_packets(frame, &self.key, self.udp_mtu, &mut self.seq) {
            Ok(packets) => Ok(packet_list(packets)),
            Err(e) => Err(e),
        }
    }
}

/// The local address that the socket of a channel binds: any address of the server's family.
pub fn channel_bind_addr(server: SocketAddr) -> (r: SocketAddr)
    ensures
        r == flow_bind_addr(server, None),
{
    bind_addr(server, None)
}

/// Packets that nobody with the key made, and those of kinds that a server does not send, do
/// nothing to a channel.
pub proof fn law_forged_packet_does_nothing(
    key: Seq<u8>,
    s: ChannelState,
    t: ChannelTotals,
    packet: Seq<u8>,
    now: u64,
    after: ChannelState,
    t_after: ChannelTotals,
    step: FlowStep,
)
    requires
        channel_step(key, s, t, packet, now, after, t_after, step),
        parsed_packet(packet, key) is Err || (parsed_packet(packet, key) matches Ok((kind, _, _))
            && (kind is Hello || kind is Keepalive || kind is DiagPing)),
    ensures
        step is Ignore,
        after == s,
        t_after == t,
{
}

/// A datagram in one packet, at the time `now` in nanoseconds, is handled as that datagram, and its
/// flow is marked as seen at that time in milliseconds.
pub proof fn law_delivery_marks_flow(
    key: Seq<u8>,
    s: ChannelState,
    t: ChannelTotals,
    src: SocketAddr,
    data: Seq<u8>,
    seq: u64,
    now: u64,
    after: ChannelState,
    t_after: ChannelTotals,
    step: FlowStep,
)
    requires
        s.flows.flows.contains_key(flow_key_of(src)),
        channel_step(
            key,
            s,
            t,
            plain_packet(PlainUdpKind::Data, seq, udp_frame(src, data), key),
            now,
            after,
            t_after,
            step,
        ),
    ensures
        step == (FlowStep::Send { flow: flow_key_of(src), data }),
        after.flows.flows[flow_key_of(src)].last_seen == now / 1_000_000,
        after.sets == s.sets,
        t_after.diagnostics == t.diagnostics,
        t.counters.bytes_in + data.len() <= u64::MAX ==> t_after.counters.bytes_in
            == t.counters.bytes_in + data.len(),
{
    law_packet_roundtrip(PlainUdpKind::Data, seq, udp_frame(src, data), key);
    law_udp_frame_roundtrip(src, data);
    law_flow_key(src, src.unscoped());
    law_datagram_carried(s.flows, src.unscoped(), data, now / 1_000_000, after.flows, step);
}

/// Latencies that were collected count, once they are merged, as if each had been recorded at once.
pub proof fn law_flush_is_exact(d: DiagnosticsView, values: Seq<u64>)
    requires
        values.len() <= u64::MAX,
        forall|i: int| 0 <= i < values.len() ==> #[trigger] values[i] > 0,
    ensures
        ({
            let after = flushed(d, Totals::zero().with_all(values));
            &&& after.client_server_to_local == d.client_server_to_local.with_all(values)
            &&& after.client_local_to_server == d.client_local_to_server
            &&& after.rtt == d.rtt
            &&& after.server_public_to_client == d.server_public_to_client
            &&& after.server_client_to_public == d.server_client_to_public
        }),
{
    law_batch_is_exact(d.client_server_to_local, values);
}

}
