//! UDP tunnels from end to end: what the relay and the client do to a datagram together.

use crate::addr::SocketAddr;
use crate::buffer::{be, lemma_be_len, lemma_from_be_be, lemma_pow256_widths};
use crate::config::law_resolved_mtu_carries_datagrams;
use crate::protocol::PlainUdpKind;
use crate::protocol::{
    law_packet_roundtrip, law_udp_frame_roundtrip, lemma_udp_header_len, parsed_fragment,
    parsed_packet, parsed_udp, udp_frame, Proto, ProtocolError, MAX_FRAME, MAX_UDP_MTU,
    MIN_UDP_MTU,
};
use crate::reassembly::{fragment_of, pushes, stored, SetView};
use crate::reassembly::{MAX_REASSEMBLY_BYTES, MAX_REASSEMBLY_SETS};
use crate::udp::{
    chunk_capacity, cut, data_packet_error, data_packets, fits_one_packet,
    law_datagram_survives_fragmentation, law_packets_carry_datagram, law_pong_carries_snapshots,
    pong_body, seq_after, seq_after_data, PacketError,
};
use crate::source_pool::pool_addresses;
use crate::udp_client::{
    channel_step, datagram_step, delivers, flow_key_of, frame_step, hello_packet, ignores,
    keepalive_packet, law_datagram_carried, law_flow_key, ping_packet, reply_step, writes,
    ChannelState, ChannelTotals, Counters, FlowStep, FlowsState,
};
use crate::udp_server::{
    client_packet_step, forward_config, forward_step, hello, public_datagram_step, to_public,
    ForwardConfig, ForwardState, ForwardStep, MAX_DATAGRAM,
};
use vstd::prelude::*;

verus! {

/// Whether fragments that arrived before leave room for those of a body of `len` bytes, which
/// share the id `id`.
pub open spec fn leaves_room(sets: Map<u64, SetView>, id: u64, len: nat) -> bool {
    &&& sets.dom().finite()
    &&& sets.dom().len() < MAX_REASSEMBLY_SETS
    &&& !sets.contains_key(id)
    &&& stored(sets) + len <= MAX_REASSEMBLY_BYTES
}

/// Whether a list names each of `n` packets once.
pub open spec fn arrival_order(order: Seq<int>, n: nat) -> bool {
    &&& order.len() == n
    &&& order.no_duplicates()
    &&& forall|k: int| 0 <= k < order.len() ==> 0 <= #[trigger] order[k] < n
}

/// Whether packets of the size `mtu` are what some UDP tunnel ends up with.
pub open spec fn tunnel_mtu(mtu: u16) -> bool {
    MIN_UDP_MTU <= mtu <= MAX_UDP_MTU
}

proof fn lemma_datagram_can_be_sent(addr: SocketAddr, data: Seq<u8>, mtu: u16)
    requires
        tunnel_mtu(mtu),
        data.len() <= MAX_DATAGRAM,
    ensures
        data_packet_error(udp_frame(addr, data).len(), mtu) is None,
{
    lemma_udp_header_len(addr);
    law_resolved_mtu_carries_datagrams(Proto::Udp, Some(mtu), udp_frame(addr, data).len());
}

// ---------------------------------------------------------------------------
// From the end user to the local service
// ---------------------------------------------------------------------------

/// What the client makes of a fragment that completes the body `out`, or none.
spec fn fragment_taken(
    s: ChannelState,
    t: ChannelTotals,
    now: u64,
    after: ChannelState,
    t_after: ChannelTotals,
    step: FlowStep,
    out: Option<Seq<u8>>,
) -> bool {
    match out {
        None => ignores(ChannelState { sets: after.sets, ..s }, t, after, t_after, step),
        Some(frame) => delivers(s, t, frame, now, after, t_after, step),
    }
}

/// Whether a datagram of an end user is handled as it should be: it goes to the local service byte
/// for byte through the flow of that end user, or it is dropped, because there is no such flow and
/// there are too many flows or no source address is left.
pub open spec fn handled(
    flows: FlowsState,
    peer: SocketAddr,
    data: Seq<u8>,
    step: FlowStep,
) -> bool {
    match step {
        FlowStep::Send { flow, data: sent } => {
            flow == flow_key_of(peer) && sent == data && flows.flows.contains_key(flow)
        },
        FlowStep::Open { flow, data: sent, .. } => {
            flow == flow_key_of(peer) && sent == data && !flows.flows.contains_key(flow)
        },
        FlowStep::Ignore => {
            &&& !flows.flows.contains_key(flow_key_of(peer))
            &&& flows.flows.dom().len() >= 4096 || (flows.pool matches Some(pool) && flows.used
                == pool_addresses(pool))
        },
    }
}

/// The datagram of an end user reaches the local service as it was sent: the relay sends it to the
/// pinned client, in one packet or several, and once the packets have arrived, in any order, the
/// client handles the datagram of that end user with exactly these bytes. Nothing happens before
/// the last packet.
pub proof fn law_datagram_reaches_service(
    config: ForwardConfig,
    relay: ForwardState,
    client: SocketAddr,
    peer: SocketAddr,
    data: Seq<u8>,
    now: u64,
    relay_after: ForwardState,
    relay_step: ForwardStep,
    order: Seq<int>,
    times: Seq<u64>,
    states: Seq<ChannelState>,
    totals: Seq<ChannelTotals>,
    steps: Seq<FlowStep>,
)
    requires
        tunnel_mtu(config.mtu),
        data.len() <= MAX_DATAGRAM,
        relay.client == Some(client),
        peer != client,
        hello(config, data) is None,
        forward_step(config, relay, peer, data, now, relay_after, relay_step),
        relay_step matches ForwardStep::ToClient { packets, .. } ==> {
            &&& arrival_order(order, packets.len())
            &&& times.len() == packets.len()
            &&& steps.len() == packets.len()
            &&& states.len() == packets.len() + 1
            &&& totals.len() == packets.len() + 1
            &&& forall|k: int|
                0 <= k < packets.len() ==> channel_step(
                    config.key,
                    states[k],
                    totals[k],
                    packets[#[trigger] order[k]],
                    times[k],
                    states[k + 1],
                    totals[k + 1],
                    steps[k],
                )
        },
        !fits_one_packet(udp_frame(peer, data).len(), config.mtu) ==> leaves_room(
            states[0].sets,
            relay.seq,
            udp_frame(peer, data).len(),
        ),
    ensures
        relay_step matches ForwardStep::ToClient { dst, packets } && dst == client
            && packets.len() > 0,
        forall|k: int| 0 <= k < steps.len() - 1 ==> (#[trigger] steps[k]) is Ignore,
        datagram_step(
            states[steps.len() - 1].flows,
            peer.unscoped(),
            data,
            times.last() / 1_000_000,
            states.last().flows,
            steps.last(),
        ),
        handled(states[steps.len() - 1].flows, peer, data, steps.last()),
{
    let body = udp_frame(peer, data);
    let packets = data_packets(body, config.key, config.mtu, relay.seq);
    lemma_datagram_can_be_sent(peer, data, config.mtu);
    law_packets_carry_datagram(body, config.key, config.mtu, relay.seq);
    law_udp_frame_roundtrip(peer, data);
    assert(relay_step == (ForwardStep::ToClient { dst: client, packets }));
    let n = packets.len() as int;
    if fits_one_packet(body.len(), config.mtu) {
        assert(order[0] == 0);
        law_datagram_carried(
            states[0].flows,
            peer.unscoped(),
            data,
            times[0] / 1_000_000,
            states[1].flows,
            steps[0],
        );
        law_flow_key(peer, peer.unscoped());
    } else {
        let parts = cut(body, chunk_capacity(config.mtu));
        let outs = Seq::new(
            packets.len(),
            |k: int|
                choose|out: Option<Seq<u8>>| #[trigger]
                    pushes(
                        states[k].sets,
                        fragment_of(relay.seq, parts, order[k]),
                        times[k],
                        states[k + 1].sets,
                        out,
                    ) && fragment_taken(
                        states[k],
                        totals[k],
                        times[k],
                        states[k + 1],
                        totals[k + 1],
                        steps[k],
                        out,
                    ),
        );
        let sets = Seq::new(packets.len() + 1, |k: int| states[k].sets);
        assert forall|k: int| 0 <= k < n implies {
            &&& pushes(
                sets[k],
                parsed_fragment(
                    parsed_packet(packets[#[trigger] order[k]], config.key)->Ok_0.2,
                )->Ok_0,
                times[k],
                sets[k + 1],
                outs[k],
            )
            &&& fragment_taken(
                states[k],
                totals[k],
                times[k],
                states[k + 1],
                totals[k + 1],
                steps[k],
                outs[k],
            )
        } by {
            let f = fragment_of(relay.seq, parts, order[k]);
            assert(parsed_fragment(f.body()) == Ok::<_, ProtocolError>(f));
            let w = choose|out: Option<Seq<u8>>| #[trigger]
                pushes(states[k].sets, f, times[k], states[k + 1].sets, out) && (match out {
                    None => ignores(
                        ChannelState { sets: states[k + 1].sets, ..states[k] },
                        totals[k],
                        states[k + 1],
                        totals[k + 1],
                        steps[k],
                    ),
                    Some(frame) => delivers(
                        states[k],
                        totals[k],
                        frame,
                        times[k],
                        states[k + 1],
                        totals[k + 1],
                        steps[k],
                    ),
                });
            assert(pushes(states[k].sets, f, times[k], states[k + 1].sets, w));
            assert(fragment_taken(
                states[k],
                totals[k],
                times[k],
                states[k + 1],
                totals[k + 1],
                steps[k],
                w,
            ));
        }
        law_datagram_survives_fragmentation(
            states[0].sets,
            body,
            config.key,
            config.mtu,
            relay.seq,
            order,
            times,
            sets,
            outs,
        );
        assert forall|k: int| 0 <= k < n - 1 implies (#[trigger] steps[k]) is Ignore by {
            let i = order[k];
            assert(outs[k] is None);
        }
        let i = order[n - 1];
        assert(outs[n - 1] == Some(body));
        assert(fragment_taken(
            states[n - 1],
            totals[n - 1],
            times[n - 1],
            states[n],
            totals[n],
            steps[n - 1],
            outs[n - 1],
        ));
        law_datagram_carried(
            states[n - 1].flows,
            peer.unscoped(),
            data,
            times[n - 1] / 1_000_000,
            states[n].flows,
            steps[n - 1],
        );
        law_flow_key(peer, peer.unscoped());
    }
}

// ---------------------------------------------------------------------------
// From the local service to the end user
// ---------------------------------------------------------------------------

/// What the relay makes of a fragment that completes the body `out`, or none.
spec fn fragment_forwarded(
    s: ForwardState,
    after: ForwardState,
    step: ForwardStep,
    out: Option<Seq<u8>>,
) -> bool {
    &&& after == (ForwardState { sets: after.sets, ..s })
    &&& step == (match out {
        Some(frame) => to_public(frame),
        None => ForwardStep::Ignore,
    })
}

proof fn lemma_stays_pinned(
    config: ForwardConfig,
    client: SocketAddr,
    packets: Seq<Seq<u8>>,
    order: Seq<int>,
    times: Seq<u64>,
    states: Seq<ForwardState>,
    steps: Seq<ForwardStep>,
    k: int,
)
    requires
        0 <= k < states.len(),
        states.len() == packets.len() + 1,
        arrival_order(order, packets.len()),
        states[0].client == Some(client),
        forall|i: int|
            0 <= i < packets.len() ==> parsed_packet(#[trigger] packets[i], config.key) is Ok,
        forall|k: int|
            0 <= k < packets.len() ==> forward_step(
                config,
                states[k],
                client,
                packets[#[trigger] order[k]],
                times[k],
                states[k + 1],
                steps[k],
            ),
    ensures
        states[k].client == Some(client),
    decreases k,
{
    if k > 0 {
        lemma_stays_pinned(config, client, packets, order, times, states, steps, k - 1);
        let i = order[k - 1];
    }
}

/// A datagram of the local service reaches the end user as it was sent: once the packets of the
/// pinned client have arrived, in any order, the relay sends exactly these bytes to that end user.
/// Nothing is sent before the last packet.
pub proof fn law_reply_reaches_end_user(
    config: ForwardConfig,
    client: SocketAddr,
    dst: SocketAddr,
    data: Seq<u8>,
    seq: u64,
    order: Seq<int>,
    times: Seq<u64>,
    states: Seq<ForwardState>,
    steps: Seq<ForwardStep>,
)
    requires
        tunnel_mtu(config.mtu),
        data.len() <= MAX_DATAGRAM,
        ({
            let packets = data_packets(udp_frame(dst, data), config.key, config.mtu, seq);
            &&& arrival_order(order, packets.len())
            &&& times.len() == packets.len()
            &&& steps.len() == packets.len()
            &&& states.len() == packets.len() + 1
            &&& states[0].client == Some(client)
            &&& forall|k: int|
                0 <= k < packets.len() ==> forward_step(
                    config,
                    states[k],
                    client,
                    packets[#[trigger] order[k]],
                    times[k],
                    states[k + 1],
                    steps[k],
                )
        }),
        !fits_one_packet(udp_frame(dst, data).len(), config.mtu) ==> leaves_room(
            states[0].sets,
            seq,
            udp_frame(dst, data).len(),
        ),
    ensures
        steps.len() > 0,
        forall|k: int| 0 <= k < steps.len() - 1 ==> (#[trigger] steps[k]) is Ignore,
        steps.last() == (ForwardStep::ToPublic { dst: dst.unscoped(), data }),
{
    let body = udp_frame(dst, data);
    let packets = data_packets(body, config.key, config.mtu, seq);
    lemma_datagram_can_be_sent(dst, data, config.mtu);
    law_packets_carry_datagram(body, config.key, config.mtu, seq);
    law_udp_frame_roundtrip(dst, data);
    let n = packets.len() as int;
    if fits_one_packet(body.len(), config.mtu) {
        assert(order[0] == 0);
    } else {
        let parts = cut(body, chunk_capacity(config.mtu));
        let outs = Seq::new(
            packets.len(),
            |k: int|
                choose|out: Option<Seq<u8>>| #[trigger]
                    pushes(
                        states[k].sets,
                        fragment_of(seq, parts, order[k]),
                        times[k],
                        states[k + 1].sets,
                        out,
                    ) && fragment_forwarded(states[k], states[k + 1], steps[k], out),
        );
        let sets = Seq::new(packets.len() + 1, |k: int| states[k].sets);
        assert forall|k: int| 0 <= k < n implies {
            &&& pushes(
                sets[k],
                parsed_fragment(
                    parsed_packet(packets[#[trigger] order[k]], config.key)->Ok_0.2,
                )->Ok_0,
                times[k],
                sets[k + 1],
                outs[k],
            )
            &&& fragment_forwarded(states[k], states[k + 1], steps[k], outs[k])
        } by {
            lemma_stays_pinned(config, client, packets, order, times, states, steps, k);
            let f = fragment_of(seq, parts, order[k]);
            assert(parsed_fragment(f.body()) == Ok::<_, ProtocolError>(f));
            let w = choose|out: Option<Seq<u8>>| #[trigger]
                pushes(states[k].sets, f, times[k], states[k + 1].sets, out) && states[k + 1] == (
                ForwardState { sets: states[k + 1].sets, ..states[k] }) && steps[k] == (
                match out {
                    Some(frame) => to_public(frame),
                    None => ForwardStep::Ignore,
                });
            assert(pushes(states[k].sets, f, times[k], states[k + 1].sets, w));
            assert(fragment_forwarded(states[k], states[k + 1], steps[k], w));
        }
        law_datagram_survives_fragmentation(
            states[0].sets,
            body,
            config.key,
            config.mtu,
            seq,
            order,
            times,
            sets,
            outs,
        );
        assert forall|k: int| 0 <= k < n - 1 implies (#[trigger] steps[k]) is Ignore by {
            let i = order[k];
            assert(outs[k] is None);
        }
        let i = order[n - 1];
        assert(outs[n - 1] == Some(body));
        assert(fragment_forwarded(states[n - 1], states[n], steps[n - 1], outs[n - 1]));
    }
}

// ---------------------------------------------------------------------------
// Encrypted tunnels
// ---------------------------------------------------------------------------

/// Datagrams cross an encrypted tunnel as they were sent, in both directions: the frame that the
/// relay makes of an end user's datagram is handled as that datagram by the client, and the frame
/// of a reply asks the relay to send exactly these bytes to that end user. Neither frame is too
/// long for the connection.
pub proof fn law_datagrams_cross_encrypted(
    flows: FlowsState,
    counters: Counters,
    user: SocketAddr,
    data: Seq<u8>,
    reply: Seq<u8>,
    now: u64,
    after: FlowsState,
    counters_after: Counters,
    step: FlowStep,
)
    requires
        data.len() <= MAX_DATAGRAM,
        reply.len() <= MAX_DATAGRAM,
        frame_step(flows, counters, udp_frame(user, data), now, after, counters_after, step),
    ensures
        datagram_step(flows, user.unscoped(), data, now, after, step),
        handled(flows, user, data, step),
        parsed_udp(udp_frame(user, reply)) == Ok::<_, ProtocolError>((user.unscoped(), reply)),
        udp_frame(user, data).len() <= MAX_FRAME,
        udp_frame(user, reply).len() <= MAX_FRAME,
{
    law_udp_frame_roundtrip(user, data);
    law_udp_frame_roundtrip(user, reply);
    lemma_udp_header_len(user);
    law_datagram_carried(flows, user.unscoped(), data, now, after, step);
    law_flow_key(user, user.unscoped());
}

// ---------------------------------------------------------------------------
// Hellos, keepalives and pings
// ---------------------------------------------------------------------------

/// The hello of a client pins the endpoint that it came from at the relay that handed out its token
/// and its key, and nothing is sent on to anybody. With another key or another token it pins
/// nothing.
pub proof fn law_hello_reaches_relay(
    token: u128,
    key: Seq<u8>,
    mtu: u16,
    relay: ForwardState,
    peer: SocketAddr,
    seq: u64,
    now: u64,
    relay_after: ForwardState,
    step: ForwardStep,
)
    requires
        forward_step(
            forward_config(token, key, mtu),
            relay,
            peer,
            hello_packet(token, key, seq),
            now,
            relay_after,
            step,
        ),
    ensures
        relay_after.client == Some(peer),
        relay_after == (ForwardState { client: Some(peer), ..relay }),
        step is Ignore,
{
    law_packet_roundtrip(PlainUdpKind::Hello, seq, be(token as nat, 16), key);
}

/// A hello with another token than that of the tunnel pins nothing and goes nowhere.
pub proof fn law_wrong_token_pins_nothing(
    token: u128,
    other: u128,
    key: Seq<u8>,
    mtu: u16,
    relay: ForwardState,
    peer: SocketAddr,
    seq: u64,
    now: u64,
    relay_after: ForwardState,
    step: ForwardStep,
)
    requires
        token != other,
        forward_step(
            forward_config(token, key, mtu),
            relay,
            peer,
            hello_packet(other, key, seq),
            now,
            relay_after,
            step,
        ),
    ensures
        relay_after == relay,
        step is Ignore,
{
    law_packet_roundtrip(PlainUdpKind::Hello, seq, be(other as nat, 16), key);
    lemma_pow256_widths();
    lemma_from_be_be(token as nat, 16);
    lemma_from_be_be(other as nat, 16);
}

/// A keepalive of the pinned client changes nothing at the relay and goes nowhere.
pub proof fn law_keepalive_is_silent(
    config: ForwardConfig,
    relay: ForwardState,
    client: SocketAddr,
    seq: u64,
    now: u64,
    relay_after: ForwardState,
    step: ForwardStep,
)
    requires
        relay.client == Some(client),
        forward_step(
            config,
            relay,
            client,
            keepalive_packet(config.key, seq),
            now,
            relay_after,
            step,
        ),
    ensures
        relay_after == relay,
        step is Ignore,
{
    law_packet_roundtrip(PlainUdpKind::Keepalive, seq, Seq::<u8>::empty(), config.key);
}

/// A ping of the pinned client is answered to the client, and the answer measures the round trip:
/// the client records the time from the ping to the answer, and what the relay measured.
pub proof fn law_ping_measures_round_trip(
    config: ForwardConfig,
    relay: ForwardState,
    client: SocketAddr,
    sent_us: u64,
    seq: u64,
    now: u64,
    relay_after: ForwardState,
    relay_step: ForwardStep,
    s: ChannelState,
    t: ChannelTotals,
    arrived: u64,
    after: ChannelState,
    t_after: ChannelTotals,
    step: FlowStep,
)
    requires
        relay.client == Some(client),
        forward_step(
            config,
            relay,
            client,
            ping_packet(sent_us, config.key, seq),
            now,
            relay_after,
            relay_step,
        ),
        sent_us <= arrived / 1000,
        relay_step matches ForwardStep::Reply { packet, .. } ==> channel_step(
            config.key,
            s,
            t,
            packet,
            arrived,
            after,
            t_after,
            step,
        ),
    ensures
        relay_step matches ForwardStep::Reply { dst, .. } && dst == client,
        relay_after.client == relay.client,
        relay_after.sets == relay.sets,
        step is Ignore,
        after.flows == s.flows,
        t_after.counters == t.counters,
        ({
            let us = arrived / 1000 - sent_us;
            t_after.diagnostics.rtt == t.diagnostics.rtt.with(
                if us == 0 {
                    1u64
                } else {
                    us as u64
                },
            )
        }),
        relay_after.public_to_client.summary() matches Some(p) ==> p.samples > 0
            ==> t_after.diagnostics.server_public_to_client == p,
        relay_after.client_to_public.summary() matches Some(p) ==> p.samples > 0
            ==> t_after.diagnostics.server_client_to_public == p,
{
    let ping = be(sent_us as nat, 8);
    law_packet_roundtrip(PlainUdpKind::DiagPing, seq, ping, config.key);
    lemma_pow256_widths();
    lemma_be_len(sent_us as nat, 8);
    let flushed = relay.flushed();
    let (a, b) = (flushed.public_to_client.summary(), flushed.client_to_public.summary());
    let body = pong_body(ping, a, b);
    law_packet_roundtrip(PlainUdpKind::DiagPong, relay.seq, body, config.key);
    law_pong_carries_snapshots(sent_us, a, b);
}

/// The numbers of the packets that a relay sends to a client go on from datagram to datagram: those
/// of the next one follow those of this one.
pub proof fn law_packet_numbers_go_on(
    config: ForwardConfig,
    relay: ForwardState,
    peer: SocketAddr,
    data: Seq<u8>,
    now: u64,
    relay_after: ForwardState,
    step: ForwardStep,
    i: int,
)
    requires
        forward_step(config, relay, peer, data, now, relay_after, step),
        step matches ForwardStep::ToClient { packets, .. } && 0 <= i < packets.len() && relay.seq
            + packets.len() < u64::MAX,
    ensures
        relay_after == (ForwardState { seq: relay_after.seq, ..relay }),
        step matches ForwardStep::ToClient { packets, .. } && parsed_packet(
            packets[i],
            config.key,
        ) matches Ok((kind, seq, body)) && relay.seq <= seq < relay_after.seq && relay_after.seq
            <= relay.seq + packets.len() + 1,
{
    let body = udp_frame(peer, data);
    if relay.client == Some(peer) {
        assert(client_packet_step(config, relay, peer, data, now, relay_after, step));
        assert(!(step is ToClient));
    } else {
        assert(public_datagram_step(config, relay, peer, data, relay_after, step));
        lemma_packet_numbers(body, config.key, config.mtu, relay.seq, i);
    }
}

proof fn lemma_packet_numbers(body: Seq<u8>, key: Seq<u8>, mtu: u16, seq: u64, i: int)
    requires
        data_packet_error(body.len(), mtu) is None,
        0 <= i < data_packets(body, key, mtu, seq).len(),
        seq + data_packets(body, key, mtu, seq).len() < u64::MAX,
    ensures
        parsed_packet(data_packets(body, key, mtu, seq)[i], key) matches Ok((kind, number, part))
            && seq <= number < seq_after_data(body.len(), mtu, seq) && seq_after_data(
            body.len(),
            mtu,
            seq,
        ) <= seq + data_packets(body, key, mtu, seq).len() + 1,
{
    law_packets_carry_datagram(body, key, mtu, seq);
    if !fits_one_packet(body.len(), mtu) {
        let parts = cut(body, chunk_capacity(mtu));
        let n = parts.len();
        assert(parsed_packet(data_packets(body, key, mtu, seq)[i], key) is Ok);
        assert(seq_after(seq, (1 + i) as nat) == seq + 1 + i);
        assert(seq_after(seq, 1 + n) == seq + 1 + n);
    }
}

/// An answer of the local service reaches its end user as it was sent: the client frames it and
/// writes packets, and once they have arrived at the relay, in any order, the relay sends exactly
/// these bytes to that end user. Nothing goes to anybody before the last packet.
pub proof fn law_answer_reaches_end_user(
    config: ForwardConfig,
    client: SocketAddr,
    flows: FlowsState,
    counters: Counters,
    user: SocketAddr,
    data: Seq<u8>,
    now: u64,
    flows_after: FlowsState,
    counters_after: Counters,
    frame: Seq<u8>,
    seq: u64,
    written: Result<Seq<Seq<u8>>, PacketError>,
    seq_next: u64,
    order: Seq<int>,
    times: Seq<u64>,
    states: Seq<ForwardState>,
    steps: Seq<ForwardStep>,
)
    requires
        tunnel_mtu(config.mtu),
        data.len() <= MAX_DATAGRAM,
        reply_step(flows, counters, user, data, now, flows_after, counters_after, frame),
        writes(config.key, config.mtu, seq, frame, written, seq_next),
        written matches Ok(packets) ==> {
            &&& arrival_order(order, packets.len())
            &&& times.len() == packets.len()
            &&& steps.len() == packets.len()
            &&& states.len() == packets.len() + 1
            &&& states[0].client == Some(client)
            &&& forall|k: int|
                0 <= k < packets.len() ==> forward_step(
                    config,
                    states[k],
                    client,
                    packets[#[trigger] order[k]],
                    times[k],
                    states[k + 1],
                    steps[k],
                )
        },
        !fits_one_packet(frame.len(), config.mtu) ==> leaves_room(
            states[0].sets,
            seq,
            frame.len(),
        ),
    ensures
        written is Ok,
        steps.len() > 0,
        forall|k: int| 0 <= k < steps.len() - 1 ==> (#[trigger] steps[k]) is Ignore,
        steps.last() == (ForwardStep::ToPublic { dst: user.unscoped(), data }),
{
    lemma_datagram_can_be_sent(user, data, config.mtu);
    law_reply_reaches_end_user(config, client, user, data, seq, order, times, states, steps);
}

}
