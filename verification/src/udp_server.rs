//! The server's end of a UDP tunnel.
//!
//! Encrypted tunnels exchange frames with the client over a TLS stream, one frame for each
//! datagram. Plaintext tunnels share the public socket between end users and the client: the
//! authenticated hello of a client pins the client's endpoint, packets from that endpoint are
//! decoded, and everything else is a datagram of an end user.

use crate::addr::SocketAddr;
use crate::buffer::{be16_bytes, bytes_slice, copy_bytes};
use crate::buffer::{be, frozen_bytes, frozen_option};
use crate::diagnostics::LatencyBatch;
use crate::diagnostics::{law_batch_is_exact, measured_us, Totals};
use crate::protocol::{
    decode_plain_udp, decode_udp, decode_udp_fragment_body, encode_plain_udp, encode_udp,
    peek_plain_udp_kind, PlainUdpKind,
};
use crate::protocol::{
    law_packet_authentic, law_packet_roundtrip, parsed_fragment, parsed_packet, parsed_udp,
    plain_packet, udp_frame, ProtocolError,
};
use crate::reassembly::PlainUdpReassembler;
use crate::reassembly::{expired, pushes, SetView};
use crate::text::bytes_eq;
use crate::udp::{
    encode_diag_pong_body, encode_plain_udp_data_packets, next_seq, PlainUdpDataPackets,
    PlainUdpServerDiagnostics,
};
use crate::udp::{
    all_bytes, data_packet_error, data_packets, pong_body, seq_after, seq_after_data,
};
use bytes::Bytes;
use vstd::prelude::*;

verus! {

/// The largest datagram that a socket hands out.
pub const MAX_DATAGRAM: usize = 65_535;

// ---------------------------------------------------------------------------
// Encrypted tunnels
// ---------------------------------------------------------------------------

/// The frame that takes the datagram of an end user to the client.
pub fn frame_to_client(src: SocketAddr, data: &[u8]) -> (r: Bytes)
    requires
        data@.len() <= MAX_DATAGRAM,
    ensures
        frozen_bytes(r) == udp_frame(src, data@),
{
    encode_udp(src, data)
}

/// The datagram that a frame of the client asks to send, and to whom; a malformed frame is
/// ignored.
pub fn datagram_to_public(frame: &[u8]) -> (r: Option<(SocketAddr, &[u8])>)
    ensures
        match r {
            Some((dst, data)) => parsed_udp(frame@) == Ok::<_, ProtocolError>((dst, data@)),
            None => parsed_udp(frame@) is Err,
        },
{
    match decode_udp(frame) {
        Ok(x) => Some(x),
        Err(_) => None,
    }
}

// ---------------------------------------------------------------------------
// Plaintext tunnels: model
// ---------------------------------------------------------------------------

/// What a plaintext tunnel was registered with.
pub struct ForwardConfig {
    /// The bytes that a hello must carry.
    pub token: Seq<u8>,
    /// The key of the channel.
    pub key: Seq<u8>,
    /// The packet size of the channel.
    pub mtu: u16,
}

/// What a plaintext tunnel with a token, a key and a packet size is registered with.
pub open spec fn forward_config(token: u128, key: Seq<u8>, mtu: u16) -> ForwardConfig {
    ForwardConfig { token: be(token as nat, 16), key, mtu }
}

/// The state of a plaintext tunnel.
#[verifier::ext_equal]
pub struct ForwardState {
    /// The endpoint of the client, once a hello pinned it.
    pub client: Option<SocketAddr>,
    /// The next sequence number.
    pub seq: u64,
    /// The fragments received from the client.
    pub sets: Map<u64, SetView>,
    /// The latencies that pongs report.
    pub public_to_client: Totals,
    pub client_to_public: Totals,
    /// The latencies measured since they were last merged into the above.
    pub new_public_to_client: Totals,
    pub new_client_to_public: Totals,
}

impl ForwardState {
    /// The new measurements merged.
    pub open spec fn flushed(self) -> ForwardState {
        ForwardState {
            public_to_client: self.public_to_client.merged(self.new_public_to_client),
            client_to_public: self.client_to_public.merged(self.new_client_to_public),
            new_public_to_client: Totals::zero(),
            new_client_to_public: Totals::zero(),
            ..self
        }
    }
}

/// What a received packet asks to do.
#[verifier::ext_equal]
pub enum ForwardStep {
    /// Nothing.
    Ignore,
    /// Send a datagram of the client to an end user.
    ToPublic { dst: SocketAddr, data: Seq<u8> },
    /// Send the packets that carry the datagram of an end user to the client.
    ToClient { dst: SocketAddr, packets: Seq<Seq<u8>> },
    /// Answer a ping of the client.
    Reply { dst: SocketAddr, packet: Seq<u8> },
}

/// Send what a frame of the client holds.
pub open spec fn to_public(frame: Seq<u8>) -> ForwardStep {
    match parsed_udp(frame) {
        Ok((dst, data)) => ForwardStep::ToPublic { dst, data },
        Err(_) => ForwardStep::Ignore,
    }
}

/// The body of a fragment from the client.
pub open spec fn fragment_step(
    s: ForwardState,
    body: Seq<u8>,
    now: u64,
    after: ForwardState,
    step: ForwardStep,
) -> bool {
    match parsed_fragment(body) {
        Ok(fragment) => {
            exists|out: Option<Seq<u8>>| #[trigger]
                pushes(s.sets, fragment, now, after.sets, out) && after == (ForwardState {
                    sets: after.sets,
                    ..s
                }) && step == (match out {
                    Some(frame) => to_public(frame),
                    None => ForwardStep::Ignore,
                })
        },
        Err(_) => after == s && step is Ignore,
    }
}

/// The body of a ping from the client.
pub open spec fn ping_step(
    config: ForwardConfig,
    s: ForwardState,
    peer: SocketAddr,
    body: Seq<u8>,
    after: ForwardState,
    step: ForwardStep,
) -> bool {
    let flushed = s.flushed();
    if body.len() < 8 {
        after == flushed && step is Ignore
    } else {
        &&& after == (ForwardState { seq: seq_after(s.seq, 1), ..flushed })
        &&& step == (ForwardStep::Reply {
            dst: peer,
            packet: plain_packet(
                PlainUdpKind::DiagPong,
                s.seq,
                pong_body(
                    body,
                    flushed.public_to_client.summary(),
                    flushed.client_to_public.summary(),
                ),
                config.key,
            ),
        })
    }
}

/// A packet from the endpoint of the client.
pub open spec fn client_packet_step(
    config: ForwardConfig,
    s: ForwardState,
    peer: SocketAddr,
    packet: Seq<u8>,
    now: u64,
    after: ForwardState,
    step: ForwardStep,
) -> bool {
    match parsed_packet(packet, config.key) {
        Ok((PlainUdpKind::Data, _, body)) => after == s && step == to_public(body),
        Ok((PlainUdpKind::Fragment, _, body)) => fragment_step(s, body, now, after, step),
        Ok((PlainUdpKind::DiagPing, _, body)) => ping_step(config, s, peer, body, after, step),
        _ => after == s && step is Ignore,
    }
}

/// Whether a packet is an authentic hello, and whether its token is the right one.
pub open spec fn hello(config: ForwardConfig, packet: Seq<u8>) -> Option<bool> {
    match parsed_packet(packet, config.key) {
        Ok((PlainUdpKind::Hello, _, body)) => Some(body == config.token),
        _ => None,
    }
}

/// The datagram of an end user.
pub open spec fn public_datagram_step(
    config: ForwardConfig,
    s: ForwardState,
    peer: SocketAddr,
    data: Seq<u8>,
    after: ForwardState,
    step: ForwardStep,
) -> bool {
    let body = udp_frame(peer, data);
    match s.client {
        Some(client) if data_packet_error(body.len(), config.mtu) is None => {
            &&& after == (ForwardState { seq: seq_after_data(body.len(), config.mtu, s.seq), ..s })
            &&& step == (ForwardStep::ToClient {
                dst: client,
                packets: data_packets(body, config.key, config.mtu, s.seq),
            })
        },
        _ => after == s && step is Ignore,
    }
}

/// A packet arrives on the public socket.
pub open spec fn forward_step(
    config: ForwardConfig,
    s: ForwardState,
    peer: SocketAddr,
    packet: Seq<u8>,
    now: u64,
    after: ForwardState,
    step: ForwardStep,
) -> bool {
    if s.client == Some(peer) {
        client_packet_step(config, s, peer, packet, now, after, step)
    } else {
        match hello(config, packet) {
            Some(true) => after == (ForwardState { client: Some(peer), ..s }) && step is Ignore,
            Some(false) => after == s && step is Ignore,
            None => public_datagram_step(config, s, peer, packet, after, step),
        }
    }
}

// ---------------------------------------------------------------------------
// Plaintext tunnels: laws
// ---------------------------------------------------------------------------

/// The pinned endpoint changes only on a packet that the holder of the key made of the token.
pub proof fn law_only_authentic_hello_pins(
    config: ForwardConfig,
    s: ForwardState,
    peer: SocketAddr,
    packet: Seq<u8>,
    now: u64,
    after: ForwardState,
    step: ForwardStep,
)
    requires
        forward_step(config, s, peer, packet, now, after, step),
        after.client != s.client,
    ensures
        after.client == Some(peer),
        exists|seq: u64|
            packet == #[trigger] plain_packet(PlainUdpKind::Hello, seq, config.token, config.key),
{
    law_packet_authentic(packet, config.key);
    let (kind, seq, body) = parsed_packet(packet, config.key)->Ok_0;
    assert(packet == plain_packet(PlainUdpKind::Hello, seq, config.token, config.key));
}

/// The hello of a client, from wherever it comes, pins the endpoint it came from.
pub proof fn law_hello_pins(
    config: ForwardConfig,
    s: ForwardState,
    peer: SocketAddr,
    seq: u64,
    now: u64,
    after: ForwardState,
    step: ForwardStep,
)
    requires
        forward_step(
            config,
            s,
            peer,
            plain_packet(PlainUdpKind::Hello, seq, config.token, config.key),
            now,
            after,
            step,
        ),
    ensures
        after.client == Some(peer),
        step is Ignore,
{
    law_packet_roundtrip(PlainUdpKind::Hello, seq, config.token, config.key);
}

/// Only packets from the pinned endpoint are sent on to end users or answered; what comes from
/// elsewhere goes to the client, if anywhere.
pub proof fn law_only_client_reaches_public(
    config: ForwardConfig,
    s: ForwardState,
    peer: SocketAddr,
    packet: Seq<u8>,
    now: u64,
    after: ForwardState,
    step: ForwardStep,
)
    requires
        forward_step(config, s, peer, packet, now, after, step),
        s.client != Some(peer),
    ensures
        step is Ignore || step is ToClient,
        step matches ForwardStep::ToClient { dst, .. } ==> s.client == Some(dst),
{
}

// ---------------------------------------------------------------------------
// Plaintext tunnels
// ---------------------------------------------------------------------------

/// What a received packet asks to do.
pub enum ForwardAction {
    Ignore,
    ToPublic { dst: SocketAddr, data: Bytes },
    ToClient { dst: SocketAddr, packets: Vec<Bytes> },
    Reply { dst: SocketAddr, packet: Bytes },
}

impl View for ForwardAction {
    type V = ForwardStep;

    open spec fn view(&self) -> ForwardStep {
        match self {
            ForwardAction::Ignore => ForwardStep::Ignore,
            ForwardAction::ToPublic { dst, data } => ForwardStep::ToPublic {
                dst: *dst,
                data: frozen_bytes(*data),
            },
            ForwardAction::ToClient { dst, packets } => ForwardStep::ToClient {
                dst: *dst,
                packets: all_bytes(packets@),
            },
            ForwardAction::Reply { dst, packet } => ForwardStep::Reply {
                dst: *dst,
                packet: frozen_bytes(*packet),
            },
        }
    }
}

/// The server's end of a plaintext UDP tunnel.
pub struct PlainForward {
    token: u128,
    key: [u8; 32],
    udp_mtu: u16,
    client: Option<SocketAddr>,
    seq: u64,
    reassembly: PlainUdpReassembler,
    diagnostics: PlainUdpServerDiagnostics,
    public_to_client: LatencyBatch,
    client_to_public: LatencyBatch,
}

impl PlainForward {
    /// What the tunnel was registered with.
    pub closed spec fn config(&self) -> ForwardConfig {
        ForwardConfig { token: be(self.token as nat, 16), key: self.key@, mtu: self.udp_mtu }
    }

    pub closed spec fn wf(&self) -> bool {
        self.reassembly.wf()
    }
}

impl View for PlainForward {
    type V = ForwardState;

    closed spec fn view(&self) -> ForwardState {
        ForwardState {
            client: self.client,
            seq: self.seq,
            sets: self.reassembly@,
            public_to_client: self.diagnostics.public_to_client@,
            client_to_public: self.diagnostics.client_to_public@,
            new_public_to_client: self.public_to_client@,
            new_client_to_public: self.client_to_public@,
        }
    }
}

impl PlainForward {
    /// A tunnel whose client has not said hello yet.
    pub fn new(token: u128, key: [u8; 32], udp_mtu: u16) -> (r: PlainForward)
        ensures
            r.wf(),
            r.config() == forward_config(token, key@, udp_mtu),
            r@ == (ForwardState {
                client: None,
                seq: 0,
                sets: Map::empty(),
                public_to_client: Totals::zero(),
                client_to_public: Totals::zero(),
                new_public_to_client: Totals::zero(),
                new_client_to_public: Totals::zero(),
            }),
    {
        PlainForward {
            token,
            key,
            udp_mtu,
            client: None,
            seq: 0,
            reassembly: PlainUdpReassembler::new(),
            diagnostics: PlainUdpServerDiagnostics::default(),
            public_to_client: LatencyBatch::default(),
            client_to_public: LatencyBatch::default(),
        }
    }

    /// Drop the fragments of datagrams that have been incomplete for too long.
    pub fn prune(&mut self, now: u64)
        requires
            old(self).wf(),
        ensures
            final(self).wf(),
            final(self).config() == old(self).config(),
            final(self)@ == (ForwardState { sets: final(self)@.sets, ..old(self)@ }),
            forall|id: u64| #[trigger]
                final(self)@.sets.contains_key(id) <==> old(self)@.sets.contains_key(id)
                    && !expired(old(self)@.sets[id], now),
            forall|id: u64| #[trigger]
                final(self)@.sets.contains_key(id) ==> final(self)@.sets[id]
                    == old(self)@.sets[id],
    {
        self.reassembly.prune_expired(now);
    }

    /// Merge the new measurements into what pongs report.
    pub fn flush(&mut self)
        requires
            old(self).wf(),
        ensures
            final(self).wf(),
            final(self).config() == old(self).config(),
            final(self)@ == old(self)@.flushed(),
    {
        self.diagnostics.public_to_client.record_batch(&mut self.public_to_client);
        self.diagnostics.client_to_public.record_batch(&mut self.client_to_public);
    }

    /// A datagram was sent to an end user, `elapsed_us` microseconds after it had arrived.
    pub fn sent_to_public(&mut self, elapsed_us: u128)
        requires
            old(self).wf(),
        ensures
            final(self).wf(),
            final(self).config() == old(self).config(),
            final(self)@ == (ForwardState {
                new_client_to_public: old(self)@.new_client_to_public.with(
                    measured_us(elapsed_us),
                ),
                ..old(self)@
            }),
    {
        self.client_to_public.record(elapsed_us);
    }

    /// The packets of a datagram were sent to the client, `elapsed_us` microseconds after it had
    /// arrived.
    pub fn sent_to_client(&mut self, elapsed_us: u128)
        requires
            old(self).wf(),
        ensures
            final(self).wf(),
            final(self).config() == old(self).config(),
            final(self)@ == (ForwardState {
                new_public_to_client: old(self)@.new_public_to_client.with(
                    measured_us(elapsed_us),
                ),
                ..old(self)@
            }),
    {
        self.public_to_client.record(elapsed_us);
    }

    /// Whether a packet is an authentic hello, and whether its token is the right one.
    fn hello(&self, packet: &[u8]) -> (r: Option<bool>)
        ensures
            r == hello(self.config(), packet@),
    {
        match peek_plain_udp_kind(packet) {
            Some(PlainUdpKind::Hello) => {},
            _ => {
                proof {
                    if hello(self.config(), packet@) is Some {
                        let (kind, seq, body) = parsed_packet(packet@, self.key@)->Ok_0;
                        law_packet_authentic(packet@, self.key@);
                        law_packet_roundtrip(kind, seq, body, self.key@);
                    }
                }
                return None;
            },
        }
        match decode_plain_udp(packet, &self.key) {
            Ok((PlainUdpKind::Hello, _, body)) => {
                let token = be16_bytes(self.token);
                Some(bytes_eq(body, &token))
            },
            _ => None,
        }
    }

    /// A packet arrives from `peer` at the time `now`, in nanoseconds.
    pub fn on_packet(&mut self, peer: SocketAddr, packet: &[u8], now: u64) -> (r: ForwardAction)
        requires
            old(self).wf(),
            packet@.len() <= MAX_DATAGRAM,
        ensures
            final(self).wf(),
            final(self).config() == old(self).config(),
            forward_step(old(self).config(), old(self)@, peer, packet@, now, final(self)@, r@),
    {
        let from_client = match self.client {
            Some(client) => client == peer,
            None => false,
        };
        if from_client {
            return self.on_client_packet(peer, packet, now);
        }
        match self.hello(packet) {
            Some(true) => {
                self.client = Some(peer);
                ForwardAction::Ignore
            },
            Some(false) => ForwardAction::Ignore,
            None => self.on_public_datagram(peer, packet),
        }
    }

    fn on_client_packet(&mut self, peer: SocketAddr, packet: &[u8], now: u64) -> (r: ForwardAction)
        requires
            old(self).wf(),
        ensures
            final(self).wf(),
            final(self).config() == old(self).config(),
            client_packet_step(
                old(self).config(),
                old(self)@,
                peer,
                packet@,
                now,
                final(self)@,
                r@,
            ),
    {
        match decode_plain_udp(packet, &self.key) {
            Ok((PlainUdpKind::Data, _, body)) => send_to_public(body),
            Ok((PlainUdpKind::Fragment, _, body)) => self.on_fragment(body, now),
            Ok((PlainUdpKind::DiagPing, _, body)) => self.on_ping(peer, body),
            _ => ForwardAction::Ignore,
        }
    }

    fn on_fragment(&mut self, body: &[u8], now: u64) -> (r: ForwardAction)
        requires
            old(self).wf(),
        ensures
            final(self).wf(),
            final(self).config() == old(self).config(),
            fragment_step(old(self)@, body@, now, final(self)@, r@),
    {
        match decode_udp_fragment_body(body) {
            Ok(fragment) => {
                let ghost before = self@;
                let pushed = self.reassembly.push(fragment, now);
                let ghost out = frozen_option(pushed);
                let action = match pushed {
                    Some(frame) => send_to_public(bytes_slice(&frame)),
                    None => ForwardAction::Ignore,
                };
                proof {
                    assert(action@ == (match out {
                        Some(frame) => to_public(frame),
                        None => ForwardStep::Ignore,
                    }));
                    let f = parsed_fragment(body@)->Ok_0;
                    assert(pushes(before.sets, f, now, self@.sets, out) && self@ == (ForwardState {
                        sets: self@.sets,
                        ..before
                    }));
                    assert(fragment_step(before, body@, now, self@, action@));
                }
                action
            },
            Err(_) => ForwardAction::Ignore,
        }
    }

    fn on_ping(&mut self, peer: SocketAddr, body: &[u8]) -> (r: ForwardAction)
        requires
            old(self).wf(),
        ensures
            final(self).wf(),
            final(self).config() == old(self).config(),
            ping_step(old(self).config(), old(self)@, peer, body@, final(self)@, r@),
    {
        self.flush();
        match encode_diag_pong_body(body, &self.diagnostics) {
            Some(pong) => {
                proof {
                    lemma_pong_len(
                        body@,
                        self.diagnostics.public_to_client@.summary(),
                        self.diagnostics.client_to_public@.summary(),
                    );
                }
                let number = next_seq(&mut self.seq);
                match encode_plain_udp(
                    PlainUdpKind::DiagPong,
                    number,
                    bytes_slice(&pong),
                    &self.key,
                ) {
                    Some(packet) => ForwardAction::Reply { dst: peer, packet },
                    None => {
                        assert(false);
                        ForwardAction::Ignore
                    },
                }
            },
            None => ForwardAction::Ignore,
        }
    }

    fn on_public_datagram(&mut self, peer: SocketAddr, data: &[u8]) -> (r: ForwardAction)
        requires
            old(self).wf(),
            data@.len() <= MAX_DATAGRAM,
        ensures
            final(self).wf(),
            final(self).config() == old(self).config(),
            public_datagram_step(
                old(self).config(),
                old(self)@,
                peer,
                data@,
                final(self)@,
                r@,
            ),
    {
        match self.client {
            None => ForwardAction::Ignore,
            Some(client) => {
                let body = encode_udp(peer, data);
                match encode_plain_udp_data_packets(
                    bytes_slice(&body),
                    &self.key,
                    self.udp_mtu,
                    &mut self.seq,
                ) {
                    Ok(packets) => ForwardAction::ToClient {
                        dst: client,
                        packets: packet_list(packets),
                    },
                    Err(_) => ForwardAction::Ignore,
                }
            },
        }
    }
}

/// Send what a frame of the client holds.
fn send_to_public(frame: &[u8]) -> (r: ForwardAction)
    ensures
        r@ == to_public(frame@),
{
    match decode_udp(frame) {
        Ok((dst, data)) => ForwardAction::ToPublic { dst, data: copy_bytes(data) },
        Err(_) => ForwardAction::Ignore,
    }
}

/// The packets of a datagram as a list.
pub fn packet_list(packets: PlainUdpDataPackets) -> (r: Vec<Bytes>)
    ensures
        all_bytes(r@) == packets@,
{
    match packets {
        PlainUdpDataPackets::Single(packet) => {
            let mut list: Vec<Bytes> = Vec::new();
            list.push(packet);
            assert(all_bytes(list@) =~= packets@);
            list
        },
        PlainUdpDataPackets::Fragments(list) => list,
    }
}

proof fn lemma_pong_len(
    ping: Seq<u8>,
    a: Option<crate::diagnostics::LatencySnapshot>,
    b: Option<crate::diagnostics::LatencySnapshot>,
)
    requires
        ping.len() >= 8,
    ensures
        pong_body(ping, a, b).len() == 88,
{
    crate::udp::lemma_snapshot_len(a);
    crate::udp::lemma_snapshot_len(b);
}

/// What comes from the pinned endpoint without the code of the key, and a hello or keepalive from
/// there, goes nowhere and changes nothing.
pub proof fn law_forged_client_packet_does_nothing(
    config: ForwardConfig,
    s: ForwardState,
    client: SocketAddr,
    packet: Seq<u8>,
    now: u64,
    after: ForwardState,
    step: ForwardStep,
)
    requires
        s.client == Some(client),
        forward_step(config, s, client, packet, now, after, step),
        parsed_packet(packet, config.key) is Err || (parsed_packet(packet, config.key) matches Ok(
            (kind, _, _),
        ) && (kind is Hello || kind is Keepalive || kind is DiagPong)),
    ensures
        step is Ignore,
        after == s,
{
}

/// Before a hello nothing goes anywhere.
pub proof fn law_nothing_before_hello(
    config: ForwardConfig,
    s: ForwardState,
    peer: SocketAddr,
    packet: Seq<u8>,
    now: u64,
    after: ForwardState,
    step: ForwardStep,
)
    requires
        s.client is None,
        forward_step(config, s, peer, packet, now, after, step),
    ensures
        step is Ignore,
        after == (ForwardState { client: after.client, ..s }),
{
}

/// Latencies that were collected count in pongs, once they are merged, as if each had been recorded
/// at once.
pub proof fn law_forward_flush_is_exact(
    s: ForwardState,
    to_client: Seq<u64>,
    to_public: Seq<u64>,
)
    requires
        to_client.len() <= u64::MAX,
        to_public.len() <= u64::MAX,
        forall|i: int| 0 <= i < to_client.len() ==> #[trigger] to_client[i] > 0,
        forall|i: int| 0 <= i < to_public.len() ==> #[trigger] to_public[i] > 0,
        s.new_public_to_client == Totals::zero().with_all(to_client),
        s.new_client_to_public == Totals::zero().with_all(to_public),
    ensures
        s.flushed().public_to_client == s.public_to_client.with_all(to_client),
        s.flushed().client_to_public == s.client_to_public.with_all(to_public),
        s.flushed().new_public_to_client == Totals::zero(),
        s.flushed().new_client_to_public == Totals::zero(),
        s.flushed().client == s.client,
        s.flushed().seq == s.seq,
        s.flushed().sets == s.sets,
{
    law_batch_is_exact(s.public_to_client, to_client);
    law_batch_is_exact(s.client_to_public, to_public);
}

/// The answer to a ping takes the next sequence number, which no later packet of the relay has.
pub proof fn law_answer_takes_number(
    config: ForwardConfig,
    s: ForwardState,
    peer: SocketAddr,
    packet: Seq<u8>,
    now: u64,
    after: ForwardState,
    step: ForwardStep,
)
    requires
        forward_step(config, s, peer, packet, now, after, step),
        step is Reply,
    ensures
        s.client == Some(peer),
        step matches ForwardStep::Reply { dst, packet: answer } && dst == peer && (parsed_packet(
            answer,
            config.key,
        ) matches Ok((kind, seq, _)) && kind == PlainUdpKind::DiagPong && seq == s.seq),
        s.seq < u64::MAX ==> after.seq == s.seq + 1,
        after.client == s.client,
        after.sets == s.sets,
{
    if let Ok((kind, _, body)) = parsed_packet(packet, config.key) {
        if kind is DiagPing {
            let flushed = s.flushed();
            law_packet_roundtrip(
                PlainUdpKind::DiagPong,
                s.seq,
                pong_body(
                    body,
                    flushed.public_to_client.summary(),
                    flushed.client_to_public.summary(),
                ),
                config.key,
            );
        } else if kind is Data {
            assert(step == to_public(body));
        }
    }
}

}
