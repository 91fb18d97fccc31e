//! The packets of a UDP relay.
//!
//! A UDP tunnel multiplexes every end-user flow over a single data channel, tagging each
//! datagram with the end-user's address. Plaintext channels carry each tagged datagram in one
//! authenticated packet, or in several fragments when it exceeds the packet size.

use crate::buffer::{
    be, from_be, frozen_bytes, lemma_be_len, lemma_from_be_be, lemma_pow256_widths,
};
use crate::buffer::{be_bytes, bytes_slice, copy_bytes, read_be};
use crate::diagnostics::{LatencySnapshot, LatencyStats, PlainUdpDiagnostics};
use crate::diagnostics::{measured_us, no_report, DiagnosticsView, Totals};
use crate::protocol::{encode_plain_udp, encode_udp_fragment_body, PlainUdpKind};
use crate::protocol::{
    law_fragment_body_roundtrip, law_packet_roundtrip, lemma_packet_len, parsed_fragment,
    parsed_packet, plain_packet, ProtocolError,
};
use crate::protocol::{
    UDP_PLAINTEXT_FRAGMENT_HEADER, UDP_PLAINTEXT_MAX_ENCAPSULATED, UDP_PLAINTEXT_MAX_PACKET,
    UDP_PLAINTEXT_OVERHEAD,
};
use crate::reassembly::{
    concat, fragment_of, law_fragments_reassemble, pushes, stored, SetView, MAX_REASSEMBLY_BYTES,
    MAX_REASSEMBLY_SETS,
};
use bytes::Bytes;
use vstd::prelude::*;
use vstd::slice::slice_subrange;

verus! {

// ---------------------------------------------------------------------------
// Sequence numbers
// ---------------------------------------------------------------------------

/// The sequence number `k` after `seq`; numbers wrap around.
pub open spec fn seq_after(seq: u64, k: nat) -> u64 {
    ((seq + k) % 0x1_0000_0000_0000_0000) as u64
}

/// Take the next sequence number.
pub fn next_seq(seq: &mut u64) -> (r: u64)
    ensures
        r == *old(seq),
        *final(seq) == seq_after(*old(seq), 1),
{
    let out: u64 = *seq;
    *seq = seq.wrapping_add(1);
    out
}

// ---------------------------------------------------------------------------
// Cutting a datagram into fragments
// ---------------------------------------------------------------------------

/// How many pieces of at most `cap` bytes `len` bytes take.
pub open spec fn piece_count(len: nat, cap: nat) -> nat
    recommends
        cap > 0,
{
    ((len + cap - 1) / cap as int) as nat
}

/// Where the `i`-th piece starts.
pub open spec fn piece_start(len: nat, cap: nat, i: int) -> int {
    if i * cap <= len {
        i * cap
    } else {
        len as int
    }
}

/// `body` in pieces of `cap` bytes; the last one may be shorter.
pub open spec fn cut(body: Seq<u8>, cap: nat) -> Seq<Seq<u8>> {
    Seq::new(
        piece_count(body.len(), cap),
        |i: int|
            body.subrange(
                piece_start(body.len(), cap, i),
                piece_start(body.len(), cap, i + 1),
            ),
    )
}

/// The bounds of one piece.
pub proof fn lemma_piece(len: nat, cap: nat, i: int)
    requires
        cap > 0,
        0 <= i < piece_count(len, cap),
    ensures
        0 <= i * cap < len,
        piece_start(len, cap, i) == i * cap,
        i * cap < piece_start(len, cap, i + 1) <= len,
        piece_start(len, cap, i + 1) - i * cap <= cap,
        (i + 1) * cap == i * cap + cap,
        i + 1 == piece_count(len, cap) ==> piece_start(len, cap, i + 1) == len,
        i + 1 < piece_count(len, cap) ==> piece_start(len, cap, i + 1) == i * cap + cap,
{
    let c = cap as int;
    let n = (len + cap - 1) / c;
    assert(n * c <= len + cap - 1 && len + cap - 1 < n * c + c) by (nonlinear_arith)
        requires
            n == (len + cap - 1) / c,
            c == cap,
            c > 0,
    ;
    assert((i + 1) * c == i * c + c) by (nonlinear_arith);
    assert(0 <= i * c) by (nonlinear_arith)
        requires
            0 <= i,
            c > 0,
    ;
    assert((i + 1) * c <= n * c) by (nonlinear_arith)
        requires
            i + 1 <= n,
            c > 0,
    ;
    if i + 1 < n {
        assert((i + 2) * c <= n * c) by (nonlinear_arith)
            requires
                i + 2 <= n,
                c > 0,
        ;
        assert((i + 2) * c == i * c + c + c) by (nonlinear_arith);
    } else {
        assert(i + 1 == n);
    }
}

/// The number of pieces: none for nothing, never more than the bytes, one byte at a time being
/// the finest cut.
pub proof fn lemma_piece_count(len: nat, cap: nat)
    requires
        cap > 0,
    ensures
        piece_count(len, cap) <= len,
        len > 0 ==> piece_count(len, cap) > 0,
        piece_count(len, cap) * cap >= len,
{
    let c = cap as int;
    let n = (len + cap - 1) / c;
    assert(n * c <= len + cap - 1 && len + cap - 1 < n * c + c && n >= 0) by (nonlinear_arith)
        requires
            n == (len + cap - 1) / c,
            c == cap,
            c > 0,
            len >= 0,
    ;
    assert(n <= len) by (nonlinear_arith)
        requires
            n * c <= len + c - 1,
            c > 0,
            len >= 0,
            n >= 0,
    ;
    if len > 0 && n == 0 {
        assert(0 * c == 0);
    }
}

/// The pieces of a body, one after the other, are the body.
pub proof fn lemma_cut_concat(body: Seq<u8>, cap: nat)
    requires
        cap > 0,
    ensures
        concat(cut(body, cap)) == body,
{
    let pieces = cut(body, cap);
    let n = pieces.len() as int;
    lemma_cut_prefix(body, cap, n);
    lemma_piece_count(body.len(), cap);
    assert(pieces.take(n) =~= pieces);
    assert(body.take(body.len() as int) =~= body);
}

proof fn lemma_cut_prefix(body: Seq<u8>, cap: nat, k: int)
    requires
        cap > 0,
        0 <= k <= cut(body, cap).len(),
    ensures
        concat(cut(body, cap).take(k)) == body.take(piece_start(body.len(), cap, k)),
    decreases k,
{
    let pieces = cut(body, cap);
    if k == 0 {
        assert(0 * cap == 0);
        assert(body.take(0) =~= Seq::<u8>::empty());
    } else {
        lemma_cut_prefix(body, cap, k - 1);
        lemma_piece(body.len(), cap, k - 1);
        assert(pieces.take(k).drop_last() =~= pieces.take(k - 1));
        assert(pieces.take(k).last() == pieces[k - 1]);
        assert(concat(pieces.take(k)) =~= body.take(piece_start(body.len(), cap, k)));
    }
}

// ---------------------------------------------------------------------------
// Data packets
// ---------------------------------------------------------------------------

/// Why a datagram cannot be sent.
#[derive(Clone, Copy, Debug, PartialEq, Eq, Structural)]
pub enum PacketError {
    /// The body exceeds the longest encapsulated datagram.
    BodyTooLong,
    /// The packet size exceeds the largest UDP payload.
    MtuTooLarge,
    /// The packet size leaves no room for a fragment.
    MtuTooSmall,
    /// More fragments than an index can count.
    TooManyFragments,
}

/// The packets of one datagram.
pub enum PlainUdpDataPackets {
    Single(Bytes),
    Fragments(Vec<Bytes>),
}

/// The bytes of each buffer.
pub open spec fn all_bytes(v: Seq<Bytes>) -> Seq<Seq<u8>> {
    Seq::new(v.len(), |i: int| frozen_bytes(v[i]))
}

impl View for PlainUdpDataPackets {
    type V = Seq<Seq<u8>>;

    open spec fn view(&self) -> Seq<Seq<u8>> {
        match self {
            PlainUdpDataPackets::Single(packet) => seq![frozen_bytes(*packet)],
            PlainUdpDataPackets::Fragments(packets) => all_bytes(packets@),
        }
    }
}

/// The bytes of a datagram that one fragment carries.
pub open spec fn chunk_capacity(mtu: u16) -> nat {
    (mtu - UDP_PLAINTEXT_OVERHEAD - UDP_PLAINTEXT_FRAGMENT_HEADER) as nat
}

/// Whether a body fits in one packet.
pub open spec fn fits_one_packet(len: nat, mtu: u16) -> bool {
    len <= mtu - UDP_PLAINTEXT_OVERHEAD
}

/// Why a body of `len` bytes cannot be sent in packets of `mtu` bytes, if it cannot.
pub open spec fn data_packet_error(len: nat, mtu: u16) -> Option<PacketError> {
    if len > UDP_PLAINTEXT_MAX_ENCAPSULATED {
        Some(PacketError::BodyTooLong)
    } else if mtu > UDP_PLAINTEXT_MAX_PACKET {
        Some(PacketError::MtuTooLarge)
    } else if mtu <= UDP_PLAINTEXT_OVERHEAD + UDP_PLAINTEXT_FRAGMENT_HEADER {
        Some(PacketError::MtuTooSmall)
    } else if !fits_one_packet(len, mtu) && piece_count(len, chunk_capacity(mtu)) > u16::MAX {
        Some(PacketError::TooManyFragments)
    } else {
        None
    }
}

/// The packet of the `i`-th fragment; the fragments share the id `seq`.
pub open spec fn fragment_packet(
    body: Seq<u8>,
    key: Seq<u8>,
    mtu: u16,
    seq: u64,
    i: int,
) -> Seq<u8> {
    plain_packet(
        PlainUdpKind::Fragment,
        seq_after(seq, (1 + i) as nat),
        fragment_of(seq, cut(body, chunk_capacity(mtu)), i).body(),
        key,
    )
}

/// The packets that carry a body, numbered from `seq` on.
pub open spec fn data_packets(body: Seq<u8>, key: Seq<u8>, mtu: u16, seq: u64) -> Seq<Seq<u8>> {
    if fits_one_packet(body.len(), mtu) {
        seq![plain_packet(PlainUdpKind::Data, seq, body, key)]
    } else {
        Seq::new(
            piece_count(body.len(), chunk_capacity(mtu)),
            |i: int| fragment_packet(body, key, mtu, seq, i),
        )
    }
}

/// The sequence number after those that the packets of a body take.
pub open spec fn seq_after_data(len: nat, mtu: u16, seq: u64) -> u64 {
    if fits_one_packet(len, mtu) {
        seq_after(seq, 1)
    } else {
        seq_after(seq, 1 + piece_count(len, chunk_capacity(mtu)))
    }
}

proof fn lemma_fragment_valid(body: Seq<u8>, mtu: u16, seq: u64, i: int)
    requires
        data_packet_error(body.len(), mtu) is None,
        !fits_one_packet(body.len(), mtu),
        0 <= i < piece_count(body.len(), chunk_capacity(mtu)),
    ensures
        ({
            let f = fragment_of(seq, cut(body, chunk_capacity(mtu)), i);
            &&& f.valid()
            &&& f.fragment_index == i
            &&& f.fragment_count == piece_count(body.len(), chunk_capacity(mtu))
            &&& f.total_len == body.len()
            &&& f.chunk.len() <= chunk_capacity(mtu)
            &&& f.body().len() == UDP_PLAINTEXT_FRAGMENT_HEADER + f.chunk.len()
        }),
{
    let cap = chunk_capacity(mtu);
    let f = fragment_of(seq, cut(body, cap), i);
    lemma_cut_concat(body, cap);
    lemma_piece_count(body.len(), cap);
    lemma_piece(body.len(), cap, i);
    law_fragment_body_roundtrip(f, f.body());
    lemma_be_len(f.fragment_id as nat, 8);
    lemma_be_len(f.fragment_index as nat, 2);
    lemma_be_len(f.fragment_count as nat, 2);
    lemma_be_len(f.total_len as nat, 4);
}

/// No packet of a datagram exceeds the packet size.
pub proof fn law_packets_fit_mtu(body: Seq<u8>, key: Seq<u8>, mtu: u16, seq: u64, i: int)
    requires
        data_packet_error(body.len(), mtu) is None,
        0 <= i < data_packets(body, key, mtu, seq).len(),
    ensures
        data_packets(body, key, mtu, seq)[i].len() <= mtu,
{
    if fits_one_packet(body.len(), mtu) {
        lemma_packet_len(PlainUdpKind::Data, seq, body, key);
    } else {
        let f = fragment_of(seq, cut(body, chunk_capacity(mtu)), i);
        lemma_fragment_valid(body, mtu, seq, i);
        lemma_packet_len(
            PlainUdpKind::Fragment,
            seq_after(seq, (1 + i) as nat),
            f.body(),
            key,
        );
    }
}

/// What the receiver reads in the packets of a datagram: the datagram itself in a single packet,
/// or else, packet by packet, the fragments of a cut of the datagram.
pub proof fn law_packets_carry_datagram(body: Seq<u8>, key: Seq<u8>, mtu: u16, seq: u64)
    requires
        data_packet_error(body.len(), mtu) is None,
    ensures
        fits_one_packet(body.len(), mtu) ==> parsed_packet(
            data_packets(body, key, mtu, seq)[0],
            key,
        ) == Ok::<_, ProtocolError>((PlainUdpKind::Data, seq, body)),
        !fits_one_packet(body.len(), mtu) ==> {
            let parts = cut(body, chunk_capacity(mtu));
            &&& concat(parts) == body
            &&& parts.len() == data_packets(body, key, mtu, seq).len()
            &&& 0 < parts.len() <= u16::MAX
            &&& forall|i: int|
                0 <= i < parts.len() ==> {
                    let f = fragment_of(seq, parts, i);
                    &&& parsed_packet(#[trigger] data_packets(body, key, mtu, seq)[i], key)
                        == Ok::<_, ProtocolError>(
                        (PlainUdpKind::Fragment, seq_after(seq, (1 + i) as nat), f.body()),
                    )
                    &&& parsed_fragment(f.body()) == Ok::<_, ProtocolError>(f)
                }
        },
{
    if fits_one_packet(body.len(), mtu) {
        law_packet_roundtrip(PlainUdpKind::Data, seq, body, key);
    } else {
        let cap = chunk_capacity(mtu);
        let parts = cut(body, cap);
        lemma_cut_concat(body, cap);
        lemma_piece_count(body.len(), cap);
        assert forall|i: int| 0 <= i < parts.len() implies {
            let f = fragment_of(seq, parts, i);
            &&& parsed_packet(#[trigger] data_packets(body, key, mtu, seq)[i], key) == Ok::<
                _,
                ProtocolError,
            >((PlainUdpKind::Fragment, seq_after(seq, (1 + i) as nat), f.body()))
            &&& parsed_fragment(f.body()) == Ok::<_, ProtocolError>(f)
        } by {
            let f = fragment_of(seq, parts, i);
            lemma_fragment_valid(body, mtu, seq, i);
            law_fragment_body_roundtrip(f, f.body());
            law_packet_roundtrip(
                PlainUdpKind::Fragment,
                seq_after(seq, (1 + i) as nat),
                f.body(),
                key,
            );
        }
    }
}

/// A fragmented datagram comes out whole at the other end: the packets of the datagram, decoded
/// under the same key and pushed into a reassembler in any order, complete exactly that datagram
/// with the last packet. The sets `m` that the reassembler held before must leave room for it.
pub proof fn law_datagram_survives_fragmentation(
    m: Map<u64, SetView>,
    body: Seq<u8>,
    key: Seq<u8>,
    mtu: u16,
    seq: u64,
    order: Seq<int>,
    times: Seq<u64>,
    states: Seq<Map<u64, SetView>>,
    outs: Seq<Option<Seq<u8>>>,
)
    requires
        data_packet_error(body.len(), mtu) is None,
        !fits_one_packet(body.len(), mtu),
        m.dom().finite(),
        m.dom().len() < MAX_REASSEMBLY_SETS,
        !m.contains_key(seq),
        stored(m) + body.len() <= MAX_REASSEMBLY_BYTES,
        order.len() == data_packets(body, key, mtu, seq).len(),
        order.no_duplicates(),
        forall|k: int| 0 <= k < order.len() ==> 0 <= #[trigger] order[k] < order.len(),
        times.len() == order.len(),
        outs.len() == order.len(),
        states.len() == order.len() + 1,
        states[0] == m,
        forall|k: int|
            0 <= k < order.len() ==> pushes(
                states[k],
                parsed_fragment(
                    parsed_packet(
                        data_packets(body, key, mtu, seq)[#[trigger] order[k]],
                        key,
                    )->Ok_0.2,
                )->Ok_0,
                times[k],
                states[k + 1],
                outs[k],
            ),
    ensures
        outs.last() == Some(body),
        forall|k: int| 0 <= k < outs.len() - 1 ==> (#[trigger] outs[k]) is None,
        states.last() == m,
{
    law_packets_carry_datagram(body, key, mtu, seq);
    let parts = cut(body, chunk_capacity(mtu));
    assert forall|k: int| 0 <= k < order.len() implies pushes(
        states[k],
        fragment_of(seq, parts, #[trigger] order[k]),
        times[k],
        states[k + 1],
        outs[k],
    ) by {
        let i = order[k];
        let f = fragment_of(seq, parts, i);
        assert(parsed_packet(data_packets(body, key, mtu, seq)[i], key) == Ok::<_, ProtocolError>(
            (PlainUdpKind::Fragment, seq_after(seq, (1 + i) as nat), f.body()),
        ));
    }
    law_fragments_reassemble(m, seq, parts, order, times, states, outs);
}

/// The packets that carry an encapsulated datagram, none longer than `udp_mtu`. Each takes a
/// sequence number; a fragmented datagram takes one more, the id of its fragments.
pub fn encode_plain_udp_data_packets(
    body: &[u8],
    key: &[u8; 32],
    udp_mtu: u16,
    seq: &mut u64,
) -> (r: Result<PlainUdpDataPackets, PacketError>)
    ensures
        match r {
            Ok(packets) => {
                &&& data_packet_error(body@.len(), udp_mtu) is None
                &&& (packets is Single <==> fits_one_packet(body@.len(), udp_mtu))
                &&& packets@ == data_packets(body@, key@, udp_mtu, *old(seq))
                &&& *final(seq) == seq_after_data(body@.len(), udp_mtu, *old(seq))
            },
            Err(e) => {
                &&& data_packet_error(body@.len(), udp_mtu) == Some(e)
                &&& *final(seq) == *old(seq)
            },
        },
{
    if body.len() > UDP_PLAINTEXT_MAX_ENCAPSULATED {
        return Err(PacketError::BodyTooLong);
    }
    let mtu: usize = udp_mtu as usize;
    if mtu > UDP_PLAINTEXT_MAX_PACKET {
        return Err(PacketError::MtuTooLarge);
    }
    if mtu <= UDP_PLAINTEXT_OVERHEAD + UDP_PLAINTEXT_FRAGMENT_HEADER {
        return Err(PacketError::MtuTooSmall);
    }
    let ghost first = *seq;
    if body.len() <= mtu - UDP_PLAINTEXT_OVERHEAD {
        let number = next_seq(seq);
        match encode_plain_udp(PlainUdpKind::Data, number, body, key) {
            Some(packet) => {
                let packets = PlainUdpDataPackets::Single(packet);
                assert(packets@ =~= data_packets(body@, key@, udp_mtu, first));
                return Ok(packets);
            },
            None => {
                assert(false);
            },
        }
    }
    let capacity: usize = mtu - UDP_PLAINTEXT_OVERHEAD - UDP_PLAINTEXT_FRAGMENT_HEADER;
    let count: usize = (body.len() + capacity - 1) / capacity;
    assert(count == piece_count(body@.len(), chunk_capacity(udp_mtu)));
    if count > u16::MAX as usize {
        return Err(PacketError::TooManyFragments);
    }
    let fragment_id = next_seq(seq);
    let mut packets: Vec<Bytes> = Vec::new();
    let mut index: usize = 0;
    let mut start: usize = 0;
    while index < count
        invariant
            fragment_id == first,
            capacity == chunk_capacity(udp_mtu),
            0 < capacity <= UDP_PLAINTEXT_MAX_PACKET,
            body@.len() <= UDP_PLAINTEXT_MAX_ENCAPSULATED,
            data_packet_error(body@.len(), udp_mtu) is None,
            !fits_one_packet(body@.len(), udp_mtu),
            index <= count <= u16::MAX,
            count == piece_count(body@.len(), capacity as nat),
            start == piece_start(body@.len(), capacity as nat, index as int),
            *seq == seq_after(first, 1 + index as nat),
            packets@.len() == index,
            forall|i: int|
                0 <= i < index ==> frozen_bytes(#[trigger] packets@[i]) == fragment_packet(
                    body@,
                    key@,
                    udp_mtu,
                    first,
                    i,
                ),
        decreases count - index,
    {
        let ghost f = fragment_of(first, cut(body@, capacity as nat), index as int);
        proof {
            lemma_piece(body@.len(), capacity as nat, index as int);
            lemma_fragment_valid(body@, udp_mtu, first, index as int);
        }
        let end: usize = if body.len() - start <= capacity {
            body.len()
        } else {
            start + capacity
        };
        let chunk = slice_subrange(body, start, end);
        assert(chunk@ == f.chunk);
        match encode_udp_fragment_body(
            fragment_id,
            index as u16,
            count as u16,
            body.len() as u32,
            chunk,
        ) {
            Some(fragment_body) => {
                let number = next_seq(seq);
                match encode_plain_udp(
                    PlainUdpKind::Fragment,
                    number,
                    bytes_slice(&fragment_body),
                    key,
                ) {
                    Some(packet) => {
                        packets.push(packet);
                    },
                    None => {
                        assert(false);
                    },
                }
            },
            None => {
                assert(false);
            },
        }
        start = end;
        index += 1;
    }
    let packets = PlainUdpDataPackets::Fragments(packets);
    assert(packets@ =~= data_packets(body@, key@, udp_mtu, first));
    Ok(packets)
}

// ---------------------------------------------------------------------------
// Diagnostic pings and pongs
// ---------------------------------------------------------------------------

/// The bytes of a ping: the time at which it was sent.
pub const DIAG_TIMESTAMP_BYTES: usize = 8;

/// The bytes of a latency summary.
pub const DIAG_SNAPSHOT_BYTES: usize = 5 * 8;

/// The bytes of a pong: the time of the ping and two summaries.
pub const DIAG_PONG_BYTES: usize = DIAG_TIMESTAMP_BYTES + DIAG_SNAPSHOT_BYTES * 2;

/// What the server measures on a plaintext UDP tunnel.
pub struct PlainUdpServerDiagnostics {
    pub public_to_client: LatencyStats,
    pub client_to_public: LatencyStats,
}

impl Default for PlainUdpServerDiagnostics {
    fn default() -> (r: PlainUdpServerDiagnostics)
        ensures
            r.public_to_client@ == Totals::zero(),
            r.client_to_public@ == Totals::zero(),
    {
        PlainUdpServerDiagnostics {
            public_to_client: LatencyStats::default(),
            client_to_public: LatencyStats::default(),
        }
    }
}

/// The five numbers of a summary; zeros when there is none.
pub open spec fn snapshot_fields(snapshot: Option<LatencySnapshot>) -> LatencySnapshot {
    match snapshot {
        Some(s) => s,
        None => no_report(),
    }
}

/// The bytes of a summary.
pub open spec fn snapshot_bytes(snapshot: Option<LatencySnapshot>) -> Seq<u8> {
    let s = snapshot_fields(snapshot);
    be(s.samples as nat, 8) + be(s.last_us as nat, 8) + be(s.avg_us as nat, 8) + be(
        s.min_us as nat,
        8,
    ) + be(s.max_us as nat, 8)
}

/// The body of the pong that answers a ping.
pub open spec fn pong_body(
    ping_body: Seq<u8>,
    public_to_client: Option<LatencySnapshot>,
    client_to_public: Option<LatencySnapshot>,
) -> Seq<u8> {
    ping_body.take(8) + snapshot_bytes(public_to_client) + snapshot_bytes(client_to_public)
}

/// The number in the eight bytes at `offset`.
pub open spec fn u64_at(body: Seq<u8>, offset: int) -> Option<u64> {
    if 0 <= offset && offset + 8 <= body.len() {
        Some(from_be(body.subrange(offset, offset + 8)) as u64)
    } else {
        None
    }
}

/// The numbers of the summary at `offset`.
pub open spec fn snapshot_at(body: Seq<u8>, offset: int) -> LatencySnapshot {
    LatencySnapshot {
        samples: u64_at(body, offset)->0,
        last_us: u64_at(body, offset + 8)->0,
        avg_us: u64_at(body, offset + 16)->0,
        min_us: u64_at(body, offset + 24)->0,
        max_us: u64_at(body, offset + 32)->0,
    }
}

/// The summary at `offset`; one that counts nothing is none.
pub open spec fn parsed_snapshot(body: Seq<u8>, offset: int) -> Option<Option<LatencySnapshot>> {
    if offset + DIAG_SNAPSHOT_BYTES > body.len() {
        None
    } else if snapshot_at(body, offset).samples == 0 {
        Some(None)
    } else {
        Some(Some(snapshot_at(body, offset)))
    }
}

/// The summary that a mirror holds after the summary at `offset` was stored in it.
pub open spec fn mirrored(body: Seq<u8>, offset: int) -> LatencySnapshot {
    snapshot_fields(parsed_snapshot(body, offset)->0)
}

/// The microseconds from `sent_us` to `now_us`, or none when the clock reads earlier.
pub open spec fn since(now_us: u64, sent_us: u64) -> u64 {
    if now_us >= sent_us {
        (now_us - sent_us) as u64
    } else {
        0
    }
}

/// The length of a summary.
pub proof fn lemma_snapshot_len(snapshot: Option<LatencySnapshot>)
    ensures
        snapshot_bytes(snapshot).len() == DIAG_SNAPSHOT_BYTES,
{
    lemma_snapshot_roundtrip(Seq::empty(), snapshot, Seq::empty());
}

proof fn lemma_snapshot_roundtrip(
    left: Seq<u8>,
    snapshot: Option<LatencySnapshot>,
    right: Seq<u8>,
)
    ensures
        snapshot_bytes(snapshot).len() == DIAG_SNAPSHOT_BYTES,
        snapshot_at(left + snapshot_bytes(snapshot) + right, left.len() as int)
            == snapshot_fields(snapshot),
{
    let s = snapshot_fields(snapshot);
    let body = left + snapshot_bytes(snapshot) + right;
    let n = left.len() as int;
    lemma_pow256_widths();
    lemma_from_be_be(s.samples as nat, 8);
    lemma_from_be_be(s.last_us as nat, 8);
    lemma_from_be_be(s.avg_us as nat, 8);
    lemma_from_be_be(s.min_us as nat, 8);
    lemma_from_be_be(s.max_us as nat, 8);
    assert(body.subrange(n, n + 8) =~= be(s.samples as nat, 8));
    assert(body.subrange(n + 8, n + 16) =~= be(s.last_us as nat, 8));
    assert(body.subrange(n + 16, n + 24) =~= be(s.avg_us as nat, 8));
    assert(body.subrange(n + 24, n + 32) =~= be(s.min_us as nat, 8));
    assert(body.subrange(n + 32, n + 40) =~= be(s.max_us as nat, 8));
}

/// A pong carries the time of its ping and both summaries of the server.
pub proof fn law_pong_carries_snapshots(
    sent_us: u64,
    public_to_client: Option<LatencySnapshot>,
    client_to_public: Option<LatencySnapshot>,
)
    requires
        public_to_client matches Some(s) ==> s.samples > 0,
        client_to_public matches Some(s) ==> s.samples > 0,
    ensures
        ({
            let body = pong_body(be(sent_us as nat, 8), public_to_client, client_to_public);
            &&& body.len() == DIAG_PONG_BYTES
            &&& u64_at(body, 0) == Some(sent_us)
            &&& parsed_snapshot(body, 8) == Some(public_to_client)
            &&& parsed_snapshot(body, 48) == Some(client_to_public)
        }),
{
    let ping = be(sent_us as nat, 8);
    let (a, b) = (snapshot_bytes(public_to_client), snapshot_bytes(client_to_public));
    let body = pong_body(ping, public_to_client, client_to_public);
    lemma_pow256_widths();
    lemma_from_be_be(sent_us as nat, 8);
    assert(ping.take(8) =~= ping);
    assert(body.subrange(0, 8) =~= ping);
    lemma_snapshot_roundtrip(ping, public_to_client, b);
    lemma_snapshot_roundtrip(ping + a, client_to_public, Seq::empty());
    assert(body =~= (ping + a) + b + Seq::<u8>::empty());
}

/// The body of a ping sent at `sent_us`.
pub fn encode_diag_ping_body(sent_us: u64) -> (r: Bytes)
    ensures
        frozen_bytes(r) == be(sent_us as nat, 8),
{
    let bytes = be_bytes(sent_us as u128, 8);
    copy_bytes(&bytes)
}

/// Append the bytes of a summary.
pub fn append_latency_snapshot(out: &mut Vec<u8>, snapshot: Option<LatencySnapshot>)
    ensures
        final(out)@ == old(out)@ + snapshot_bytes(snapshot),
{
    let s = match snapshot {
        Some(s) => s,
        None => LatencySnapshot { samples: 0, last_us: 0, avg_us: 0, min_us: 0, max_us: 0 },
    };
    out.append(&mut be_bytes(s.samples as u128, 8));
    out.append(&mut be_bytes(s.last_us as u128, 8));
    out.append(&mut be_bytes(s.avg_us as u128, 8));
    out.append(&mut be_bytes(s.min_us as u128, 8));
    out.append(&mut be_bytes(s.max_us as u128, 8));
    assert(out@ =~= old(out)@ + snapshot_bytes(snapshot));
}

/// The body of the pong that answers a ping; a ping without a time gets none.
pub fn encode_diag_pong_body(ping_body: &[u8], diagnostics: &PlainUdpServerDiagnostics) -> (r:
    Option<Bytes>)
    ensures
        r is Some <==> ping_body@.len() >= DIAG_TIMESTAMP_BYTES,
        r matches Some(bytes) ==> frozen_bytes(bytes) == pong_body(
            ping_body@,
            diagnostics.public_to_client@.summary(),
            diagnostics.client_to_public@.summary(),
        ),
{
    if ping_body.len() < DIAG_TIMESTAMP_BYTES {
        return None;
    }
    let mut out: Vec<u8> = Vec::new();
    out.extend_from_slice(slice_subrange(ping_body, 0, DIAG_TIMESTAMP_BYTES));
    assert(out@ =~= ping_body@.take(8));
    append_latency_snapshot(&mut out, diagnostics.public_to_client.snapshot());
    append_latency_snapshot(&mut out, diagnostics.client_to_public.snapshot());
    Some(copy_bytes(&out))
}

/// The number in the eight bytes at `offset`, if they are there.
pub fn read_u64(body: &[u8], offset: usize) -> (r: Option<u64>)
    ensures
        r == u64_at(body@, offset as int),
{
    if body.len() < 8 || offset > body.len() - 8 {
        return None;
    }
    proof {
        lemma_pow256_widths();
    }
    Some(read_be(slice_subrange(body, offset, offset + 8)) as u64)
}

/// The summary at `offset`, if its bytes are there.
pub fn decode_latency_snapshot(body: &[u8], offset: usize) -> (r: Option<Option<LatencySnapshot>>)
    ensures
        r == parsed_snapshot(body@, offset as int),
{
    if offset > body.len() || body.len() - offset < DIAG_SNAPSHOT_BYTES {
        return None;
    }
    match (
        read_u64(body, offset),
        read_u64(body, offset + 8),
        read_u64(body, offset + 16),
        read_u64(body, offset + 24),
        read_u64(body, offset + 32),
    ) {
        (Some(samples), Some(last_us), Some(avg_us), Some(min_us), Some(max_us)) => {
            if samples == 0 {
                return Some(None);
            }
            Some(Some(LatencySnapshot { samples, last_us, avg_us, min_us, max_us }))
        },
        _ => None,
    }
}

/// The diagnostics after the body of a pong that arrived at `now_us`.
pub open spec fn pong_recorded(d: DiagnosticsView, body: Seq<u8>, now_us: u64) -> DiagnosticsView {
    match u64_at(body, 0) {
        None => d,
        Some(sent_us) => {
            let rtt = d.rtt.with(measured_us(since(now_us, sent_us) as u128));
            if body.len() < DIAG_PONG_BYTES {
                DiagnosticsView { rtt, ..d }
            } else {
                DiagnosticsView {
                    rtt,
                    server_public_to_client: mirrored(body, 8),
                    server_client_to_public: mirrored(body, 48),
                    ..d
                }
            }
        },
    }
}

/// Take the body of a pong into account, `now_us` being the time on the clock that stamped the
/// ping. A body without a time is ignored; one that is too short for the summaries leaves them.
pub fn record_diag_pong(body: &[u8], now_us: u64, diagnostics: &mut PlainUdpDiagnostics)
    ensures
        final(diagnostics)@ == pong_recorded(old(diagnostics)@, body@, now_us),
{
    let sent_us = match read_u64(body, 0) {
        Some(v) => v,
        None => {
            return;
        },
    };
    diagnostics.rtt.record(now_us.saturating_sub(sent_us) as u128);
    if body.len() < DIAG_PONG_BYTES {
        return;
    }
    match decode_latency_snapshot(body, DIAG_TIMESTAMP_BYTES) {
        Some(snapshot) => diagnostics.server_public_to_client.store(snapshot),
        None => {},
    }
    match decode_latency_snapshot(body, DIAG_TIMESTAMP_BYTES + DIAG_SNAPSHOT_BYTES) {
        Some(snapshot) => diagnostics.server_client_to_public.store(snapshot),
        None => {},
    }
}

/// A datagram that fits goes in one packet, thirty bytes longer than its encapsulation. A longer
/// one goes in packets that are all as long as the packet size allows, but for the last one.
pub proof fn law_packets_are_filled(body: Seq<u8>, key: Seq<u8>, mtu: u16, seq: u64)
    requires
        data_packet_error(body.len(), mtu) is None,
    ensures
        ({
            let packets = data_packets(body, key, mtu, seq);
            &&& body.len() + 30 <= mtu ==> packets.len() == 1 && packets[0].len() == body.len() + 30
            &&& body.len() + 30 > mtu ==> packets.len() > 1 && forall|i: int|
                0 <= i < packets.len() - 1 ==> (#[trigger] packets[i]).len() == mtu
        }),
{
    let packets = data_packets(body, key, mtu, seq);
    if body.len() + 30 <= mtu {
        lemma_packet_len(PlainUdpKind::Data, seq, body, key);
    } else {
        let cap = chunk_capacity(mtu);
        lemma_piece_count(body.len(), cap);
        if packets.len() <= 1 {
            assert(piece_count(body.len(), cap) * cap <= 1 * cap) by (nonlinear_arith)
                requires
                    piece_count(body.len(), cap) <= 1,
            ;
        }
        assert forall|i: int| 0 <= i < packets.len() - 1 implies (#[trigger] packets[i]).len()
            == mtu by {
            let f = fragment_of(seq, cut(body, cap), i);
            lemma_piece(body.len(), cap, i);
            lemma_fragment_valid(body, mtu, seq, i);
            lemma_packet_len(PlainUdpKind::Fragment, seq_after(seq, (1 + i) as nat), f.body(), key);
        }
    }
}

/// Which datagrams can be sent: those of at most 65535 bytes with their header of at most 19, in
/// packets that hold more than the 46 bytes of a fragment's headers and no more than UDP carries.
/// At the packet sizes that a tunnel may have, every such datagram can.
pub proof fn law_datagrams_that_go(len: nat, mtu: u16)
    ensures
        len > 65_554 ==> data_packet_error(len, mtu) == Some(PacketError::BodyTooLong),
        len <= 65_554 && mtu > 65_507 ==> data_packet_error(len, mtu) == Some(
            PacketError::MtuTooLarge,
        ),
        len <= 65_554 && mtu <= 46 ==> data_packet_error(len, mtu) == Some(
            PacketError::MtuTooSmall,
        ),
        len <= 65_554 && 47 < mtu <= 65_507 ==> data_packet_error(len, mtu) is None,
        data_packet_error(len, mtu) == Some(PacketError::TooManyFragments) ==> mtu == 47 && len
            > 65_535,
{
    if len <= 65_554 && 46 < mtu <= 65_507 {
        let cap = chunk_capacity(mtu) as int;
        let n = piece_count(len, cap as nat) as int;
        lemma_piece_count(len, cap as nat);
        assert(cap >= 2 ==> n <= 40_000) by (nonlinear_arith)
            requires
                n == (len + cap - 1) / cap,
                len <= 65_554,
                0 < cap < 65_536,
        ;
    }
}

/// What the client learns from the pong of its ping: the time since the ping, and the summaries
/// that the server had, or that it had none. A pong too short for summaries tells the time alone,
/// and one too short for that tells nothing. Its own measurements stay as they are.
pub proof fn law_pong_tells(
    d: DiagnosticsView,
    sent_us: u64,
    now_us: u64,
    public_to_client: Option<LatencySnapshot>,
    client_to_public: Option<LatencySnapshot>,
    short: Seq<u8>,
)
    requires
        sent_us < now_us,
        public_to_client matches Some(s) ==> s.samples > 0,
        client_to_public matches Some(s) ==> s.samples > 0,
    ensures
        ({
            let body = pong_body(be(sent_us as nat, 8), public_to_client, client_to_public);
            let after = pong_recorded(d, body, now_us);
            &&& after.rtt == d.rtt.with((now_us - sent_us) as u64)
            &&& public_to_client matches Some(s) ==> after.server_public_to_client == s
            &&& public_to_client is None ==> after.server_public_to_client.samples == 0
            &&& client_to_public matches Some(s) ==> after.server_client_to_public == s
            &&& client_to_public is None ==> after.server_client_to_public.samples == 0
            &&& after.client_server_to_local == d.client_server_to_local
            &&& after.client_local_to_server == d.client_local_to_server
        }),
        short.len() < 8 ==> pong_recorded(d, short, now_us) == d,
        8 <= short.len() < 88 && short.take(8) == be(sent_us as nat, 8) ==> pong_recorded(
            d,
            short,
            now_us,
        ) == (DiagnosticsView { rtt: d.rtt.with((now_us - sent_us) as u64), ..d }),
{
    law_pong_carries_snapshots(sent_us, public_to_client, client_to_public);
    lemma_pow256_widths();
    lemma_from_be_be(sent_us as nat, 8);
    if 8 <= short.len() {
        assert(short.subrange(0, 8) =~= short.take(8));
    }
}

/// Sequence numbers go up one by one and start over after the largest one. Packets that are sent one after
/// the other have different numbers.
pub proof fn law_numbers_advance(seq: u64, k: nat, j: nat)
    requires
        k <= u64::MAX,
        j <= u64::MAX,
    ensures
        seq + k <= u64::MAX ==> seq_after(seq, k) == seq + k,
        seq + k > u64::MAX ==> seq_after(seq, k) == seq + k - 0x1_0000_0000_0000_0000,
        seq_after(seq, k) == seq_after(seq, j) ==> k == j,
        seq_after(seq, 0) == seq,
{
}

}
