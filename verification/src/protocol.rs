//! Wire protocol shared by client and server.
//!
//! Control and encrypted data connections use length-delimited frames (4-byte big-endian
//! length prefix). Control frames hold one [`ClientMessage`] or [`ServerMessage`]; UDP data
//! frames are the compact binary encoding produced by [`encode_udp`]. Plaintext UDP data
//! channels use authenticated `PTHU` packets with optional fragmentation.

use crate::addr::{IpAddr, SocketAddr};
use crate::buffer::{
    advance, buffer_slice, copy_bytes, freeze, new_buffer, put_slice, put_u16, put_u32, put_u64,
    put_u8, read_be,
};
use crate::buffer::{
    be, buffer_bytes, fits_buffer, from_be, frozen_bytes, frozen_option, lemma_be_from_be,
    lemma_be_len, lemma_from_be_be, lemma_from_be_bound, lemma_pow256_widths,
};
use crate::crypto::{base64_decode, base64_encode, ct_eq, hmac_code};
use crate::crypto::{base64url, hmac_sha256, lemma_base64url_chars, lemma_base64url_injective};
use crate::text::{ascii_lowercase, chars_eq_str, chars_of, string_of, trim_chars};
use crate::text::{ascii_lowered, lemma_trimmed_padded, spec_is_whitespace, trimmed};
use bytes::{Bytes, BytesMut};
use vstd::prelude::*;
use vstd::slice::slice_subrange;

verus! {

// ---------------------------------------------------------------------------
// Constants (defaults; several are overridable via config)
// ---------------------------------------------------------------------------

pub const DEFAULT_CONTROL_PORT: u16 = 7835;

pub const DEFAULT_WEB_BIND: &'static str = "127.0.0.1:4040";

/// Max length-delimited frame. Must exceed the largest UDP datagram (65535 bytes) plus the
/// 19-byte address header, or a maximum-size datagram would be rejected by the codec and tear
/// down the whole channel. 64 KiB + slack covers it; control messages are tiny.
pub const MAX_FRAME: usize = 64 * 1024 + 256;

/// Seconds to wait for a network operation.
pub const NETWORK_TIMEOUT: u64 = 3;

/// Seconds between two heartbeats.
pub const HEARTBEAT_INTERVAL: u64 = 5;

/// Seconds of silence after which a peer counts as gone.
pub const LIVENESS_TIMEOUT: u64 = 15;

/// Seconds that an accepted public connection waits for its data connection.
pub const ACCEPT_TIMEOUT: u64 = 10;

/// Seconds of inactivity after which a UDP flow is dropped.
pub const UDP_IDLE_TIMEOUT: u64 = 60;

/// Seconds between two keepalive packets of a plaintext UDP channel.
pub const UDP_PLAINTEXT_KEEPALIVE: u64 = 5;

/// Seconds between two diagnostic pings of a plaintext UDP channel.
pub const UDP_DIAGNOSTICS_INTERVAL: u64 = 1;

/// Default native UDP relay packet size, excluding outer IP/UDP headers.
pub const DEFAULT_UDP_MTU: u16 = 1200;

pub const MIN_UDP_MTU: u16 = 256;

/// Maximum UDP payload size for an IPv4 datagram.
pub const MAX_UDP_MTU: u16 = 65_507;

pub const UDP_PLAINTEXT_MAX_PACKET: usize = 65_507;

pub const UDP_PLAINTEXT_OVERHEAD: usize = 4 + 1 + 1 + 8 + 16;

pub const UDP_PLAINTEXT_MAX_BODY: usize = UDP_PLAINTEXT_MAX_PACKET - UDP_PLAINTEXT_OVERHEAD;

pub const UDP_PLAINTEXT_FRAGMENT_HEADER: usize = 8 + 2 + 2 + 4;

pub const UDP_PLAINTEXT_MAX_ENCAPSULATED: usize = 65_535 + 19;

pub const UDP_PLAINTEXT_VERSION: u8 = 1;

pub const UDP_PLAINTEXT_TAG: usize = 16;

// ---------------------------------------------------------------------------
// Errors
// ---------------------------------------------------------------------------

/// Why a text, a frame or a packet was refused.
#[derive(Clone, Debug, PartialEq, Eq)]
pub enum ProtocolError {
    /// No protocol has this (lower-cased) name.
    InvalidProtocol { name: String },
    EmptyUdpFrame,
    ShortIpv4UdpFrame,
    ShortIpv6UdpFrame,
    InvalidUdpFamily { family: u8 },
    ShortFragment,
    ZeroFragmentCount,
    FragmentIndexOutOfRange,
    ZeroFragmentTotal,
    FragmentTotalTooLarge,
    FragmentCountExceedsTotal,
    FragmentChunkExceedsTotal,
    ShortPacket,
    BadMagic,
    BadVersion,
    BadTag,
    InvalidPacketKind { code: u8 },
    AuthKeyNotBase64,
    AuthKeyLength,
    /// An outgoing message exceeds the largest frame.
    MessageTooLong,
}

// ---------------------------------------------------------------------------
// Protocol type
// ---------------------------------------------------------------------------

#[derive(Debug, Clone, Copy, PartialEq, Eq, Structural)]
pub enum Proto {
    Tcp,
    Udp,
    Both,
}

impl Proto {
    pub open spec fn spec_has_tcp(self) -> bool {
        self is Tcp || self is Both
    }

    pub open spec fn spec_has_udp(self) -> bool {
        self is Udp || self is Both
    }

    /// The name of the protocol.
    pub open spec fn spec_name(self) -> Seq<char> {
        match self {
            Proto::Tcp => "tcp"@,
            Proto::Udp => "udp"@,
            Proto::Both => "both"@,
        }
    }

    pub fn has_tcp(self) -> (r: bool)
        ensures
            r == self.spec_has_tcp(),
    {
        matches!(self, Proto::Tcp | Proto::Both)
    }

    pub fn has_udp(self) -> (r: bool)
        ensures
            r == self.spec_has_udp(),
    {
        matches!(self, Proto::Udp | Proto::Both)
    }

    /// The name of the protocol.
    pub fn to_string(&self) -> (r: String)
        ensures
            r@ == self.spec_name(),
    {
        match self {
            Proto::Tcp => "tcp".to_string(),
            Proto::Udp => "udp".to_string(),
            Proto::Both => "both".to_string(),
        }
    }

    /// The protocol that a name stands for, in any ASCII case.
    pub fn parse_chars(s: &[char]) -> (r: Result<Proto, ProtocolError>)
        ensures
            match r {
                Ok(proto) => ascii_lowered(s@) == proto.spec_name(),
                Err(e) => e matches ProtocolError::InvalidProtocol { name } && name@
                    == ascii_lowered(s@) && forall|p: Proto| ascii_lowered(s@) != #[trigger]
                    p.spec_name(),
            },
    {
        let lower = ascii_lowercase(s);
        if chars_eq_str(&lower, "tcp") {
            Ok(Proto::Tcp)
        } else if chars_eq_str(&lower, "udp") {
            Ok(Proto::Udp)
        } else if chars_eq_str(&lower, "both") {
            Ok(Proto::Both)
        } else {
            Err(ProtocolError::InvalidProtocol { name: string_of(&lower) })
        }
    }
}

impl std::str::FromStr for Proto {
    type Err = ProtocolError;

    fn from_str(s: &str) -> (r: Result<Proto, ProtocolError>)
        ensures
            match r {
                Ok(proto) => ascii_lowered(s@) == proto.spec_name(),
                Err(e) => e matches ProtocolError::InvalidProtocol { name } && name@
                    == ascii_lowered(s@) && forall|p: Proto| ascii_lowered(s@) != #[trigger]
                    p.spec_name(),
            },
    {
        Proto::parse_chars(&chars_of(s))
    }
}

/// The name of every protocol parses back to it.
pub proof fn lemma_proto_names(a: Proto, b: Proto)
    ensures
        ascii_lowered(a.spec_name()) == a.spec_name(),
        a.spec_name() == b.spec_name() ==> a == b,
{
    reveal_strlit("tcp");
    reveal_strlit("udp");
    reveal_strlit("both");
    assert(ascii_lowered(a.spec_name()) =~= a.spec_name());
    if a.spec_name() == b.spec_name() {
        assert(a.spec_name()[0] == b.spec_name()[0]);
    }
}

// ---------------------------------------------------------------------------
// Binary UDP datagram codec: [family u8 (4|6)][ip 4|16][port u16 BE][payload..]
// ---------------------------------------------------------------------------

/// The address header of a UDP frame.
pub open spec fn udp_header(peer: SocketAddr) -> Seq<u8> {
    match peer.spec_ip() {
        IpAddr::V4(ip) => seq![4u8] + be(ip as nat, 4) + be(peer.spec_port() as nat, 2),
        IpAddr::V6(ip) => seq![6u8] + be(ip as nat, 16) + be(peer.spec_port() as nat, 2),
    }
}

/// A UDP frame: the datagram `data` of `peer`.
pub open spec fn udp_frame(peer: SocketAddr, data: Seq<u8>) -> Seq<u8> {
    udp_header(peer) + data
}

/// What a UDP frame holds.
pub open spec fn parsed_udp(buf: Seq<u8>) -> Result<(SocketAddr, Seq<u8>), ProtocolError> {
    if buf.len() == 0 {
        Err(ProtocolError::EmptyUdpFrame)
    } else if buf[0] == 4 {
        if buf.len() < 7 {
            Err(ProtocolError::ShortIpv4UdpFrame)
        } else {
            Ok(
                (
                    SocketAddr::spec_new(
                        IpAddr::V4(from_be(buf.subrange(1, 5)) as u32),
                        from_be(buf.subrange(5, 7)) as u16,
                    ),
                    buf.skip(7),
                ),
            )
        }
    } else if buf[0] == 6 {
        if buf.len() < 19 {
            Err(ProtocolError::ShortIpv6UdpFrame)
        } else {
            Ok(
                (
                    SocketAddr::spec_new(
                        IpAddr::V6(from_be(buf.subrange(1, 17)) as u128),
                        from_be(buf.subrange(17, 19)) as u16,
                    ),
                    buf.skip(19),
                ),
            )
        }
    } else {
        Err(ProtocolError::InvalidUdpFamily { family: buf[0] })
    }
}

/// A frame header takes at most nineteen bytes.
pub proof fn lemma_udp_header_len(peer: SocketAddr)
    ensures
        udp_header(peer).len() == (if peer is V4 { 7int } else { 19 }),
{
    lemma_be_len(peer.spec_port() as nat, 2);
    match peer.spec_ip() {
        IpAddr::V4(ip) => lemma_be_len(ip as nat, 4),
        IpAddr::V6(ip) => lemma_be_len(ip as nat, 16),
    }
}

/// The frame of a datagram holds that datagram and its peer. A frame carries the IP and the port
/// of the peer only, so flow information and scope come back cleared.
pub proof fn law_udp_frame_roundtrip(peer: SocketAddr, data: Seq<u8>)
    ensures
        parsed_udp(udp_frame(peer, data)) == Ok::<_, ProtocolError>((peer.unscoped(), data)),
{
    let frame = udp_frame(peer, data);
    let port = peer.spec_port() as nat;
    lemma_pow256_widths();
    lemma_udp_header_len(peer);
    lemma_from_be_be(port, 2);
    match peer.spec_ip() {
        IpAddr::V4(ip) => {
            lemma_from_be_be(ip as nat, 4);
            assert(frame.subrange(1, 5) =~= be(ip as nat, 4));
            assert(frame.subrange(5, 7) =~= be(port, 2));
            assert(frame.skip(7) =~= data);
        },
        IpAddr::V6(ip) => {
            lemma_from_be_be(ip as nat, 16);
            assert(frame.subrange(1, 17) =~= be(ip as nat, 16));
            assert(frame.subrange(17, 19) =~= be(port, 2));
            assert(frame.skip(19) =~= data);
        },
    }
}

/// Every frame that is accepted is the frame of what it holds: no two frames hold the same
/// datagram.
pub proof fn law_udp_frame_canonical(buf: Seq<u8>)
    requires
        parsed_udp(buf) is Ok,
    ensures
        udp_frame(parsed_udp(buf)->Ok_0.0, parsed_udp(buf)->Ok_0.1) == buf,
{
    lemma_pow256_widths();
    if buf[0] == 4 {
        lemma_from_be_bound(buf.subrange(1, 5));
        lemma_from_be_bound(buf.subrange(5, 7));
        lemma_be_from_be(buf.subrange(1, 5));
        lemma_be_from_be(buf.subrange(5, 7));
    } else {
        lemma_from_be_bound(buf.subrange(1, 17));
        lemma_from_be_bound(buf.subrange(17, 19));
        lemma_be_from_be(buf.subrange(1, 17));
        lemma_be_from_be(buf.subrange(17, 19));
    }
    assert(udp_frame(parsed_udp(buf)->Ok_0.0, parsed_udp(buf)->Ok_0.1) =~= buf);
}

/// The frame that carries the datagram `data` of `peer`.
pub fn encode_udp(peer: SocketAddr, data: &[u8]) -> (r: Bytes)
    requires
        fits_buffer(19 + data@.len()),
    ensures
        frozen_bytes(r) == udp_frame(peer, data@),
{
    proof {
        lemma_udp_header_len(peer);
        lemma_be_len(peer.spec_port() as nat, 2);
    }
    let mut buf = new_buffer(19 + data.len());
    match peer.ip() {
        IpAddr::V4(ip) => {
            put_u8(&mut buf, 4);
            put_u32(&mut buf, ip);
            proof {
                lemma_be_len(ip as nat, 4);
            }
        },
        IpAddr::V6(ip) => {
            put_u8(&mut buf, 6);
            let octets = crate::buffer::be16_bytes(ip);
            put_slice(&mut buf, &octets);
        },
    }
    put_u16(&mut buf, peer.port());
    put_slice(&mut buf, data);
    let r = freeze(buf);
    assert(frozen_bytes(r) =~= udp_frame(peer, data@));
    r
}

/// The peer and the datagram that a frame carries.
pub fn decode_udp(buf: &[u8]) -> (r: Result<(SocketAddr, &[u8]), ProtocolError>)
    ensures
        match r {
            Ok((peer, data)) => parsed_udp(buf@) == Ok::<_, ProtocolError>((peer, data@)),
            Err(e) => parsed_udp(buf@) == Err::<(SocketAddr, Seq<u8>), _>(e),
        },
{
    proof {
        lemma_pow256_widths();
    }
    if buf.len() == 0 {
        return Err(ProtocolError::EmptyUdpFrame);
    }
    let family: u8 = buf[0];
    if family == 4 {
        if buf.len() < 7 {
            return Err(ProtocolError::ShortIpv4UdpFrame);
        }
        let ip: u32 = read_be(slice_subrange(buf, 1, 5)) as u32;
        let port: u16 = read_be(slice_subrange(buf, 5, 7)) as u16;
        let data = slice_subrange(buf, 7, buf.len());
        assert(data@ =~= buf@.skip(7));
        Ok((SocketAddr::new(IpAddr::V4(ip), port), data))
    } else if family == 6 {
        if buf.len() < 19 {
            return Err(ProtocolError::ShortIpv6UdpFrame);
        }
        let ip: u128 = read_be(slice_subrange(buf, 1, 17));
        let port: u16 = read_be(slice_subrange(buf, 17, 19)) as u16;
        let data = slice_subrange(buf, 19, buf.len());
        assert(data@ =~= buf@.skip(19));
        Ok((SocketAddr::new(IpAddr::V6(ip), port), data))
    } else {
        Err(ProtocolError::InvalidUdpFamily { family })
    }
}

// ---------------------------------------------------------------------------
// Authenticated plaintext UDP data packets.
// [magic "PTHU"][version u8][kind u8][seq u64 BE][body..][hmac16]
// ---------------------------------------------------------------------------

#[derive(Debug, Clone, Copy, PartialEq, Eq, Structural)]
pub enum PlainUdpKind {
    Hello,
    Data,
    Keepalive,
    Fragment,
    DiagPing,
    DiagPong,
}

impl PlainUdpKind {
    /// The byte that stands for the kind in a packet.
    pub open spec fn spec_code(self) -> u8 {
        match self {
            PlainUdpKind::Hello => 1,
            PlainUdpKind::Data => 2,
            PlainUdpKind::Keepalive => 3,
            PlainUdpKind::Fragment => 4,
            PlainUdpKind::DiagPing => 5,
            PlainUdpKind::DiagPong => 6,
        }
    }

    /// The kind that a byte stands for.
    pub open spec fn spec_from_code(code: u8) -> Option<PlainUdpKind> {
        if code == 1 {
            Some(PlainUdpKind::Hello)
        } else if code == 2 {
            Some(PlainUdpKind::Data)
        } else if code == 3 {
            Some(PlainUdpKind::Keepalive)
        } else if code == 4 {
            Some(PlainUdpKind::Fragment)
        } else if code == 5 {
            Some(PlainUdpKind::DiagPing)
        } else if code == 6 {
            Some(PlainUdpKind::DiagPong)
        } else {
            None
        }
    }

    pub fn code(self) -> (r: u8)
        ensures
            r == self.spec_code(),
    {
        match self {
            PlainUdpKind::Hello => 1,
            PlainUdpKind::Data => 2,
            PlainUdpKind::Keepalive => 3,
            PlainUdpKind::Fragment => 4,
            PlainUdpKind::DiagPing => 5,
            PlainUdpKind::DiagPong => 6,
        }
    }

    pub fn from_code(code: u8) -> (r: Result<PlainUdpKind, ProtocolError>)
        ensures
            match PlainUdpKind::spec_from_code(code) {
                Some(kind) => r == Ok::<PlainUdpKind, ProtocolError>(kind),
                None => r == Err::<PlainUdpKind, _>(ProtocolError::InvalidPacketKind { code }),
            },
    {
        match code {
            1 => Ok(PlainUdpKind::Hello),
            2 => Ok(PlainUdpKind::Data),
            3 => Ok(PlainUdpKind::Keepalive),
            4 => Ok(PlainUdpKind::Fragment),
            5 => Ok(PlainUdpKind::DiagPing),
            6 => Ok(PlainUdpKind::DiagPong),
            _ => Err(ProtocolError::InvalidPacketKind { code }),
        }
    }
}

/// A kind and its byte stand for each other.
pub proof fn law_packet_kind_codes(kind: PlainUdpKind, code: u8)
    ensures
        PlainUdpKind::spec_from_code(kind.spec_code()) == Some(kind),
        PlainUdpKind::spec_from_code(code) matches Some(k) ==> k.spec_code() == code,
{
}

#[derive(Debug, Clone, Copy, PartialEq, Eq)]
pub struct PlainUdpFragment<'a> {
    pub fragment_id: u64,
    pub fragment_index: u16,
    pub fragment_count: u16,
    pub total_len: u32,
    pub chunk: &'a [u8],
}

/// One fragment of an encapsulated datagram.
pub struct FragmentView {
    pub fragment_id: u64,
    pub fragment_index: u16,
    pub fragment_count: u16,
    pub total_len: u32,
    pub chunk: Seq<u8>,
}

impl<'a> View for PlainUdpFragment<'a> {
    type V = FragmentView;

    open spec fn view(&self) -> FragmentView {
        FragmentView {
            fragment_id: self.fragment_id,
            fragment_index: self.fragment_index,
            fragment_count: self.fragment_count,
            total_len: self.total_len,
            chunk: self.chunk@,
        }
    }
}

impl FragmentView {
    /// Whether the fields are consistent with each other.
    pub open spec fn valid(self) -> bool {
        &&& self.fragment_index < self.fragment_count <= self.total_len
        &&& self.total_len <= UDP_PLAINTEXT_MAX_ENCAPSULATED
        &&& 0 < self.chunk.len() <= self.total_len
    }

    /// The body of the packet that carries the fragment.
    pub open spec fn body(self) -> Seq<u8> {
        be(self.fragment_id as nat, 8) + be(self.fragment_index as nat, 2) + be(
            self.fragment_count as nat,
            2,
        ) + be(self.total_len as nat, 4) + self.chunk
    }
}

/// The fields of a fragment body, whatever they are.
pub open spec fn fragment_fields(body: Seq<u8>) -> FragmentView {
    FragmentView {
        fragment_id: from_be(body.subrange(0, 8)) as u64,
        fragment_index: from_be(body.subrange(8, 10)) as u16,
        fragment_count: from_be(body.subrange(10, 12)) as u16,
        total_len: from_be(body.subrange(12, 16)) as u32,
        chunk: body.skip(16),
    }
}

/// What a fragment body holds.
pub open spec fn parsed_fragment(body: Seq<u8>) -> Result<FragmentView, ProtocolError> {
    let f = fragment_fields(body);
    if body.len() <= UDP_PLAINTEXT_FRAGMENT_HEADER {
        Err(ProtocolError::ShortFragment)
    } else if f.fragment_count == 0 {
        Err(ProtocolError::ZeroFragmentCount)
    } else if f.fragment_index >= f.fragment_count {
        Err(ProtocolError::FragmentIndexOutOfRange)
    } else if f.total_len == 0 {
        Err(ProtocolError::ZeroFragmentTotal)
    } else if f.total_len > UDP_PLAINTEXT_MAX_ENCAPSULATED {
        Err(ProtocolError::FragmentTotalTooLarge)
    } else if f.fragment_count > f.total_len {
        Err(ProtocolError::FragmentCountExceedsTotal)
    } else if f.chunk.len() > f.total_len {
        Err(ProtocolError::FragmentChunkExceedsTotal)
    } else {
        Ok(f)
    }
}

proof fn lemma_fragment_fields_of_body(f: FragmentView)
    ensures
        f.body().len() == UDP_PLAINTEXT_FRAGMENT_HEADER + f.chunk.len(),
        fragment_fields(f.body()) == f,
{
    lemma_pow256_widths();
    lemma_from_be_be(f.fragment_id as nat, 8);
    lemma_from_be_be(f.fragment_index as nat, 2);
    lemma_from_be_be(f.fragment_count as nat, 2);
    lemma_from_be_be(f.total_len as nat, 4);
    let body = f.body();
    assert(body.subrange(0, 8) =~= be(f.fragment_id as nat, 8));
    assert(body.subrange(8, 10) =~= be(f.fragment_index as nat, 2));
    assert(body.subrange(10, 12) =~= be(f.fragment_count as nat, 2));
    assert(body.subrange(12, 16) =~= be(f.total_len as nat, 4));
    assert(body.skip(16) =~= f.chunk);
}

/// The body of a fragment holds that fragment, and a body that is accepted holds a consistent one.
pub proof fn law_fragment_body_roundtrip(f: FragmentView, body: Seq<u8>)
    ensures
        f.valid() <==> parsed_fragment(f.body()) == Ok::<_, ProtocolError>(f),
        parsed_fragment(body) matches Ok(g) ==> g.valid() && g.body() == body,
{
    lemma_fragment_fields_of_body(f);
    if parsed_fragment(body) is Ok {
        let g = fragment_fields(body);
        lemma_pow256_widths();
        lemma_from_be_bound(body.subrange(0, 8));
        lemma_from_be_bound(body.subrange(8, 10));
        lemma_from_be_bound(body.subrange(10, 12));
        lemma_from_be_bound(body.subrange(12, 16));
        lemma_be_from_be(body.subrange(0, 8));
        lemma_be_from_be(body.subrange(8, 10));
        lemma_be_from_be(body.subrange(10, 12));
        lemma_be_from_be(body.subrange(12, 16));
        assert(g.body() =~= body);
    }
}

/// The body that carries a fragment, or nothing when its index, its count, its total length or
/// its chunk can belong to no datagram.
pub fn encode_udp_fragment_body(
    fragment_id: u64,
    fragment_index: u16,
    fragment_count: u16,
    total_len: u32,
    chunk: &[u8],
) -> (r: Option<Bytes>)
    requires
        fits_buffer(UDP_PLAINTEXT_FRAGMENT_HEADER as nat + chunk@.len()),
    ensures
        r is Some <==> fragment_index < fragment_count && 0 < total_len
            <= UDP_PLAINTEXT_MAX_ENCAPSULATED && chunk@.len() > 0,
        r matches Some(bytes) ==> frozen_bytes(bytes) == (FragmentView {
            fragment_id,
            fragment_index,
            fragment_count,
            total_len,
            chunk: chunk@,
        }).body(),
{
    if fragment_count == 0 || fragment_index >= fragment_count || total_len == 0 || chunk.len()
        == 0 {
        return None;
    }
    if total_len as usize > UDP_PLAINTEXT_MAX_ENCAPSULATED {
        return None;
    }
    proof {
        lemma_be_len(fragment_id as nat, 8);
        lemma_be_len(fragment_index as nat, 2);
        lemma_be_len(fragment_count as nat, 2);
        lemma_be_len(total_len as nat, 4);
    }
    let mut out = new_buffer(UDP_PLAINTEXT_FRAGMENT_HEADER + chunk.len());
    put_u64(&mut out, fragment_id);
    put_u16(&mut out, fragment_index);
    put_u16(&mut out, fragment_count);
    put_u32(&mut out, total_len);
    put_slice(&mut out, chunk);
    let r = freeze(out);
    proof {
        let f = FragmentView {
            fragment_id,
            fragment_index,
            fragment_count,
            total_len,
            chunk: chunk@,
        };
        assert(frozen_bytes(r) =~= f.body());
    }
    Some(r)
}

/// The fragment that a body carries.
pub fn decode_udp_fragment_body(body: &[u8]) -> (r: Result<PlainUdpFragment<'_>, ProtocolError>)
    ensures
        match r {
            Ok(f) => parsed_fragment(body@) == Ok::<_, ProtocolError>(f@),
            Err(e) => parsed_fragment(body@) == Err::<FragmentView, _>(e),
        },
{
    if body.len() <= UDP_PLAINTEXT_FRAGMENT_HEADER {
        return Err(ProtocolError::ShortFragment);
    }
    proof {
        lemma_pow256_widths();
    }
    let fragment_id: u64 = read_be(slice_subrange(body, 0, 8)) as u64;
    let fragment_index: u16 = read_be(slice_subrange(body, 8, 10)) as u16;
    let fragment_count: u16 = read_be(slice_subrange(body, 10, 12)) as u16;
    let total_len: u32 = read_be(slice_subrange(body, 12, 16)) as u32;
    let chunk = slice_subrange(body, UDP_PLAINTEXT_FRAGMENT_HEADER, body.len());
    assert(chunk@ =~= body@.skip(16));
    if fragment_count == 0 {
        return Err(ProtocolError::ZeroFragmentCount);
    }
    if fragment_index >= fragment_count {
        return Err(ProtocolError::FragmentIndexOutOfRange);
    }
    if total_len == 0 {
        return Err(ProtocolError::ZeroFragmentTotal);
    }
    if total_len as usize > UDP_PLAINTEXT_MAX_ENCAPSULATED {
        return Err(ProtocolError::FragmentTotalTooLarge);
    }
    if fragment_count as usize > total_len as usize {
        return Err(ProtocolError::FragmentCountExceedsTotal);
    }
    if chunk.len() > total_len as usize {
        return Err(ProtocolError::FragmentChunkExceedsTotal);
    }
    Ok(PlainUdpFragment { fragment_id, fragment_index, fragment_count, total_len, chunk })
}

/// The four bytes that every packet starts with.
pub open spec fn packet_magic() -> Seq<u8> {
    seq![0x50u8, 0x54, 0x48, 0x55]
}

/// The part of a packet that its tag authenticates.
pub open spec fn signed_part(kind: PlainUdpKind, seq: u64, body: Seq<u8>) -> Seq<u8> {
    packet_magic() + seq![UDP_PLAINTEXT_VERSION, kind.spec_code()] + be(seq as nat, 8) + body
}

/// The authentication tag of a packet: the first sixteen bytes of its HMAC-SHA-256 code.
pub open spec fn packet_tag(key: Seq<u8>, signed: Seq<u8>) -> Seq<u8> {
    Seq::new(16, |i: int| hmac_sha256(key, signed)[i])
}

/// A packet of a plaintext UDP channel.
pub open spec fn plain_packet(kind: PlainUdpKind, seq: u64, body: Seq<u8>, key: Seq<u8>) -> Seq<
    u8,
> {
    signed_part(kind, seq, body) + packet_tag(key, signed_part(kind, seq, body))
}

/// What a packet holds, under a key.
pub open spec fn parsed_packet(packet: Seq<u8>, key: Seq<u8>) -> Result<
    (PlainUdpKind, u64, Seq<u8>),
    ProtocolError,
> {
    let tag_start = packet.len() - 16;
    if packet.len() < UDP_PLAINTEXT_OVERHEAD {
        Err(ProtocolError::ShortPacket)
    } else if packet.take(4) != packet_magic() {
        Err(ProtocolError::BadMagic)
    } else if packet[4] != UDP_PLAINTEXT_VERSION {
        Err(ProtocolError::BadVersion)
    } else if packet.skip(tag_start) != packet_tag(key, packet.take(tag_start)) {
        Err(ProtocolError::BadTag)
    } else {
        match PlainUdpKind::spec_from_code(packet[5]) {
            None => Err(ProtocolError::InvalidPacketKind { code: packet[5] }),
            Some(kind) => Ok(
                (kind, from_be(packet.subrange(6, 14)) as u64, packet.subrange(14, tag_start)),
            ),
        }
    }
}

/// The kind that the header of a packet names, before any authentication.
pub open spec fn peeked_kind(packet: Seq<u8>) -> Option<PlainUdpKind> {
    if packet.len() < UDP_PLAINTEXT_OVERHEAD || packet.take(4) != packet_magic() || packet[4]
        != UDP_PLAINTEXT_VERSION {
        None
    } else {
        PlainUdpKind::spec_from_code(packet[5])
    }
}

/// The lengths of a packet and of its parts.
pub proof fn lemma_packet_len(kind: PlainUdpKind, seq: u64, body: Seq<u8>, key: Seq<u8>)
    ensures
        signed_part(kind, seq, body).len() == 14 + body.len(),
        plain_packet(kind, seq, body, key).len() == UDP_PLAINTEXT_OVERHEAD + body.len(),
{
    lemma_be_len(seq as nat, 8);
}

/// A packet holds, under the key it was made with, the kind, the sequence number and the body it
/// was made from.
pub proof fn law_packet_roundtrip(kind: PlainUdpKind, seq: u64, body: Seq<u8>, key: Seq<u8>)
    ensures
        parsed_packet(plain_packet(kind, seq, body, key), key) == Ok::<_, ProtocolError>(
            (kind, seq, body),
        ),
        peeked_kind(plain_packet(kind, seq, body, key)) == Some(kind),
{
    let packet = plain_packet(kind, seq, body, key);
    let signed = signed_part(kind, seq, body);
    let tag_start = packet.len() - 16;
    lemma_packet_len(kind, seq, body, key);
    lemma_pow256_widths();
    lemma_from_be_be(seq as nat, 8);
    assert(packet.take(4) =~= packet_magic());
    assert(packet.take(tag_start) =~= signed);
    assert(packet.skip(tag_start) =~= packet_tag(key, signed));
    assert(packet.subrange(6, 14) =~= be(seq as nat, 8));
    assert(packet.subrange(14, tag_start) =~= body);
}

/// Only a packet that carries the tag of its own bytes under the key is accepted: whatever is
/// accepted is exactly the packet that the holder of the key makes of what it holds.
pub proof fn law_packet_authentic(packet: Seq<u8>, key: Seq<u8>)
    requires
        parsed_packet(packet, key) is Ok,
    ensures
        ({
            let (kind, seq, body) = parsed_packet(packet, key)->Ok_0;
            packet == plain_packet(kind, seq, body, key)
        }),
{
    let (kind, seq, body) = parsed_packet(packet, key)->Ok_0;
    let tag_start = packet.len() - 16;
    lemma_packet_len(kind, seq, body, key);
    lemma_pow256_widths();
    lemma_from_be_bound(packet.subrange(6, 14));
    lemma_be_from_be(packet.subrange(6, 14));
    let signed = signed_part(kind, seq, body);
    assert(packet.take(tag_start) =~= signed) by {
        assert forall|i: int| 0 <= i < tag_start implies packet[i] == signed[i] by {
            if i < 4 {
                assert(packet.take(4)[i] == packet_magic()[i]);
            } else if i >= 6 && i < 14 {
                assert(packet.subrange(6, 14)[i - 6] == packet[i]);
            }
        }
    }
    assert(packet =~= packet.take(tag_start) + packet.skip(tag_start));
}

fn is_packet_header(packet: &[u8]) -> (r: bool)
    requires
        packet@.len() >= 4,
    ensures
        r == (packet@.take(4) == packet_magic()),
{
    let r = packet[0] == 0x50 && packet[1] == 0x54 && packet[2] == 0x48 && packet[3] == 0x55;
    proof {
        if r {
            assert(packet@.take(4) =~= packet_magic());
        } else {
            assert(packet@.take(4)[0] == packet@[0]);
            assert(packet@.take(4)[1] == packet@[1]);
            assert(packet@.take(4)[2] == packet@[2]);
            assert(packet@.take(4)[3] == packet@[3]);
        }
    }
    r
}

/// The packet that carries `body`, or nothing when it would exceed the largest UDP payload.
pub fn encode_plain_udp(kind: PlainUdpKind, seq: u64, body: &[u8], key: &[u8; 32]) -> (r: Option<
    Bytes,
>)
    ensures
        r is Some <==> body@.len() <= UDP_PLAINTEXT_MAX_BODY,
        r matches Some(bytes) ==> frozen_bytes(bytes) == plain_packet(kind, seq, body@, key@),
{
    if body.len() > UDP_PLAINTEXT_MAX_BODY {
        return None;
    }
    proof {
        lemma_be_len(seq as nat, 8);
        lemma_packet_len(kind, seq, body@, key@);
    }
    let mut out = new_buffer(UDP_PLAINTEXT_OVERHEAD + body.len());
    put_u8(&mut out, 0x50);
    put_u8(&mut out, 0x54);
    put_u8(&mut out, 0x48);
    put_u8(&mut out, 0x55);
    put_u8(&mut out, UDP_PLAINTEXT_VERSION);
    put_u8(&mut out, kind.code());
    put_u64(&mut out, seq);
    put_slice(&mut out, body);
    let ghost signed = signed_part(kind, seq, body@);
    assert(buffer_bytes(out) =~= signed);
    let tag = hmac_code(key, buffer_slice(&out));
    let tag_slice: &[u8] = slice_subrange(vstd::array::array_as_slice(&tag), 0, UDP_PLAINTEXT_TAG);
    assert(tag_slice@ =~= packet_tag(key@, signed));
    put_slice(&mut out, tag_slice);
    Some(freeze(out))
}

/// The kind, the sequence number and the body of an authentic packet.
pub fn decode_plain_udp<'a>(packet: &'a [u8], key: &[u8; 32]) -> (r: Result<
    (PlainUdpKind, u64, &'a [u8]),
    ProtocolError,
>)
    ensures
        match r {
            Ok((kind, seq, body)) => parsed_packet(packet@, key@) == Ok::<_, ProtocolError>(
                (kind, seq, body@),
            ),
            Err(e) => parsed_packet(packet@, key@) == Err::<(PlainUdpKind, u64, Seq<u8>), _>(e),
        },
{
    if packet.len() < UDP_PLAINTEXT_OVERHEAD {
        return Err(ProtocolError::ShortPacket);
    }
    if !is_packet_header(packet) {
        return Err(ProtocolError::BadMagic);
    }
    if packet[4] != UDP_PLAINTEXT_VERSION {
        return Err(ProtocolError::BadVersion);
    }
    let tag_start: usize = packet.len() - UDP_PLAINTEXT_TAG;
    let signed = slice_subrange(packet, 0, tag_start);
    let tag = slice_subrange(packet, tag_start, packet.len());
    let expected = hmac_code(key, signed);
    let expected_slice: &[u8] = slice_subrange(
        vstd::array::array_as_slice(&expected),
        0,
        UDP_PLAINTEXT_TAG,
    );
    proof {
        assert(signed@ =~= packet@.take(tag_start as int));
        assert(tag@ =~= packet@.skip(tag_start as int));
        assert(expected_slice@ =~= packet_tag(key@, signed@));
    }
    if !ct_eq(expected_slice, tag) {
        return Err(ProtocolError::BadTag);
    }
    match PlainUdpKind::from_code(packet[5]) {
        Err(e) => Err(e),
        Ok(kind) => {
            proof {
                lemma_pow256_widths();
            }
            let seq: u64 = read_be(slice_subrange(packet, 6, 14)) as u64;
            Ok((kind, seq, slice_subrange(packet, 14, tag_start)))
        },
    }
}

/// The kind that the header of a packet names. Nothing is authenticated: the answer only says
/// whether decoding the packet is worth its cost.
pub fn peek_plain_udp_kind(packet: &[u8]) -> (r: Option<PlainUdpKind>)
    ensures
        r == peeked_kind(packet@),
{
    if packet.len() < UDP_PLAINTEXT_OVERHEAD || !is_packet_header(packet) || packet[4]
        != UDP_PLAINTEXT_VERSION {
        return None;
    }
    match PlainUdpKind::from_code(packet[5]) {
        Ok(kind) => Some(kind),
        Err(_) => None,
    }
}

// ---------------------------------------------------------------------------
// Keys of plaintext UDP channels
// ---------------------------------------------------------------------------

/// The key that a text stands for: its base64url form between optional white space.
pub open spec fn parsed_auth_key(s: Seq<char>) -> Result<Seq<u8>, ProtocolError> {
    if exists|v: Seq<u8>| #[trigger] base64url(v) == trimmed(s) {
        let v = choose|v: Seq<u8>| #[trigger] base64url(v) == trimmed(s);
        if v.len() == 32 {
            Ok(v)
        } else {
            Err(ProtocolError::AuthKeyLength)
        }
    } else {
        Err(ProtocolError::AuthKeyNotBase64)
    }
}

/// The text of a key stands for that key, also between white space.
pub proof fn law_auth_key_roundtrip(key: Seq<u8>, left: Seq<char>, right: Seq<char>)
    requires
        key.len() == 32,
        forall|i: int| 0 <= i < left.len() ==> spec_is_whitespace(#[trigger] left[i]),
        forall|i: int| 0 <= i < right.len() ==> spec_is_whitespace(#[trigger] right[i]),
    ensures
        parsed_auth_key(left + base64url(key) + right) == Ok::<_, ProtocolError>(key),
{
    let text = base64url(key);
    lemma_base64url_chars(key, 0);
    lemma_base64url_chars(key, text.len() - 1);
    lemma_trimmed_padded(left, text, right);
    let v = choose|v: Seq<u8>| #[trigger] base64url(v) == text;
    assert(base64url(key) == text);
    lemma_base64url_injective(v, key);
}

pub fn encode_udp_auth_key(key: &[u8; 32]) -> (r: String)
    ensures
        r@ == base64url(key@),
{
    base64_encode(vstd::array::array_as_slice(key))
}

pub fn decode_udp_auth_key(s: &str) -> (r: Result<[u8; 32], ProtocolError>)
    ensures
        match r {
            Ok(key) => parsed_auth_key(s@) == Ok::<_, ProtocolError>(key@),
            Err(e) => parsed_auth_key(s@) == Err::<Seq<u8>, _>(e),
        },
{
    let chars = chars_of(s);
    let text = string_of(trim_chars(&chars));
    match base64_decode(&text) {
        None => Err(ProtocolError::AuthKeyNotBase64),
        Some(bytes) => {
            proof {
                let v = choose|v: Seq<u8>| #[trigger] base64url(v) == trimmed(s@);
                assert(base64url(bytes@) == trimmed(s@));
                lemma_base64url_injective(v, bytes@);
            }
            if bytes.len() != 32 {
                return Err(ProtocolError::AuthKeyLength);
            }
            let mut key: [u8; 32] = [0u8; 32];
            let mut i: usize = 0;
            while i < 32
                invariant
                    i <= 32,
                    bytes@.len() == 32,
                    forall|j: int| 0 <= j < i ==> key@[j] == bytes@[j],
                decreases 32 - i,
            {
                key[i] = bytes[i];
                i += 1;
            }
            assert(key@ =~= bytes@);
            Ok(key)
        },
    }
}

// ---------------------------------------------------------------------------
// Control messages
// ---------------------------------------------------------------------------

/// Sent client -> server.
#[derive(Debug, Clone, PartialEq, Eq)]
pub enum ClientMessage {
    /// First frame on a control connection: bearer token (compared in constant time).
    Hello { token: String },
    /// First frame on a data connection: bearer token + the id this connection fulfils
    /// (a pending TCP accept's conn id, or a UDP-capable tunnel's token).
    DataHello { token: Option<String>, id: u128, data_auth: Option<String> },
    /// Request a public tunnel.
    Register {
        name: String,
        proto: Proto,
        remote_port: Option<u16>,
        local_ports: Option<String>,
        encrypted: bool,
        udp_mtu: Option<u16>,
    },
    /// Remove a previously registered tunnel.
    Unregister { name: String },
    Heartbeat,
}

/// One public port of a granted tunnel.
#[derive(Debug, Clone, PartialEq, Eq)]
pub struct AcceptedBinding {
    pub local_port: u16,
    pub remote_port: u16,
    pub public_addr: String,
    /// The capability for the UDP data channel of the port.
    pub token: Option<u128>,
    pub udp_auth_key: Option<String>,
    pub udp_mtu: Option<u16>,
}

/// Sent server -> client.
#[derive(Debug, Clone, PartialEq, Eq)]
pub enum ServerMessage {
    /// First frame after a successful control `Hello`: the allowed public-port range.
    Welcome { min_port: u16, max_port: u16 },
    /// A tunnel was granted. `token` (UDP-capable tunnels only) is the capability for its data
    /// channel. The single fields repeat those of the first binding.
    Accepted {
        name: String,
        proto: Proto,
        public_addr: String,
        remote_port: u16,
        encrypted: bool,
        token: Option<u128>,
        udp_auth_key: Option<String>,
        udp_mtu: Option<u16>,
        bindings: Vec<AcceptedBinding>,
    },
    /// A registration was refused (port out of range, already in use, ...).
    Rejected { name: String, reason: String },
    /// A public TCP connection arrived; dial back a data connection with this id.
    NewConn {
        id: u128,
        tunnel: String,
        local_port: Option<u16>,
        src_addr: Option<SocketAddr>,
        dst_addr: Option<SocketAddr>,
        encrypted: bool,
        data_auth: Option<String>,
    },
    Heartbeat,
    Error { message: String, fatal: bool },
}

/// Check the length of an outgoing message against the largest frame.
pub fn check_message_len(len: usize) -> (r: Result<(), ProtocolError>)
    ensures
        r == (if len <= MAX_FRAME {
            Ok(())
        } else {
            Err(ProtocolError::MessageTooLong)
        }),
{
    if len <= MAX_FRAME {
        Ok(())
    } else {
        Err(ProtocolError::MessageTooLong)
    }
}

/// The frame of every datagram fits in the largest frame.
pub proof fn law_datagram_frames_fit(peer: SocketAddr, data: Seq<u8>)
    requires
        data.len() <= 65_535,
    ensures
        udp_frame(peer, data).len() <= MAX_FRAME,
        udp_frame(peer, data).len() <= UDP_PLAINTEXT_MAX_ENCAPSULATED,
{
    lemma_udp_header_len(peer);
}

// ---------------------------------------------------------------------------
// Prefixed: hand a framed stream off to a raw byte splice without losing bytes
// the codec already read past the last frame.
// ---------------------------------------------------------------------------

/// A read that has room for `room` bytes takes `taken` of the bytes `ahead` that were read ahead
/// and leaves `left` of them. Once none is left, nothing is taken and the stream is read.
pub open spec fn takes(
    ahead: Seq<u8>,
    room: nat,
    left: Seq<u8>,
    taken: Option<Seq<u8>>,
) -> bool {
    match taken {
        Some(bytes) => {
            &&& ahead.len() > 0
            &&& bytes.len() == (if ahead.len() <= room {
                ahead.len()
            } else {
                room
            })
            &&& bytes + left == ahead
        },
        None => ahead.len() == 0 && left == ahead,
    }
}

/// All that a reader gets: of each read what was taken of the bytes read ahead, or else what the
/// stream gave.
pub open spec fn read_out(taken: Seq<Option<Seq<u8>>>, streamed: Seq<Seq<u8>>) -> Seq<u8>
    decreases taken.len(),
{
    if taken.len() == 0 {
        Seq::empty()
    } else {
        read_out(taken.drop_last(), streamed.drop_last()) + (match taken.last() {
            Some(bytes) => bytes,
            None => streamed.last(),
        })
    }
}

/// All that the stream gave, in the reads that went to it.
pub open spec fn from_stream(taken: Seq<Option<Seq<u8>>>, streamed: Seq<Seq<u8>>) -> Seq<u8>
    decreases taken.len(),
{
    if taken.len() == 0 {
        Seq::empty()
    } else {
        from_stream(taken.drop_last(), streamed.drop_last()) + (match taken.last() {
            Some(bytes) => Seq::empty(),
            None => streamed.last(),
        })
    }
}

/// A reader gets the bytes that were read ahead, all of them and in order, and then the stream.
/// Reads with room for a byte or more come to the stream after as many reads as there are bytes
/// ahead, at the latest.
pub proof fn law_prefix_then_stream(
    ahead: Seq<Seq<u8>>,
    rooms: Seq<nat>,
    taken: Seq<Option<Seq<u8>>>,
    streamed: Seq<Seq<u8>>,
)
    requires
        rooms.len() == taken.len(),
        streamed.len() == taken.len(),
        ahead.len() == taken.len() + 1,
        forall|k: int|
            0 <= k < taken.len() ==> takes(
                ahead[k],
                rooms[k],
                ahead[k + 1],
                #[trigger] taken[k],
            ),
    ensures
        read_out(taken, streamed) + ahead.last() == ahead[0] + from_stream(taken, streamed),
        ahead.last().len() > 0 ==> from_stream(taken, streamed).len() == 0,
        taken.contains(None) ==> ahead.last().len() == 0,
        (forall|k: int| 0 <= k < rooms.len() ==> #[trigger] rooms[k] > 0) ==> ahead.last().len()
            == 0 || ahead.last().len() + taken.len() <= ahead[0].len(),
    decreases taken.len(),
{
    if taken.len() == 0 {
        assert(read_out(taken, streamed) + ahead.last() =~= ahead[0] + from_stream(
            taken,
            streamed,
        ));
    } else {
        let n = taken.len() - 1;
        let (a, r, t, s) = (
            ahead.drop_last(),
            rooms.drop_last(),
            taken.drop_last(),
            streamed.drop_last(),
        );
        assert forall|k: int| 0 <= k < t.len() implies takes(
            a[k],
            r[k],
            a[k + 1],
            #[trigger] t[k],
        ) by {
            assert(takes(ahead[k], rooms[k], ahead[k + 1], taken[k]));
        }
        law_prefix_then_stream(a, r, t, s);
        assert(takes(ahead[n], rooms[n], ahead[n + 1], taken[n]));
        let got = read_out(t, s);
        let rest = from_stream(t, s);
        match taken[n] {
            Some(bytes) => {
                assert(rest.len() == 0);
                assert(got + a.last() =~= got + bytes + ahead.last());
                assert(ahead[0] + from_stream(taken, streamed) =~= ahead[0] + rest);
            },
            None => {
                assert(got + a.last() =~= got);
                assert(got + streamed[n] + ahead.last() =~= ahead[0] + (rest + streamed[n]));
            },
        }
        if taken.contains(None) && taken[n] is Some {
            let k = choose|k: int| 0 <= k < taken.len() && taken[k] is None;
            assert(t[k] is None);
            assert(t.contains(None));
        }
        if forall|k: int| 0 <= k < rooms.len() ==> #[trigger] rooms[k] > 0 {
            assert(rooms[n] > 0);
            assert forall|k: int| 0 <= k < r.len() implies #[trigger] r[k] > 0 by {
                assert(rooms[k] > 0);
            }
        }
    }
}

/// A stream of which some bytes were read ahead.
pub struct Prefixed<S> {
    prefix: BytesMut,
    inner: S,
}

impl<S> Prefixed<S> {
    /// The bytes that were read ahead and not handed out yet.
    pub closed spec fn spec_prefix(&self) -> Seq<u8> {
        buffer_bytes(self.prefix)
    }

    /// The rest of the stream.
    pub closed spec fn spec_inner(&self) -> S {
        self.inner
    }

    pub fn new(prefix: BytesMut, inner: S) -> (r: Prefixed<S>)
        ensures
            r.spec_prefix() == buffer_bytes(prefix),
            r.spec_inner() == inner,
    {
        Prefixed { prefix, inner }
    }

    /// Hand out the next bytes that were read ahead, at most `room` of them. Once none is left,
    /// reads go to the stream itself.
    pub fn take_prefix(&mut self, room: usize) -> (r: Option<Bytes>)
        ensures
            final(self).spec_inner() == old(self).spec_inner(),
            takes(
                old(self).spec_prefix(),
                room as nat,
                final(self).spec_prefix(),
                frozen_option(r),
            ),
    {
        let ahead = buffer_slice(&self.prefix);
        let len: usize = ahead.len();
        if len == 0 {
            return None;
        }
        let n: usize = if len <= room {
            len
        } else {
            room
        };
        let bytes = copy_bytes(slice_subrange(ahead, 0, n));
        let ghost before = buffer_bytes(self.prefix);
        advance(&mut self.prefix, n);
        assert(frozen_bytes(bytes) + buffer_bytes(self.prefix) =~= before);
        Some(bytes)
    }

    /// The rest of the stream.
    pub fn inner_mut(&mut self) -> (r: &mut S)
        ensures
            *r == old(self).spec_inner(),
            final(self).spec_prefix() == old(self).spec_prefix(),
            final(self).spec_inner() == *final(r),
    {
        &mut self.inner
    }
}

/// The layout of a UDP frame: the family of the end user, the bytes of their address, their port,
/// and then the datagram as it is.
pub proof fn law_udp_frame_layout(peer: SocketAddr, data: Seq<u8>)
    ensures
        ({
            let frame = udp_frame(peer, data);
            match peer.spec_ip() {
                IpAddr::V4(ip) => {
                    &&& frame.len() == 7 + data.len()
                    &&& frame[0] == 4
                    &&& from_be(frame.subrange(1, 5)) == ip
                    &&& from_be(frame.subrange(5, 7)) == peer.spec_port()
                    &&& frame.skip(7) == data
                },
                IpAddr::V6(ip) => {
                    &&& frame.len() == 19 + data.len()
                    &&& frame[0] == 6
                    &&& from_be(frame.subrange(1, 17)) == ip
                    &&& from_be(frame.subrange(17, 19)) == peer.spec_port()
                    &&& frame.skip(19) == data
                },
            }
        }),
{
    let frame = udp_frame(peer, data);
    lemma_pow256_widths();
    lemma_from_be_be(peer.spec_port() as nat, 2);
    match peer.spec_ip() {
        IpAddr::V4(ip) => {
            lemma_from_be_be(ip as nat, 4);
            assert(frame.subrange(1, 5) =~= be(ip as nat, 4));
            assert(frame.subrange(5, 7) =~= be(peer.spec_port() as nat, 2));
            assert(frame.skip(7) =~= data);
        },
        IpAddr::V6(ip) => {
            lemma_from_be_be(ip as nat, 16);
            assert(frame.subrange(1, 17) =~= be(ip as nat, 16));
            assert(frame.subrange(17, 19) =~= be(peer.spec_port() as nat, 2));
            assert(frame.skip(19) =~= data);
        },
    }
}

/// Which frames are refused: those without a family that there is, and those too short for the
/// address and port of their family. A frame with an empty datagram is none of them.
pub proof fn law_udp_frames_refused(buf: Seq<u8>)
    ensures
        parsed_udp(buf) is Ok <==> (buf.len() >= 7 && buf[0] == 4 || buf.len() >= 19 && buf[0]
            == 6),
        buf.len() == 0 ==> parsed_udp(buf) == Err::<(SocketAddr, Seq<u8>), _>(
            ProtocolError::EmptyUdpFrame,
        ),
        buf.len() > 0 && buf[0] != 4 && buf[0] != 6 ==> parsed_udp(buf) == Err::<
            (SocketAddr, Seq<u8>),
            _,
        >(ProtocolError::InvalidUdpFamily { family: buf[0] }),
        0 < buf.len() < 7 && buf[0] == 4 ==> parsed_udp(buf) == Err::<(SocketAddr, Seq<u8>), _>(
            ProtocolError::ShortIpv4UdpFrame,
        ),
        0 < buf.len() < 19 && buf[0] == 6 ==> parsed_udp(buf) == Err::<(SocketAddr, Seq<u8>), _>(
            ProtocolError::ShortIpv6UdpFrame,
        ),
{
}

/// The layout of a packet: four fixed bytes, the version, the kind, the sequence number, the body,
/// and the first sixteen bytes of the HMAC-SHA-256 code of all that under the key.
pub proof fn law_packet_layout(kind: PlainUdpKind, seq: u64, body: Seq<u8>, key: Seq<u8>)
    ensures
        ({
            let packet = plain_packet(kind, seq, body, key);
            let signed = packet.take(14 + body.len() as int);
            &&& packet.len() == 30 + body.len()
            &&& packet.take(4) == seq![0x50u8, 0x54, 0x48, 0x55]
            &&& packet[4] == 1
            &&& packet[5] == (match kind {
                PlainUdpKind::Hello => 1u8,
                PlainUdpKind::Data => 2,
                PlainUdpKind::Keepalive => 3,
                PlainUdpKind::Fragment => 4,
                PlainUdpKind::DiagPing => 5,
                PlainUdpKind::DiagPong => 6,
            })
            &&& from_be(packet.subrange(6, 14)) == seq
            &&& packet.subrange(14, 14 + body.len() as int) == body
            &&& forall|i: int|
                0 <= i < 16 ==> packet[14 + body.len() + i] == #[trigger] hmac_sha256(
                    key,
                    signed,
                )[i]
        }),
{
    let packet = plain_packet(kind, seq, body, key);
    let signed = signed_part(kind, seq, body);
    lemma_packet_len(kind, seq, body, key);
    lemma_pow256_widths();
    lemma_from_be_be(seq as nat, 8);
    assert(packet.take(4) =~= seq![0x50u8, 0x54, 0x48, 0x55]);
    assert(packet.take(14 + body.len() as int) =~= signed);
    assert(packet.subrange(6, 14) =~= be(seq as nat, 8));
    assert(packet.subrange(14, 14 + body.len() as int) =~= body);
}

/// Which packets are refused, and why: too short ones, foreign ones, ones of another version, ones
/// that nobody with the key made, and then ones of a kind that there is not. Nothing is read of a
/// packet before its code is checked, and a header that names no kind belongs to no packet that is
/// accepted.
pub proof fn law_packets_refused(packet: Seq<u8>, key: Seq<u8>)
    ensures
        ({
            let n = packet.len() - 16;
            let foreign = packet.take(4) != seq![0x50u8, 0x54, 0x48, 0x55];
            let forged = exists|i: int|
                0 <= i < 16 && packet[n + i] != #[trigger] hmac_sha256(key, packet.take(n))[i];
            match parsed_packet(packet, key) {
                Ok((kind, seq, body)) => {
                    &&& packet.len() >= 30
                    &&& !foreign
                    &&& packet[4] == 1
                    &&& !forged
                    &&& 1 <= packet[5] <= 6
                    &&& peeked_kind(packet) == Some(kind)
                },
                Err(ProtocolError::ShortPacket) => packet.len() < 30,
                Err(ProtocolError::BadMagic) => packet.len() >= 30 && foreign,
                Err(ProtocolError::BadVersion) => packet.len() >= 30 && !foreign && packet[4] != 1,
                Err(ProtocolError::BadTag) => packet.len() >= 30 && !foreign && packet[4] == 1
                    && forged,
                Err(ProtocolError::InvalidPacketKind { code }) => {
                    &&& packet.len() >= 30 && !foreign && packet[4] == 1 && !forged
                    &&& code == packet[5]
                    &&& !(1 <= code <= 6)
                },
                Err(_) => false,
            }
        }),
        peeked_kind(packet) is Some <==> packet.len() >= 30 && packet.take(4) == seq![
            0x50u8,
            0x54,
            0x48,
            0x55,
        ] && packet[4] == 1 && 1 <= packet[5] <= 6,
{
    let n = packet.len() - 16;
    if packet.len() >= 30 {
        let tag = packet_tag(key, packet.take(n));
        let own = packet.skip(n);
        assert(packet_magic() =~= seq![0x50u8, 0x54, 0x48, 0x55]);
        if own == tag {
            assert forall|i: int| 0 <= i < 16 implies packet[n + i] == #[trigger] hmac_sha256(
                key,
                packet.take(n),
            )[i] by {
                assert(own[i] == tag[i]);
            }
        } else if forall|i: int|
            0 <= i < 16 ==> packet[n + i] == #[trigger] hmac_sha256(key, packet.take(n))[i] {
            assert forall|i: int| 0 <= i < 16 implies own[i] == tag[i] by {
                assert(hmac_sha256(key, packet.take(n))[i] == packet[n + i]);
            }
            assert(own =~= tag);
        }
    }
}

/// The layout of a fragment, and which are refused: those without any byte of their datagram, those
/// that count wrongly, and those of a datagram that is empty, too long, or shorter than they say.
pub proof fn law_fragments_refused(body: Seq<u8>)
    requires
        body.len() > 16,
    ensures
        ({
            let (id, index) = (from_be(body.subrange(0, 8)), from_be(body.subrange(8, 10)));
            let (count, total) = (from_be(body.subrange(10, 12)), from_be(body.subrange(12, 16)));
            let r = parsed_fragment(body);
            &&& r is Ok <==> index < count <= total <= 65_554 && body.len() - 16 <= total
            &&& r matches Ok(f) ==> {
                &&& f.fragment_id == id
                &&& f.fragment_index == index
                &&& f.fragment_count == count
                &&& f.total_len == total
                &&& f.chunk == body.skip(16)
            }
            &&& count == 0 ==> r == Err::<FragmentView, _>(ProtocolError::ZeroFragmentCount)
            &&& 0 < count <= index ==> r == Err::<FragmentView, _>(
                ProtocolError::FragmentIndexOutOfRange,
            )
            &&& index < count && total > 65_554 ==> r == Err::<FragmentView, _>(
                ProtocolError::FragmentTotalTooLarge,
            )
        }),
        parsed_fragment(body.take(16)) == Err::<FragmentView, _>(ProtocolError::ShortFragment),
{
    lemma_pow256_widths();
    lemma_from_be_bound(body.subrange(0, 8));
    lemma_from_be_bound(body.subrange(8, 10));
    lemma_from_be_bound(body.subrange(10, 12));
    lemma_from_be_bound(body.subrange(12, 16));
}

/// A key text that holds another number of bytes than a key has is refused for its length.
pub proof fn law_auth_key_length(bytes: Seq<u8>)
    requires
        bytes.len() > 0,
    ensures
        bytes.len() != 32 ==> parsed_auth_key(base64url(bytes)) == Err::<Seq<u8>, _>(
            ProtocolError::AuthKeyLength,
        ),
        bytes.len() == 32 ==> parsed_auth_key(base64url(bytes)) == Ok::<_, ProtocolError>(bytes),
{
    let none = Seq::<char>::empty();
    let text = base64url(bytes);
    if text.len() > 0 {
        lemma_base64url_chars(bytes, 0);
        lemma_base64url_chars(bytes, text.len() - 1);
        lemma_trimmed_padded(none, text, none);
    }
    assert(none + text + none =~= text);
    let v = choose|v: Seq<u8>| #[trigger] base64url(v) == text;
    assert(base64url(bytes) == text);
    lemma_base64url_injective(v, bytes);
}

}
