//! Configuration: tunnel definitions and their command-line form, the settings of server and
//! client, and how files, arguments and the environment are merged into them.

use crate::addr::{
    ipv4_text, law_socket_addr_roundtrip, lemma_join_chars, lemma_not_socket_addr,
    lemma_socket_addr_zero, parsed_digits,
};
use crate::addr::{parse_socket_addr, parsed_socket_addr, IpAddr, SocketAddr};
use crate::buffer::be16_bytes;
use crate::buffer::{be, lemma_be_len, lemma_from_be_be, lemma_pow256_widths};
use crate::cli::{ClientArgs, ServerArgs};
use crate::crypto::random_uuid;
use crate::crypto::is_uuid_v4;
use crate::protocol::lemma_proto_names;
use crate::protocol::{
    Proto, DEFAULT_CONTROL_PORT, DEFAULT_UDP_MTU, DEFAULT_WEB_BIND, MAX_UDP_MTU,
    MIN_UDP_MTU,
};
use crate::source_pool::{parsed_pool, UdpSourcePool};
use crate::text::{
    ascii_lowercase, chars_eq_str, chars_of, endpoint_string, last_index_of, parse_u16, push_hex,
    split_on, split_once, str_eq, string_of, trim_chars,
};
use crate::text::{
    ascii_lowered, dec, endpoint_text, hex_char, hex_lower, join, law_number_reads_back,
    law_split_first, lemma_dec, lemma_dec_chars, lemma_hex_value_of_char, lemma_split_first,
    lemma_split_join, matches_at, parsed_dec, pieces_view, split_all, split_first, trimmed,
};
use vstd::prelude::*;
use vstd::slice::slice_subrange;

verus! {

/// The environment variable that may hold the shared secret.
pub const ENV_SECRET: &'static str = "PORTHOLE_SECRET";

/// The most public ports that one tunnel may reserve.
pub const MAX_TUNNEL_PORTS: usize = 2048;

// ---------------------------------------------------------------------------
// Local ports
// ---------------------------------------------------------------------------

/// Why a selection of local ports was refused.
#[derive(Clone, Copy, Debug, PartialEq, Eq, Structural)]
pub enum PortsError {
    /// Not a port number.
    InvalidPort,
    /// The range ends before it starts.
    ReversedRange,
}

impl PortsError {
    pub open spec fn text(self) -> Seq<char> {
        match self {
            PortsError::InvalidPort => "invalid local port selection"@,
            PortsError::ReversedRange => "local port range ends before it starts"@,
        }
    }

    /// The error in words.
    pub fn message(&self) -> (r: String)
        ensures
            r@ == self.text(),
    {
        match self {
            PortsError::InvalidPort => "invalid local port selection".to_string(),
            PortsError::ReversedRange => "local port range ends before it starts".to_string(),
        }
    }
}

/// The local ports that a tunnel forwards to.
#[derive(Clone, Debug, PartialEq, Eq)]
pub struct LocalPorts {
    ports: Vec<u16>,
    range: bool,
}

/// The ports from `start` to `end`, both inclusive.
pub open spec fn port_range(start: nat, end: nat) -> Seq<u16> {
    Seq::new((end + 1 - start) as nat, |i: int| (start + i) as u16)
}

/// The ports that the pieces of a list stand for.
pub open spec fn parsed_port_list(pieces: Seq<Seq<char>>) -> Option<Seq<u16>>
    decreases pieces.len(),
{
    if pieces.len() == 0 {
        Some(Seq::empty())
    } else {
        match (parsed_port_list(pieces.drop_last()), parsed_dec(trimmed(pieces.last()), 0xffff)) {
            (Some(front), Some(port)) => Some(front.push(port as u16)),
            _ => None,
        }
    }
}

/// The ports that a selection stands for, and whether it is a range: `A-B` or `A,B,..`.
pub open spec fn parsed_local_ports(s: Seq<char>) -> Result<(Seq<u16>, bool), PortsError> {
    match split_first(s, "-"@) {
        Some((start, end)) => match (
            parsed_dec(trimmed(start), 0xffff),
            parsed_dec(trimmed(end), 0xffff),
        ) {
            (Some(start), Some(end)) => if start > end {
                Err(PortsError::ReversedRange)
            } else {
                Ok((port_range(start, end), true))
            },
            _ => Err(PortsError::InvalidPort),
        },
        None => match parsed_port_list(split_all(s, ',')) {
            Some(ports) => Ok((ports, false)),
            None => Err(PortsError::InvalidPort),
        },
    }
}

impl LocalPorts {
    pub closed spec fn spec_ports(&self) -> Seq<u16> {
        self.ports@
    }

    pub closed spec fn spec_is_range(&self) -> bool {
        self.range
    }

    /// The ports, in the order in which they were selected.
    pub fn ports(&self) -> (r: Vec<u16>)
        ensures
            r@ == self.spec_ports(),
    {
        let mut out: Vec<u16> = Vec::new();
        out.extend_from_slice(&self.ports);
        assert(out@ =~= self.ports@);
        out
    }

    /// Whether the ports are a range.
    pub fn is_range(&self) -> (r: bool)
        ensures
            r == self.spec_is_range(),
    {
        self.range
    }
}

/// Read the pieces of a list as ports.
fn parse_port_list(pieces: &Vec<Vec<char>>) -> (r: Option<Vec<u16>>)
    ensures
        match r {
            Some(v) => parsed_port_list(pieces_view(pieces@)) == Some(v@),
            None => parsed_port_list(pieces_view(pieces@)) is None,
        },
{
    let ghost texts = pieces_view(pieces@);
    let mut ports: Vec<u16> = Vec::new();
    let mut i: usize = 0;
    assert(texts.take(0) =~= Seq::<Seq<char>>::empty());
    assert(ports@ =~= Seq::<u16>::empty());
    while i < pieces.len()
        invariant
            i <= pieces@.len(),
            texts == pieces_view(pieces@),
            parsed_port_list(texts.take(i as int)) == Some(ports@),
        decreases pieces@.len() - i,
    {
        let ghost next = texts.take(i as int + 1);
        proof {
            assert(next.drop_last() =~= texts.take(i as int));
            assert(next.last() == pieces@[i as int]@);
        }
        match parse_u16(trim_chars(&pieces[i])) {
            Some(port) => ports.push(port),
            None => {
                proof {
                    lemma_bad_port(texts, i as int + 1);
                }
                return None;
            },
        }
        i += 1;
    }
    assert(texts.take(texts.len() as int) =~= texts);
    Some(ports)
}

/// A list with a bad piece stands for no ports.
proof fn lemma_bad_port(texts: Seq<Seq<char>>, n: int)
    requires
        0 <= n <= texts.len(),
        parsed_port_list(texts.take(n)) is None,
    ensures
        parsed_port_list(texts) is None,
    decreases texts.len() - n,
{
    if n < texts.len() {
        assert(texts.take(n + 1).drop_last() =~= texts.take(n));
        lemma_bad_port(texts, n + 1);
    } else {
        assert(texts.take(n) =~= texts);
    }
}

/// Read a selection of local ports.
pub fn parse_local_ports_chars(s: &[char]) -> (r: Result<LocalPorts, PortsError>)
    ensures
        match r {
            Ok(p) => parsed_local_ports(s@) == Ok::<_, PortsError>(
                (p.spec_ports(), p.spec_is_range()),
            ),
            Err(e) => parsed_local_ports(s@) == Err::<(Seq<u16>, bool), _>(e),
        },
{
    let dash = chars_of("-");
    match split_once(s, &dash) {
        Some((start, end)) => {
            match (parse_u16(trim_chars(start)), parse_u16(trim_chars(end))) {
                (Some(start), Some(end)) => {
                    if start > end {
                        return Err(PortsError::ReversedRange);
                    }
                    let ports = range_ports(start, end);
                    Ok(LocalPorts { ports, range: true })
                },
                _ => Err(PortsError::InvalidPort),
            }
        },
        None => {
            let pieces = split_on(s, ',');
            match parse_port_list(&pieces) {
                Some(ports) => Ok(LocalPorts { ports, range: false }),
                None => Err(PortsError::InvalidPort),
            }
        },
    }
}

/// Read a selection of local ports: an inclusive range `A-B` or a list `A,B,..`.
pub fn parse_local_ports(spec: &str) -> (r: Result<LocalPorts, PortsError>)
    ensures
        match r {
            Ok(p) => parsed_local_ports(spec@) == Ok::<_, PortsError>(
                (p.spec_ports(), p.spec_is_range()),
            ),
            Err(e) => parsed_local_ports(spec@) == Err::<(Seq<u16>, bool), _>(e),
        },
{
    parse_local_ports_chars(&chars_of(spec))
}

/// The ports from `start` to `end`, both inclusive.
pub fn range_ports(start: u16, end: u16) -> (r: Vec<u16>)
    requires
        start <= end,
    ensures
        r@ == port_range(start as nat, end as nat),
{
    let mut ports: Vec<u16> = Vec::new();
    let mut port: u32 = start as u32;
    while port <= end as u32
        invariant
            start <= port <= end + 1,
            start <= end,
            ports@.len() == port - start,
            forall|i: int| 0 <= i < ports@.len() ==> #[trigger] ports@[i] == start + i,
        decreases end + 1 - port,
    {
        ports.push(port as u16);
        port += 1;
    }
    assert(ports@ =~= port_range(start as nat, end as nat));
    ports
}

// ---------------------------------------------------------------------------
// UDP packet sizes
// ---------------------------------------------------------------------------

/// Why a packet size was refused.
#[derive(Clone, Copy, Debug, PartialEq, Eq, Structural)]
pub enum MtuError {
    /// The tunnel carries no UDP.
    NotUdp,
    /// Outside the valid range.
    OutOfRange,
}

impl MtuError {
    pub open spec fn text(self) -> Seq<char> {
        match self {
            MtuError::NotUdp => "udp_mtu requires a udp or both tunnel"@,
            MtuError::OutOfRange => "udp_mtu must be between 256 and 65507"@,
        }
    }

    /// The error in words.
    pub fn message(&self) -> (r: String)
        ensures
            r@ == self.text(),
    {
        match self {
            MtuError::NotUdp => "udp_mtu requires a udp or both tunnel".to_string(),
            MtuError::OutOfRange => "udp_mtu must be between 256 and 65507".to_string(),
        }
    }
}

/// Why a packet size is refused, if it is.
pub open spec fn udp_mtu_error(proto: Proto, udp_mtu: Option<u16>) -> Option<MtuError> {
    match udp_mtu {
        None => None,
        Some(mtu) => if !proto.spec_has_udp() {
            Some(MtuError::NotUdp)
        } else if mtu < MIN_UDP_MTU || mtu > MAX_UDP_MTU {
            Some(MtuError::OutOfRange)
        } else {
            None
        },
    }
}

/// The packet size of a tunnel: the requested one or the default, if the tunnel carries UDP.
pub open spec fn spec_resolved_udp_mtu(proto: Proto, udp_mtu: Option<u16>) -> Option<u16> {
    if !proto.spec_has_udp() {
        None
    } else {
        match udp_mtu {
            Some(mtu) => Some(mtu),
            None => Some(DEFAULT_UDP_MTU),
        }
    }
}

/// Check a requested packet size.
pub fn validate_udp_mtu(proto: Proto, udp_mtu: Option<u16>) -> (r: Result<(), MtuError>)
    ensures
        match r {
            Ok(()) => udp_mtu_error(proto, udp_mtu) is None,
            Err(e) => udp_mtu_error(proto, udp_mtu) == Some(e),
        },
{
    match udp_mtu {
        None => Ok(()),
        Some(mtu) => {
            if !proto.has_udp() {
                Err(MtuError::NotUdp)
            } else if mtu < MIN_UDP_MTU || mtu > MAX_UDP_MTU {
                Err(MtuError::OutOfRange)
            } else {
                Ok(())
            }
        },
    }
}

/// The packet size of a tunnel, if it carries UDP.
pub fn resolved_udp_mtu(proto: Proto, udp_mtu: Option<u16>) -> (r: Option<u16>)
    ensures
        r == spec_resolved_udp_mtu(proto, udp_mtu),
{
    if !proto.has_udp() {
        None
    } else {
        match udp_mtu {
            Some(mtu) => Some(mtu),
            None => Some(DEFAULT_UDP_MTU),
        }
    }
}

/// Every packet size that a tunnel can end up with carries fragments: with it, a datagram of any
/// size up to the largest can be sent.
pub proof fn law_resolved_mtu_carries_datagrams(proto: Proto, udp_mtu: Option<u16>, len: nat)
    requires
        udp_mtu_error(proto, udp_mtu) is None,
        len <= 65_535 + 19,
    ensures
        spec_resolved_udp_mtu(proto, udp_mtu) matches Some(mtu) ==> crate::udp::data_packet_error(
            len,
            mtu,
        ) is None,
{
    if spec_resolved_udp_mtu(proto, udp_mtu) is Some {
        let mtu = spec_resolved_udp_mtu(proto, udp_mtu)->0;
        let cap = crate::udp::chunk_capacity(mtu);
        assert(cap >= 210);
        assert((len + cap - 1) / cap as int <= 65535) by (nonlinear_arith)
            requires
                cap >= 210,
                len <= 65_554,
        ;
    }
}

// ---------------------------------------------------------------------------
// Local endpoints
// ---------------------------------------------------------------------------

/// The text stands for no local endpoint.
#[derive(Clone, Copy, Debug, PartialEq, Eq, Structural)]
pub struct EndpointError;

/// The text before and after the last `:` of `s`.
pub open spec fn split_last_colon(s: Seq<char>) -> Option<(Seq<char>, Seq<char>)> {
    if s.contains(':') {
        let i = choose|i: int|
            0 <= i < s.len() && s[i] == ':' && forall|j: int| i < j < s.len() ==> s[j] != ':';
        Some((s.take(i), s.skip(i + 1)))
    } else {
        None
    }
}

/// The endpoint with the port replaced.
pub open spec fn with_port(addr: SocketAddr, port: u16) -> SocketAddr {
    match addr {
        SocketAddr::V4 { ip, .. } => SocketAddr::V4 { ip, port },
        SocketAddr::V6 { ip, flowinfo, scope_id, .. } => SocketAddr::V6 {
            ip,
            port,
            flowinfo,
            scope_id,
        },
    }
}

/// The endpoint that a text stands for: `HOST:PORT`, or `HOST:` with a selection of ports, in
/// which case the endpoint has the first of them and the selection is kept.
pub open spec fn parsed_endpoint(s: Seq<char>) -> Option<(SocketAddr, Option<Seq<char>>)> {
    match parsed_socket_addr(s) {
        Some(addr) => Some((addr, None)),
        None => match split_last_colon(s) {
            None => None,
            Some((host, ports)) => match (
                parsed_socket_addr(host + ":0"@),
                parsed_local_ports(trimmed(ports)),
            ) {
                (Some(addr), Ok((list, _))) => if list.len() > 0 {
                    Some((with_port(addr, list[0]), Some(trimmed(ports))))
                } else {
                    None
                },
                _ => None,
            },
        },
    }
}

/// The text of an optional string.
pub open spec fn option_view(s: Option<String>) -> Option<Seq<char>> {
    match s {
        Some(s) => Some(s@),
        None => None,
    }
}

/// A copy of an optional string.
pub fn clone_option(s: &Option<String>) -> (r: Option<String>)
    ensures
        option_view(r) == option_view(*s),
        r is Some == s is Some,
{
    match s {
        Some(s) => Some(s.clone()),
        None => None,
    }
}

/// The endpoint with the port replaced.
pub fn replace_port(addr: SocketAddr, port: u16) -> (r: SocketAddr)
    ensures
        r == with_port(addr, port),
{
    match addr {
        SocketAddr::V4 { ip, .. } => SocketAddr::V4 { ip, port },
        SocketAddr::V6 { ip, flowinfo, scope_id, .. } => SocketAddr::V6 {
            ip,
            port,
            flowinfo,
            scope_id,
        },
    }
}

/// Read a local endpoint, which may select several ports.
pub fn parse_endpoint_chars(s: &[char]) -> (r: Result<(SocketAddr, Option<String>), EndpointError>)
    ensures
        match r {
            Ok((addr, ports)) => parsed_endpoint(s@) == Some((addr, option_view(ports))),
            Err(_) => parsed_endpoint(s@) is None,
        },
{
    match parse_socket_addr(s) {
        Some(addr) => {
            return Ok((addr, None));
        },
        None => {},
    }
    let n: usize = s.len();
    match last_index_of(s, ':') {
        None => Err(EndpointError),
        Some(i) => {
            let ports = trim_chars(slice_subrange(s, i + 1, n));
            let mut host: Vec<char> = Vec::new();
            host.extend_from_slice(slice_subrange(s, 0, i));
            host.push(':');
            host.push('0');
            proof {
                reveal_strlit(":0");
                let k = choose|k: int|
                    0 <= k < s@.len() && s@[k] == ':' && forall|j: int|
                        k < j < s@.len() ==> s@[j] != ':';
                assert(k == i) by {
                    if k < i {
                        assert(s@[i as int] != ':');
                    }
                    if i < k {
                        assert(s@[k] != ':');
                    }
                }
                assert(s@.subrange(i + 1, s@.len() as int) =~= s@.skip(i + 1));
                assert(host@ =~= s@.take(i as int) + ":0"@);
            }
            match (parse_socket_addr(&host), parse_local_ports_chars(ports)) {
                (Some(addr), Ok(selection)) => {
                    let list = selection.ports();
                    if list.len() == 0 {
                        return Err(EndpointError);
                    }
                    Ok((replace_port(addr, list[0]), Some(string_of(ports))))
                },
                _ => Err(EndpointError),
            }
        },
    }
}

/// Read a local endpoint, which may select several ports.
pub fn parse_local_endpoint(s: &str) -> (r: Result<(SocketAddr, Option<String>), EndpointError>)
    ensures
        match r {
            Ok((addr, ports)) => parsed_endpoint(s@) == Some((addr, option_view(ports))),
            Err(_) => parsed_endpoint(s@) is None,
        },
{
    parse_endpoint_chars(&chars_of(s))
}

// ---------------------------------------------------------------------------
// Tunnel definition (shared between config file and runtime)
// ---------------------------------------------------------------------------

/// Whether and how the addresses of end users are passed on to a TCP service.
#[derive(Clone, Copy, Debug, PartialEq, Eq, Structural)]
pub enum ProxyProtocol {
    Off,
    V1,
    V2,
}

impl ProxyProtocol {
    pub open spec fn spec_name(self) -> Seq<char> {
        match self {
            ProxyProtocol::Off => "off"@,
            ProxyProtocol::V1 => "v1"@,
            ProxyProtocol::V2 => "v2"@,
        }
    }

    pub fn to_string(&self) -> (r: String)
        ensures
            r@ == self.spec_name(),
    {
        match self {
            ProxyProtocol::Off => "off".to_string(),
            ProxyProtocol::V1 => "v1".to_string(),
            ProxyProtocol::V2 => "v2".to_string(),
        }
    }

    /// The mode that a name stands for, in any ASCII case.
    pub open spec fn parsed(s: Seq<char>) -> Option<ProxyProtocol> {
        if ascii_lowered(s) == ProxyProtocol::Off.spec_name() {
            Some(ProxyProtocol::Off)
        } else if ascii_lowered(s) == ProxyProtocol::V1.spec_name() {
            Some(ProxyProtocol::V1)
        } else if ascii_lowered(s) == ProxyProtocol::V2.spec_name() {
            Some(ProxyProtocol::V2)
        } else {
            None
        }
    }

    /// The mode that a name stands for, in any ASCII case.
    pub fn parse_chars(s: &[char]) -> (r: Option<ProxyProtocol>)
        ensures
            r == ProxyProtocol::parsed(s@),
    {
        let lower = ascii_lowercase(s);
        if chars_eq_str(&lower, "off") {
            Some(ProxyProtocol::Off)
        } else if chars_eq_str(&lower, "v1") {
            Some(ProxyProtocol::V1)
        } else if chars_eq_str(&lower, "v2") {
            Some(ProxyProtocol::V2)
        } else {
            None
        }
    }
}

impl Default for ProxyProtocol {
    fn default() -> (r: ProxyProtocol)
        ensures
            r is Off,
    {
        ProxyProtocol::Off
    }
}

/// The public port that a request for one asks for; 0 asks for none, as no port does.
pub open spec fn asked_port(remote_port: Option<u16>) -> Option<u16> {
    match remote_port {
        Some(0) => None,
        p => p,
    }
}

/// The public port that a request for one asks for, if it asks for any.
pub fn requested_port(remote_port: Option<u16>) -> (r: Option<u16>)
    ensures
        r == asked_port(remote_port),
{
    match remote_port {
        Some(port) => if port == 0 {
            None
        } else {
            Some(port)
        },
        None => None,
    }
}

/// One tunnel.
#[derive(Debug, PartialEq, Eq)]
pub struct TunnelConfig {
    pub name: String,
    pub protocol: Proto,
    /// Local service address the client forwards to, e.g. 127.0.0.1:25565.
    pub local_addr: SocketAddr,
    /// The local ports of a tunnel with several of them.
    pub local_ports: Option<String>,
    /// Requested public port on the server. `None`/`0` => server picks one.
    pub remote_port: Option<u16>,
    pub enabled: bool,
    /// Whether data channels are encrypted.
    pub encrypted: bool,
    /// Packet size of plaintext UDP channels.
    pub udp_mtu: Option<u16>,
    /// Loopback network that local UDP flows take their source addresses from.
    pub udp_source_pool: Option<UdpSourcePool>,
    pub proxy_protocol: ProxyProtocol,
}

/// The contents of a tunnel definition.
#[verifier::ext_equal]
pub struct TunnelView {
    pub name: Seq<char>,
    pub protocol: Proto,
    pub local_addr: SocketAddr,
    pub local_ports: Option<Seq<char>>,
    pub remote_port: Option<u16>,
    pub enabled: bool,
    pub encrypted: bool,
    pub udp_mtu: Option<u16>,
    pub udp_source_pool: Option<(u32, u8)>,
    pub proxy_protocol: ProxyProtocol,
}

/// The first address and the prefix length of a pool.
pub open spec fn pool_view(pool: Option<UdpSourcePool>) -> Option<(u32, u8)> {
    match pool {
        Some(p) => Some((p.spec_base(), p.spec_prefix())),
        None => None,
    }
}

impl View for TunnelConfig {
    type V = TunnelView;

    open spec fn view(&self) -> TunnelView {
        TunnelView {
            name: self.name@,
            protocol: self.protocol,
            local_addr: self.local_addr,
            local_ports: option_view(self.local_ports),
            remote_port: self.remote_port,
            enabled: self.enabled,
            encrypted: self.encrypted,
            udp_mtu: self.udp_mtu,
            udp_source_pool: pool_view(self.udp_source_pool),
            proxy_protocol: self.proxy_protocol,
        }
    }
}

impl Clone for TunnelConfig {
    fn clone(&self) -> (r: TunnelConfig)
        ensures
            r@ == self@,
            r.udp_source_pool == self.udp_source_pool,
    {
        TunnelConfig {
            name: self.name.clone(),
            protocol: self.protocol,
            local_addr: self.local_addr,
            local_ports: clone_option(&self.local_ports),
            remote_port: self.remote_port,
            enabled: self.enabled,
            encrypted: self.encrypted,
            udp_mtu: self.udp_mtu,
            udp_source_pool: self.udp_source_pool,
            proxy_protocol: self.proxy_protocol,
        }
    }
}

/// Why a tunnel definition was refused.
#[derive(Clone, Copy, Debug, PartialEq, Eq, Structural)]
pub enum TunnelError {
    Mtu(MtuError),
    /// A source pool needs a UDP-capable tunnel.
    PoolWithoutUdp,
    /// A source pool needs an IPv4 loopback service.
    PoolNeedsLoopback,
    /// PROXY protocol needs a TCP tunnel.
    ProxyNeedsTcp,
    Ports(PortsError),
    /// More ports than a tunnel may reserve.
    TooManyPorts,
}

impl TunnelError {
    pub open spec fn text(self) -> Seq<char> {
        match self {
            TunnelError::Mtu(e) => e.text(),
            TunnelError::PoolWithoutUdp => "udp_source_pool requires a udp or both tunnel"@,
            TunnelError::PoolNeedsLoopback =>
                "udp_source_pool requires an IPv4 loopback local address"@,
            TunnelError::ProxyNeedsTcp => "proxy_protocol requires a tcp tunnel"@,
            TunnelError::Ports(e) => e.text(),
            TunnelError::TooManyPorts => "a tunnel can reserve at most 2048 ports"@,
        }
    }

    /// The error in words.
    pub fn message(&self) -> (r: String)
        ensures
            r@ == self.text(),
    {
        match self {
            TunnelError::Mtu(e) => e.message(),
            TunnelError::PoolWithoutUdp =>
                "udp_source_pool requires a udp or both tunnel".to_string(),
            TunnelError::PoolNeedsLoopback =>
                "udp_source_pool requires an IPv4 loopback local address".to_string(),
            TunnelError::ProxyNeedsTcp => "proxy_protocol requires a tcp tunnel".to_string(),
            TunnelError::Ports(e) => e.message(),
            TunnelError::TooManyPorts => "a tunnel can reserve at most 2048 ports".to_string(),
        }
    }
}

/// Whether an endpoint is an IPv4 loopback one.
pub open spec fn is_ipv4_loopback(addr: SocketAddr) -> bool {
    addr matches SocketAddr::V4 { ip, .. } && ip / 0x100_0000 == 127
}

/// Why a tunnel definition is refused, if it is.
pub open spec fn tunnel_error(t: TunnelView) -> Option<TunnelError> {
    if udp_mtu_error(t.protocol, t.udp_mtu) is Some {
        Some(TunnelError::Mtu(udp_mtu_error(t.protocol, t.udp_mtu)->0))
    } else if t.udp_source_pool is Some && !t.protocol.spec_has_udp() {
        Some(TunnelError::PoolWithoutUdp)
    } else if t.udp_source_pool is Some && !is_ipv4_loopback(t.local_addr) {
        Some(TunnelError::PoolNeedsLoopback)
    } else if t.proxy_protocol !is Off && t.protocol !is Tcp {
        Some(TunnelError::ProxyNeedsTcp)
    } else {
        match t.local_ports {
            None => None,
            Some(spec) => match parsed_local_ports(spec) {
                Err(e) => Some(TunnelError::Ports(e)),
                Ok((ports, _)) => if ports.len() > MAX_TUNNEL_PORTS {
                    Some(TunnelError::TooManyPorts)
                } else {
                    None
                },
            },
        }
    }
}

/// Check a tunnel definition.
pub fn validate_tunnel_config(t: &TunnelConfig) -> (r: Result<(), TunnelError>)
    ensures
        match r {
            Ok(()) => tunnel_error(t@) is None,
            Err(e) => tunnel_error(t@) == Some(e),
        },
{
    match validate_udp_mtu(t.protocol, t.udp_mtu) {
        Err(e) => {
            return Err(TunnelError::Mtu(e));
        },
        Ok(()) => {},
    }
    if t.udp_source_pool.is_some() {
        if !t.protocol.has_udp() {
            return Err(TunnelError::PoolWithoutUdp);
        }
        let loopback = match t.local_addr.ip() {
            IpAddr::V4(ip) => ip / 0x100_0000 == 127,
            IpAddr::V6(_) => false,
        };
        if !loopback {
            return Err(TunnelError::PoolNeedsLoopback);
        }
    }
    if t.proxy_protocol != ProxyProtocol::Off && t.protocol != Proto::Tcp {
        return Err(TunnelError::ProxyNeedsTcp);
    }
    match &t.local_ports {
        None => Ok(()),
        Some(spec) => match parse_local_ports(spec) {
            Err(e) => Err(TunnelError::Ports(e)),
            Ok(selection) => {
                if selection.ports().len() > MAX_TUNNEL_PORTS {
                    Err(TunnelError::TooManyPorts)
                } else {
                    Ok(())
                }
            },
        },
    }
}

// ---------------------------------------------------------------------------
// The command-line form of a tunnel:
// name=proto:LOCAL->REMOTE[;proxy=..][;encrypted=..][;udp_mtu=..][;udp_source_pool=..]
// ---------------------------------------------------------------------------

/// Why a tunnel spec was refused.
#[derive(Clone, Copy, Debug, PartialEq, Eq, Structural)]
pub enum SpecError {
    /// No `name=`.
    MissingName,
    /// No `proto:`.
    MissingProto,
    /// No `LOCAL->REMOTE`.
    MissingArrow,
    InvalidProtocol,
    InvalidLocal,
    InvalidRemote,
    /// An option that is not `key=value`.
    MalformedOption,
    UnknownOption,
    /// An option whose value makes no sense.
    InvalidOption,
    /// The parts are fine but do not go together.
    Tunnel(TunnelError),
}

/// The protocol that a name stands for, in any ASCII case.
pub open spec fn parsed_proto(s: Seq<char>) -> Option<Proto> {
    if ascii_lowered(s) == Proto::Tcp.spec_name() {
        Some(Proto::Tcp)
    } else if ascii_lowered(s) == Proto::Udp.spec_name() {
        Some(Proto::Udp)
    } else if ascii_lowered(s) == Proto::Both.spec_name() {
        Some(Proto::Both)
    } else {
        None
    }
}

/// The truth value that a text stands for.
pub open spec fn parsed_bool(s: Seq<char>) -> Option<bool> {
    if s == "true"@ {
        Some(true)
    } else if s == "false"@ {
        Some(false)
    } else {
        None
    }
}

/// A tunnel with an option applied.
pub open spec fn with_option(t: TunnelView, key: Seq<char>, value: Seq<char>) -> Result<
    TunnelView,
    SpecError,
> {
    if key == "proxy"@ {
        match ProxyProtocol::parsed(value) {
            Some(proxy_protocol) => Ok(TunnelView { proxy_protocol, ..t }),
            None => Err(SpecError::InvalidOption),
        }
    } else if key == "encrypted"@ || key == "encrypt"@ || key == "tls"@ {
        match parsed_bool(value) {
            Some(encrypted) => Ok(TunnelView { encrypted, ..t }),
            None => Err(SpecError::InvalidOption),
        }
    } else if key == "udp_mtu"@ || key == "mtu"@ {
        match parsed_dec(value, 0xffff) {
            Some(mtu) => Ok(TunnelView { udp_mtu: Some(mtu as u16), ..t }),
            None => Err(SpecError::InvalidOption),
        }
    } else if key == "udp_source_pool"@ {
        match parsed_pool(value) {
            Ok(pool) => Ok(TunnelView { udp_source_pool: Some(pool), ..t }),
            Err(_) => Err(SpecError::InvalidOption),
        }
    } else {
        Err(SpecError::UnknownOption)
    }
}

/// A tunnel with a `key=value` text applied.
pub open spec fn with_option_text(t: TunnelView, option: Seq<char>) -> Result<
    TunnelView,
    SpecError,
> {
    match split_first(option, "="@) {
        None => Err(SpecError::MalformedOption),
        Some((key, value)) => with_option(t, trimmed(key), trimmed(value)),
    }
}

/// A tunnel with options applied, one after the other.
pub open spec fn with_options(t: TunnelView, options: Seq<Seq<char>>) -> Result<
    TunnelView,
    SpecError,
>
    decreases options.len(),
{
    if options.len() == 0 {
        Ok(t)
    } else {
        match with_options(t, options.drop_last()) {
            Ok(front) => with_option_text(front, options.last()),
            Err(e) => Err(e),
        }
    }
}

/// The tunnel that a spec stands for, before its parts are held against each other.
pub open spec fn parts_of_spec(s: Seq<char>) -> Result<TunnelView, SpecError> {
    match split_first(s, "="@) {
        None => Err(SpecError::MissingName),
        Some((name, rest)) => match split_first(rest, ":"@) {
            None => Err(SpecError::MissingProto),
            Some((proto, addrs)) => match split_first(addrs, "->"@) {
                None => Err(SpecError::MissingArrow),
                Some((local, tail)) => {
                    let pieces = split_all(tail, ';');
                    match parsed_proto(proto) {
                        None => Err(SpecError::InvalidProtocol),
                        Some(protocol) => match parsed_endpoint(trimmed(local)) {
                            None => Err(SpecError::InvalidLocal),
                            Some((local_addr, local_ports)) => match parsed_dec(
                                trimmed(pieces[0]),
                                0xffff,
                            ) {
                                None => Err(SpecError::InvalidRemote),
                                Some(port) => with_options(
                                    TunnelView {
                                        name: trimmed(name),
                                        protocol,
                                        local_addr,
                                        local_ports,
                                        remote_port: if port == 0 {
                                            None
                                        } else {
                                            Some(port as u16)
                                        },
                                        enabled: true,
                                        encrypted: false,
                                        udp_mtu: None,
                                        udp_source_pool: None,
                                        proxy_protocol: ProxyProtocol::Off,
                                    },
                                    pieces.drop_first(),
                                ),
                            },
                        },
                    }
                },
            },
        },
    }
}

/// The tunnel that a spec stands for.
#[verifier::opaque]
pub open spec fn tunnel_of_spec(s: Seq<char>) -> Result<TunnelView, SpecError> {
    match parts_of_spec(s) {
        Err(e) => Err(e),
        Ok(t) => match tunnel_error(t) {
            Some(e) => Err(SpecError::Tunnel(e)),
            None => Ok(t),
        },
    }
}

/// Whether the source pool of a tunnel is one.
pub open spec fn pool_wf(pool: Option<UdpSourcePool>) -> bool {
    pool matches Some(p) ==> p.wf()
}

/// The protocol that a name stands for.
pub fn parse_proto(s: &[char]) -> (r: Option<Proto>)
    ensures
        r == parsed_proto(s@),
{
    match Proto::parse_chars(s) {
        Ok(proto) => {
            proof {
                crate::protocol::lemma_proto_names(proto, Proto::Tcp);
                crate::protocol::lemma_proto_names(proto, Proto::Udp);
                crate::protocol::lemma_proto_names(proto, Proto::Both);
            }
            Some(proto)
        },
        Err(_) => None,
    }
}

/// Apply a `key=value` text to a tunnel.
fn apply_option(t: &mut TunnelConfig, option: &[char]) -> (r: Result<(), SpecError>)
    requires
        pool_wf(old(t).udp_source_pool),
    ensures
        pool_wf(final(t).udp_source_pool),
        match r {
            Ok(()) => with_option_text(old(t)@, option@) == Ok::<_, SpecError>(final(t)@),
            Err(e) => with_option_text(old(t)@, option@) == Err::<TunnelView, _>(e),
        },
{
    let equals = chars_of("=");
    match split_once(option, &equals) {
        None => Err(SpecError::MalformedOption),
        Some((key, value)) => {
            let key = trim_chars(key);
            let value = trim_chars(value);
            if chars_eq_str(key, "proxy") {
                match ProxyProtocol::parse_chars(value) {
                    Some(mode) => {
                        t.proxy_protocol = mode;
                        Ok(())
                    },
                    None => Err(SpecError::InvalidOption),
                }
            } else if chars_eq_str(key, "encrypted") || chars_eq_str(key, "encrypt")
                || chars_eq_str(key, "tls") {
                if chars_eq_str(value, "true") {
                    t.encrypted = true;
                    Ok(())
                } else if chars_eq_str(value, "false") {
                    t.encrypted = false;
                    Ok(())
                } else {
                    Err(SpecError::InvalidOption)
                }
            } else if chars_eq_str(key, "udp_mtu") || chars_eq_str(key, "mtu") {
                match parse_u16(value) {
                    Some(mtu) => {
                        t.udp_mtu = Some(mtu);
                        Ok(())
                    },
                    None => Err(SpecError::InvalidOption),
                }
            } else if chars_eq_str(key, "udp_source_pool") {
                match UdpSourcePool::parse(value) {
                    Ok(pool) => {
                        t.udp_source_pool = Some(pool);
                        Ok(())
                    },
                    Err(_) => Err(SpecError::InvalidOption),
                }
            } else {
                Err(SpecError::UnknownOption)
            }
        },
    }
}

proof fn lemma_options_fail(t: TunnelView, options: Seq<Seq<char>>, n: int, e: SpecError)
    requires
        0 <= n <= options.len(),
        with_options(t, options.take(n)) == Err::<TunnelView, _>(e),
    ensures
        with_options(t, options) == Err::<TunnelView, _>(e),
    decreases options.len() - n,
{
    if n < options.len() {
        assert(options.take(n + 1).drop_last() =~= options.take(n));
        lemma_options_fail(t, options, n + 1, e);
    } else {
        assert(options.take(n) =~= options);
    }
}

/// Apply the pieces of a spec after the first to a tunnel.
fn apply_options(t: &mut TunnelConfig, pieces: &Vec<Vec<char>>) -> (r: Result<(), SpecError>)
    requires
        pool_wf(old(t).udp_source_pool),
        pieces@.len() > 0,
    ensures
        pool_wf(final(t).udp_source_pool),
        match r {
            Ok(()) => with_options(old(t)@, pieces_view(pieces@).drop_first()) == Ok::<
                _,
                SpecError,
            >(final(t)@),
            Err(e) => with_options(old(t)@, pieces_view(pieces@).drop_first()) == Err::<
                TunnelView,
                _,
            >(e),
        },
{
    let ghost before = t@;
    let ghost options = pieces_view(pieces@).drop_first();
    let mut i: usize = 1;
    assert(options.take(0) =~= Seq::<Seq<char>>::empty());
    while i < pieces.len()
        invariant
            1 <= i <= pieces@.len(),
            before == old(t)@,
            pool_wf(t.udp_source_pool),
            options == pieces_view(pieces@).drop_first(),
            with_options(before, options.take(i - 1)) == Ok::<_, SpecError>(t@),
        decreases pieces@.len() - i,
    {
        proof {
            assert(options.take(i as int).drop_last() =~= options.take(i - 1));
            assert(options.take(i as int).last() == pieces@[i as int]@);
        }
        match apply_option(t, &pieces[i]) {
            Ok(()) => {},
            Err(e) => {
                proof {
                    lemma_options_fail(before, options, i as int, e);
                }
                return Err(e);
            },
        }
        i += 1;
    }
    assert(options.take(options.len() as int) =~= options);
    Ok(())
}

fn parse_parts(spec: &[char]) -> (r: Result<TunnelConfig, SpecError>)
    ensures
        match r {
            Ok(t) => parts_of_spec(spec@) == Ok::<_, SpecError>(t@) && pool_wf(t.udp_source_pool),
            Err(e) => parts_of_spec(spec@) == Err::<TunnelView, _>(e),
        },
{
    let equals = chars_of("=");
    let colon = chars_of(":");
    let arrow = chars_of("->");
    let (name, rest) = match split_once(spec, &equals) {
        Some(x) => x,
        None => {
            return Err(SpecError::MissingName);
        },
    };
    let (proto, addrs) = match split_once(rest, &colon) {
        Some(x) => x,
        None => {
            return Err(SpecError::MissingProto);
        },
    };
    let (local, tail) = match split_once(addrs, &arrow) {
        Some(x) => x,
        None => {
            return Err(SpecError::MissingArrow);
        },
    };
    let pieces = split_on(tail, ';');
    let protocol = match parse_proto(proto) {
        Some(p) => p,
        None => {
            return Err(SpecError::InvalidProtocol);
        },
    };
    let (local_addr, local_ports) = match parse_endpoint_chars(trim_chars(local)) {
        Ok(x) => x,
        Err(_) => {
            return Err(SpecError::InvalidLocal);
        },
    };
    assert(pieces_view(pieces@)[0] == pieces@[0]@);
    let port: u16 = match parse_u16(trim_chars(&pieces[0])) {
        Some(p) => p,
        None => {
            return Err(SpecError::InvalidRemote);
        },
    };
    let mut t = TunnelConfig {
        name: string_of(trim_chars(name)),
        protocol,
        local_addr,
        local_ports,
        remote_port: if port == 0 {
            None
        } else {
            Some(port)
        },
        enabled: true,
        encrypted: false,
        udp_mtu: None,
        udp_source_pool: None,
        proxy_protocol: ProxyProtocol::Off,
    };
    match apply_options(&mut t, &pieces) {
        Ok(()) => Ok(t),
        Err(e) => Err(e),
    }
}

/// Parse a `name=proto:LOCAL->REMOTE[;key=value..]` command-line spec.
pub fn parse_tunnel_spec(spec: &str) -> (r: Result<TunnelConfig, SpecError>)
    ensures
        match r {
            Ok(t) => tunnel_of_spec(spec@) == Ok::<_, SpecError>(t@) && pool_wf(
                t.udp_source_pool,
            ),
            Err(e) => tunnel_of_spec(spec@) == Err::<TunnelView, _>(e),
        },
{
    proof {
        reveal(tunnel_of_spec);
    }
    match parse_parts(&chars_of(spec)) {
        Err(e) => Err(e),
        Ok(t) => match validate_tunnel_config(&t) {
            Ok(()) => Ok(t),
            Err(e) => Err(SpecError::Tunnel(e)),
        },
    }
}

// ---------------------------------------------------------------------------
// Logging config (shared by server and client)
// ---------------------------------------------------------------------------

/// Where log lines go.
#[derive(Debug, Clone, Copy, PartialEq, Eq, Structural)]
pub enum LogMode {
    Both,
    Console,
    File,
    Off,
}

impl LogMode {
    pub open spec fn spec_name(self) -> Seq<char> {
        match self {
            LogMode::Both => "both"@,
            LogMode::Console => "console"@,
            LogMode::File => "file"@,
            LogMode::Off => "off"@,
        }
    }

    pub fn console_enabled(self) -> (r: bool)
        ensures
            r == (self is Both || self is Console),
    {
        matches!(self, LogMode::Both | LogMode::Console)
    }

    pub fn file_enabled(self) -> (r: bool)
        ensures
            r == (self is Both || self is File),
    {
        matches!(self, LogMode::Both | LogMode::File)
    }

    /// The mode that a name in a config file stands for.
    pub fn parse(name: &str) -> (r: Option<LogMode>)
        ensures
            match r {
                Some(mode) => name@ == mode.spec_name(),
                None => forall|m: LogMode| name@ != #[trigger] m.spec_name(),
            },
    {
        if str_eq(name, "both") {
            Some(LogMode::Both)
        } else if str_eq(name, "console") {
            Some(LogMode::Console)
        } else if str_eq(name, "file") {
            Some(LogMode::File)
        } else if str_eq(name, "off") {
            Some(LogMode::Off)
        } else {
            None
        }
    }
}

impl Default for LogMode {
    fn default() -> (r: LogMode)
        ensures
            r is Both,
    {
        LogMode::Both
    }
}

/// How log lines are written.
#[derive(Debug, Clone, PartialEq, Eq)]
pub struct LoggingConfig {
    pub mode: LogMode,
    pub level: String,
    pub directory: String,
    pub max_files: usize,
}

/// The `[logging]` table of a config file; what it leaves out has a default.
#[derive(Debug, Clone, PartialEq, Eq)]
pub struct LoggingTable {
    pub mode: Option<LogMode>,
    pub level: Option<String>,
    pub directory: Option<String>,
    pub max_files: Option<usize>,
}

pub fn default_log_level() -> (r: String)
    ensures
        r@ == "info"@,
{
    "info".to_string()
}

pub fn default_log_directory() -> (r: String)
    ensures
        r@ == "Logs"@,
{
    "Logs".to_string()
}

pub fn default_log_max_files() -> (r: usize)
    ensures
        r == 14,
{
    14
}

/// An optional text or a default.
pub open spec fn text_or(value: Option<String>, default: Seq<char>) -> Seq<char> {
    match value {
        Some(s) => s@,
        None => default,
    }
}

impl Default for LoggingConfig {
    fn default() -> (r: LoggingConfig)
        ensures
            r.mode is Both,
            r.level@ == "info"@,
            r.directory@ == "Logs"@,
            r.max_files == 14,
    {
        LoggingConfig {
            mode: LogMode::default(),
            level: default_log_level(),
            directory: default_log_directory(),
            max_files: default_log_max_files(),
        }
    }
}

/// Whether logging settings are those of a config file with the given `[logging]` table.
pub open spec fn loads_logging(table: Option<LoggingTable>, r: LoggingConfig) -> bool {
    match table {
        None => r.mode is Both && r.level@ == "info"@ && r.directory@ == "Logs"@ && r.max_files
            == 14,
        Some(t) => {
            &&& r.mode == (match t.mode {
                Some(mode) => mode,
                None => LogMode::Both,
            })
            &&& r.level@ == text_or(t.level, "info"@)
            &&& r.directory@ == text_or(t.directory, "Logs"@)
            &&& r.max_files == (match t.max_files {
                Some(n) => n,
                None => 14,
            })
        },
    }
}

/// The logging settings of a config file, of which `table` is the `[logging]` table.
pub fn load_logging(table: Option<LoggingTable>) -> (r: LoggingConfig)
    ensures
        loads_logging(table, r),
{
    match table {
        None => LoggingConfig::default(),
        Some(t) => LoggingConfig {
            mode: match t.mode {
                Some(mode) => mode,
                None => LogMode::default(),
            },
            level: match t.level {
                Some(level) => level,
                None => default_log_level(),
            },
            directory: match t.directory {
                Some(directory) => directory,
                None => default_log_directory(),
            },
            max_files: match t.max_files {
                Some(n) => n,
                None => default_log_max_files(),
            },
        },
    }
}

// ---------------------------------------------------------------------------
// Secrets
// ---------------------------------------------------------------------------

/// Why settings could not be put together.
#[derive(Clone, Copy, Debug, PartialEq, Eq, Structural)]
pub enum ConfigError {
    /// No secret in a secret file, the environment or the config file.
    NoSecret,
    /// The lowest public port exceeds the highest.
    PortRange { min_port: u16, max_port: u16 },
    NoServerAddress,
    NoFingerprint,
    /// The bind address and port are no endpoint.
    InvalidBind,
    Spec(SpecError),
}

/// Where a secret may come from besides the config file.
pub struct SecretSources {
    /// The contents of the file named by `--secret-file`.
    pub file: Option<String>,
    /// The value of the environment variable.
    pub env: Option<String>,
}

/// The secret: that of the secret file, without white space around it, else that of the
/// environment, else that of the config file. The latter two count only if they are not empty.
pub open spec fn resolved_secret(
    file: Option<Seq<char>>,
    env: Option<Seq<char>>,
    config: Option<Seq<char>>,
) -> Option<Seq<char>> {
    match file {
        Some(contents) => Some(trimmed(contents)),
        None => match env {
            Some(s) if s.len() > 0 => Some(s),
            _ => match config {
                Some(s) if s.len() > 0 => Some(s),
                _ => None,
            },
        },
    }
}

fn is_empty(s: &str) -> (r: bool)
    ensures
        r == (s@.len() == 0),
{
    chars_of(s).len() == 0
}

/// Resolve the shared secret: --secret-file > environment > config file.
pub fn resolve_secret(sources: &SecretSources, config: &Option<String>) -> (r: Result<
    String,
    ConfigError,
>)
    ensures
        match r {
            Ok(s) => resolved_secret(
                option_view(sources.file),
                option_view(sources.env),
                option_view(*config),
            ) == Some(s@),
            Err(e) => e is NoSecret && resolved_secret(
                option_view(sources.file),
                option_view(sources.env),
                option_view(*config),
            ) is None,
        },
{
    match &sources.file {
        Some(contents) => {
            let chars = chars_of(contents);
            return Ok(string_of(trim_chars(&chars)));
        },
        None => {},
    }
    match &sources.env {
        Some(s) => {
            if !is_empty(s) {
                return Ok(s.clone());
            }
        },
        None => {},
    }
    match config {
        Some(s) => {
            if !is_empty(s) {
                return Ok(s.clone());
            }
        },
        None => {},
    }
    Err(ConfigError::NoSecret)
}

/// Whether a shared secret is available without a config file.
pub fn has_secret_source(secret_file: bool, env: &Option<String>) -> (r: bool)
    ensures
        r == (secret_file || (option_view(*env) matches Some(s) && s.len() > 0)),
{
    secret_file || match env {
        Some(s) => !is_empty(s),
        None => false,
    }
}

/// The secret made of two random numbers.
pub open spec fn secret_text(a: u128, b: u128) -> Seq<char> {
    hex_lower(be(a as nat, 16)) + hex_lower(be(b as nat, 16))
}

/// The secret made of two random numbers.
pub fn secret_of(a: u128, b: u128) -> (r: String)
    ensures
        r@ == secret_text(a, b),
        r@.len() == 64,
{
    let mut out = String::new();
    let first = be16_bytes(a);
    let second = be16_bytes(b);
    push_hex(&mut out, &first);
    push_hex(&mut out, &second);
    assert(out@ =~= secret_text(a, b));
    out
}

/// Generate a fresh random shared secret (244 bits of entropy, hex).
pub fn gen_secret() -> (r: String)
    ensures
        r@.len() == 64,
        exists|a: u128, b: u128|
            is_uuid_v4(a) && is_uuid_v4(b) && r@ == #[trigger] secret_text(a, b),
{
    let a = random_uuid();
    let b = random_uuid();
    secret_of(a, b)
}

// ---------------------------------------------------------------------------
// Server config
// ---------------------------------------------------------------------------

/// The config file of a server.
#[derive(Debug, Clone)]
pub struct ServerFile {
    pub bind_addr: Option<String>,
    pub control_port: Option<u16>,
    pub secret: Option<String>,
    pub min_port: Option<u16>,
    pub max_port: Option<u16>,
    pub cert_path: Option<String>,
    pub key_path: Option<String>,
    /// Public address clients dial (used to build the connection code).
    pub public_host: Option<String>,
    pub logging: LoggingConfig,
}

/// The settings of a server.
#[derive(Debug, Clone)]
pub struct ServerSettings {
    pub bind_addr: String,
    pub control_port: u16,
    pub secret: String,
    pub min_port: u16,
    pub max_port: u16,
    pub cert_path: String,
    pub key_path: String,
    pub public_host: Option<String>,
}

impl ServerSettings {
    /// The endpoint that clients connect to.
    pub fn ingress_addr(&self) -> (r: Result<SocketAddr, ConfigError>)
        ensures
            match r {
                Ok(addr) => parsed_socket_addr(
                    endpoint_text(self.bind_addr@, self.control_port),
                ) == Some(addr),
                Err(e) => e is InvalidBind && parsed_socket_addr(
                    endpoint_text(self.bind_addr@, self.control_port),
                ) is None,
            },
    {
        let text = endpoint_string(&self.bind_addr, self.control_port);
        match parse_socket_addr(&chars_of(&text)) {
            Some(addr) => Ok(addr),
            None => Err(ConfigError::InvalidBind),
        }
    }

    /// Whether a client may have the public port.
    pub open spec fn spec_port_allowed(&self, port: u16) -> bool {
        self.min_port <= port <= self.max_port
    }

    /// Whether a client may have the public port.
    pub fn port_allowed(&self, port: u16) -> (r: bool)
        ensures
            r == self.spec_port_allowed(port),
    {
        port >= self.min_port && port <= self.max_port
    }
}

/// The first of two optional texts, or a default.
pub open spec fn first_text(a: Option<String>, b: Option<String>, default: Seq<char>) -> Seq<
    char,
> {
    text_or(a, text_or(b, default))
}

/// The first of two optional texts.
pub open spec fn either_text(a: Option<String>, b: Option<String>) -> Option<Seq<char>> {
    match a {
        Some(s) => Some(s@),
        None => option_view(b),
    }
}

/// The first of two optional ports, or a default.
pub open spec fn first_port(a: Option<u16>, b: Option<u16>, default: u16) -> u16 {
    match a {
        Some(p) => p,
        None => match b {
            Some(p) => p,
            None => default,
        },
    }
}

/// The first of two optional texts, or a default.
pub fn pick_text(a: &Option<String>, b: &Option<String>, default: &str) -> (r: String)
    ensures
        r@ == first_text(*a, *b, default@),
{
    match a {
        Some(s) => s.clone(),
        None => match b {
            Some(s) => s.clone(),
            None => default.to_string(),
        },
    }
}

/// The first of two optional texts.
pub fn pick_option(a: &Option<String>, b: &Option<String>) -> (r: Option<String>)
    ensures
        option_view(r) == either_text(*a, *b),
{
    match a {
        Some(s) => Some(s.clone()),
        None => clone_option(b),
    }
}

fn pick_port(a: Option<u16>, b: Option<u16>, default: u16) -> (r: u16)
    ensures
        r == first_port(a, b, default),
{
    match a {
        Some(p) => p,
        None => match b {
            Some(p) => p,
            None => default,
        },
    }
}

/// Whether settings, or the error, are what arguments, a config file and secrets make.
pub open spec fn loads_server(
    args: ServerArgs,
    file: ServerFile,
    secrets: SecretSources,
    r: Result<ServerSettings, ConfigError>,
) -> bool {
    let secret = resolved_secret(
        option_view(secrets.file),
        option_view(secrets.env),
        option_view(file.secret),
    );
    let min_port = first_port(args.min_port, file.min_port, 10_000);
    let max_port = first_port(args.max_port, file.max_port, 20_000);
    match r {
        Ok(s) => {
            &&& secret == Some(s.secret@)
            &&& min_port <= max_port
            &&& s.min_port == min_port
            &&& s.max_port == max_port
            &&& s.bind_addr@ == first_text(args.bind, file.bind_addr, "0.0.0.0"@)
            &&& s.control_port == first_port(
                args.control_port,
                file.control_port,
                DEFAULT_CONTROL_PORT,
            )
            &&& s.cert_path@ == first_text(args.cert_path, file.cert_path, "porthole.crt"@)
            &&& s.key_path@ == first_text(args.key_path, file.key_path, "porthole.key"@)
            &&& option_view(s.public_host) == either_text(
                args.public_host,
                file.public_host,
            )
        },
        Err(ConfigError::NoSecret) => secret is None,
        Err(e) => secret is Some && min_port > max_port && e == (ConfigError::PortRange {
            min_port,
            max_port,
        }),
    }
}

/// The settings of a server: arguments override the config file, which overrides defaults.
pub fn load_server(args: &ServerArgs, file: &ServerFile, secrets: &SecretSources) -> (r: Result<
    ServerSettings,
    ConfigError,
>)
    ensures
        loads_server(*args, *file, *secrets, r),
{
    let secret = match resolve_secret(secrets, &file.secret) {
        Ok(s) => s,
        Err(e) => {
            return Err(e);
        },
    };
    let min_port = pick_port(args.min_port, file.min_port, 10_000);
    let max_port = pick_port(args.max_port, file.max_port, 20_000);
    if min_port > max_port {
        return Err(ConfigError::PortRange { min_port, max_port });
    }
    Ok(
        ServerSettings {
            bind_addr: pick_text(&args.bind, &file.bind_addr, "0.0.0.0"),
            control_port: pick_port(args.control_port, file.control_port, DEFAULT_CONTROL_PORT),
            secret,
            min_port,
            max_port,
            cert_path: pick_text(&args.cert_path, &file.cert_path, "porthole.crt"),
            key_path: pick_text(&args.key_path, &file.key_path, "porthole.key"),
            public_host: pick_option(&args.public_host, &file.public_host),
        },
    )
}

/// Whether a config file is the one that the first run of a server writes.
pub open spec fn first_run(host: Seq<char>, secret: Seq<char>, r: ServerFile) -> bool {
    &&& option_view(r.bind_addr) == Some("0.0.0.0"@)
    &&& r.control_port == Some(DEFAULT_CONTROL_PORT)
    &&& option_view(r.secret) == Some(secret)
    &&& r.min_port == Some(1024u16)
    &&& r.max_port == Some(65535u16)
    &&& option_view(r.cert_path) == Some("porthole.crt"@)
    &&& option_view(r.key_path) == Some("porthole.key"@)
    &&& option_view(r.public_host) == Some(host)
    &&& r.logging.mode is Both
    &&& r.logging.level@ == "info"@
    &&& r.logging.directory@ == "Logs"@
    &&& r.logging.max_files == 14
}

/// The config file that the first run of a server writes.
pub fn first_run_file(host: String, secret: String) -> (r: ServerFile)
    ensures
        first_run(host@, secret@, r),
{
    ServerFile {
        bind_addr: Some("0.0.0.0".to_string()),
        control_port: Some(DEFAULT_CONTROL_PORT),
        secret: Some(secret),
        min_port: Some(1024),
        max_port: Some(65535),
        cert_path: Some("porthole.crt".to_string()),
        key_path: Some("porthole.key".to_string()),
        public_host: Some(host),
        logging: LoggingConfig::default(),
    }
}

// ---------------------------------------------------------------------------
// Client config (the file form doubles as the persistence form)
// ---------------------------------------------------------------------------

/// The config file of a client.
pub struct ClientFile {
    pub server_addr: Option<String>,
    pub server_fingerprint: Option<String>,
    pub web_bind: Option<String>,
    /// Public host shown for tunnel endpoints.
    pub public_addr: Option<String>,
    pub tunnels_paused: bool,
    /// Persisted only if present here (a secret sourced from env stays out of the file).
    pub secret: Option<String>,
    pub logging: LoggingConfig,
    pub tunnels: Vec<TunnelConfig>,
}

/// The contents of tunnel definitions.
pub open spec fn tunnel_views(tunnels: Seq<TunnelConfig>) -> Seq<TunnelView> {
    Seq::new(tunnels.len(), |i: int| tunnels[i]@)
}

/// Whether every source pool of the tunnels is one.
pub open spec fn pools_wf(tunnels: Seq<TunnelConfig>) -> bool {
    forall|i: int| 0 <= i < tunnels.len() ==> pool_wf((#[trigger] tunnels[i]).udp_source_pool)
}

impl Default for ClientFile {
    fn default() -> (r: ClientFile)
        ensures
            r.server_addr is None,
            r.server_fingerprint is None,
            r.web_bind is None,
            r.public_addr is None,
            !r.tunnels_paused,
            r.secret is None,
            r.logging.mode is Both,
            r.logging.level@ == "info"@,
            r.logging.directory@ == "Logs"@,
            r.logging.max_files == 14,
            r.tunnels@.len() == 0,
    {
        ClientFile {
            server_addr: None,
            server_fingerprint: None,
            web_bind: None,
            public_addr: None,
            tunnels_paused: false,
            secret: None,
            logging: LoggingConfig::default(),
            tunnels: Vec::new(),
        }
    }
}

/// The settings of a client.
pub struct ClientSettings {
    pub server_addr: String,
    pub server_fingerprint: String,
    pub web_bind: String,
    /// Public host shown for tunnel endpoints.
    pub public_addr: Option<String>,
    pub secret: String,
    /// Where to persist tunnel changes (None => no config file in use).
    pub config_path: Option<String>,
    /// On-disk form, kept for write-back.
    pub file: ClientFile,
}

/// The tunnels that specs stand for, or the error of the first that stands for none.
pub open spec fn tunnels_of_specs(specs: Seq<String>) -> Result<Seq<TunnelView>, SpecError>
    decreases specs.len(),
{
    if specs.len() == 0 {
        Ok(Seq::empty())
    } else {
        match tunnels_of_specs(specs.drop_last()) {
            Err(e) => Err(e),
            Ok(front) => match tunnel_of_spec(specs.last()@) {
                Err(e) => Err(e),
                Ok(t) => Ok(front.push(t)),
            },
        }
    }
}

proof fn lemma_specs_fail(specs: Seq<String>, n: int, e: SpecError)
    requires
        0 <= n <= specs.len(),
        tunnels_of_specs(specs.take(n)) == Err::<Seq<TunnelView>, _>(e),
    ensures
        tunnels_of_specs(specs) == Err::<Seq<TunnelView>, _>(e),
    decreases specs.len() - n,
{
    if n < specs.len() {
        let more = specs.take(n + 1);
        assert(more.drop_last() =~= specs.take(n));
        assert(tunnels_of_specs(more) == Err::<Seq<TunnelView>, _>(e));
        lemma_specs_fail(specs, n + 1, e);
    } else {
        assert(specs.take(n) =~= specs);
    }
}

/// Append the tunnels that specs stand for.
fn append_specs(tunnels: &mut Vec<TunnelConfig>, specs: &Vec<String>) -> (r: Result<(), SpecError>)
    requires
        pools_wf(old(tunnels)@),
    ensures
        pools_wf(final(tunnels)@),
        match r {
            Ok(()) => tunnels_of_specs(specs@) is Ok && tunnel_views(final(tunnels)@)
                == tunnel_views(old(tunnels)@) + tunnels_of_specs(specs@)->Ok_0,
            Err(e) => tunnels_of_specs(specs@) == Err::<Seq<TunnelView>, _>(e),
        },
{
    let ghost before = tunnel_views(tunnels@);
    let mut i: usize = 0;
    assert(specs@.take(0) =~= Seq::<String>::empty());
    assert(before + Seq::<TunnelView>::empty() =~= before);
    while i < specs.len()
        invariant
            i <= specs@.len(),
            before == tunnel_views(old(tunnels)@),
            pools_wf(tunnels@),
            tunnels_of_specs(specs@.take(i as int)) is Ok,
            tunnel_views(tunnels@) == before + tunnels_of_specs(specs@.take(i as int))->Ok_0,
        decreases specs@.len() - i,
    {
        assert(specs@.take(i as int + 1).drop_last() =~= specs@.take(i as int));
        match parse_tunnel_spec(&specs[i]) {
            Ok(t) => {
                let ghost view = t@;
                let ghost so_far = tunnel_views(tunnels@);
                let ghost old_tunnels = tunnels@;
                tunnels.push(t);
                proof {
                    assert(tunnel_views(tunnels@) =~= so_far.push(view));
                    assert forall|k: int| 0 <= k < tunnels@.len() implies pool_wf(
                        (#[trigger] tunnels@[k]).udp_source_pool,
                    ) by {
                        if k < old_tunnels.len() {
                            assert(pool_wf(old_tunnels[k].udp_source_pool));
                        }
                    }
                    let front = tunnels_of_specs(specs@.take(i as int))->Ok_0;
                    assert((before + front).push(view) =~= before + front.push(view));
                }
            },
            Err(e) => {
                proof {
                    lemma_specs_fail(specs@, i as int + 1, e);
                }
                return Err(e);
            },
        }
        i += 1;
    }
    assert(specs@.take(specs@.len() as int) =~= specs@);
    Ok(())
}

/// Whether settings, or the error, are what arguments, a config file and secrets make.
pub open spec fn loads_client(
    args: ClientArgs,
    file: ClientFile,
    config_path: Option<String>,
    secrets: SecretSources,
    r: Result<ClientSettings, ConfigError>,
) -> bool {
    let specs = tunnels_of_specs(args.tunnels@);
    let secret = resolved_secret(
        option_view(secrets.file),
        option_view(secrets.env),
        option_view(file.secret),
    );
    let server_addr = either_text(args.server, file.server_addr);
    let fingerprint = either_text(args.fingerprint, file.server_fingerprint);
    match r {
        Ok(s) => {
            &&& specs is Ok
            &&& secret == Some(s.secret@)
            &&& server_addr == Some(s.server_addr@)
            &&& fingerprint == Some(s.server_fingerprint@)
            &&& s.web_bind@ == first_text(args.web_bind, file.web_bind, DEFAULT_WEB_BIND@)
            &&& option_view(s.public_addr) == either_text(
                args.public_addr,
                file.public_addr,
            )
            &&& s.config_path == config_path
            &&& tunnel_views(s.file.tunnels@) == tunnel_views(file.tunnels@)
                + specs->Ok_0
            &&& pools_wf(s.file.tunnels@)
            &&& s.file == (ClientFile { tunnels: s.file.tunnels, ..file })
        },
        Err(ConfigError::Spec(e)) => specs == Err::<Seq<TunnelView>, _>(e),
        Err(ConfigError::NoSecret) => specs is Ok && secret is None,
        Err(ConfigError::NoServerAddress) => specs is Ok && secret is Some
            && server_addr is None,
        Err(e) => {
            &&& e is NoFingerprint
            &&& specs is Ok
            &&& secret is Some
            &&& server_addr is Some
            &&& fingerprint is None
        },
    }
}

/// The settings of a client: arguments override the config file, which overrides defaults; the
/// tunnels of the arguments are added to those of the file.
pub fn load_client(
    args: &ClientArgs,
    file: ClientFile,
    config_path: Option<String>,
    secrets: &SecretSources,
) -> (r: Result<ClientSettings, ConfigError>)
    requires
        pools_wf(file.tunnels@),
    ensures
        loads_client(*args, file, config_path, *secrets, r),
{
    let mut file = file;
    match append_specs(&mut file.tunnels, &args.tunnels) {
        Ok(()) => {},
        Err(e) => {
            return Err(ConfigError::Spec(e));
        },
    }
    let secret = match resolve_secret(secrets, &file.secret) {
        Ok(s) => s,
        Err(e) => {
            return Err(e);
        },
    };
    let server_addr = match pick_option(&args.server, &file.server_addr) {
        Some(s) => s,
        None => {
            return Err(ConfigError::NoServerAddress);
        },
    };
    let server_fingerprint = match pick_option(&args.fingerprint, &file.server_fingerprint) {
        Some(s) => s,
        None => {
            return Err(ConfigError::NoFingerprint);
        },
    };
    let web_bind = pick_text(&args.web_bind, &file.web_bind, DEFAULT_WEB_BIND);
    let public_addr = pick_option(&args.public_addr, &file.public_addr);
    Ok(
        ClientSettings {
            server_addr,
            server_fingerprint,
            web_bind,
            public_addr,
            secret,
            config_path,
            file,
        },
    )
}

// ---------------------------------------------------------------------------
// What texts and settings stand for
// ---------------------------------------------------------------------------

/// A range selects every port from its first to its last one, in order, and is a range. One that
/// ends before it starts is refused.
pub proof fn law_range_selects(first: u16, last: u16)
    ensures
        ({
            let r = parsed_local_ports(dec(first as nat) + "-"@ + dec(last as nat));
            &&& first <= last ==> (r matches Ok((ports, range)) && {
                &&& range
                &&& ports.len() == last - first + 1
                &&& forall|i: int| 0 <= i < ports.len() ==> #[trigger] ports[i] == first + i
            })
            &&& first > last ==> r == Err::<(Seq<u16>, bool), _>(PortsError::ReversedRange)
        }),
{
    reveal_strlit("-");
    let (a, b) = (dec(first as nat), dec(last as nat));
    let none = Seq::<char>::empty();
    lemma_dec_chars(first as nat, '-');
    assert("-"@ =~= seq!['-']);
    law_split_first(a, '-', b);
    law_number_reads_back(first as nat, 0xffff, none, none);
    law_number_reads_back(last as nat, 0xffff, none, none);
}

/// The texts of ports.
pub open spec fn port_texts(ports: Seq<u16>) -> Seq<Seq<char>> {
    ports.map_values(|port: u16| dec(port as nat))
}

/// A list selects exactly the ports it names, in order, and is no range.
pub proof fn law_list_selects(ports: Seq<u16>)
    requires
        ports.len() > 0,
    ensures
        parsed_local_ports(join(port_texts(ports), ',')) == Ok::<_, PortsError>((ports, false)),
{
    reveal_strlit("-");
    let texts = port_texts(ports);
    let s = join(texts, ',');
    assert forall|i: int| 0 <= i < texts.len() implies !(#[trigger] texts[i]).contains(',')
        && !texts[i].contains('-') && texts[i].len() > 0 by {
        lemma_dec_chars(ports[i] as nat, ',');
        lemma_dec_chars(ports[i] as nat, '-');
        lemma_dec(ports[i] as nat);
    }
    lemma_split_join(texts, ',');
    lemma_join_chars(texts, ',', '-');
    assert("-"@ =~= seq!['-']);
    law_split_first(s, '-', Seq::empty());
    lemma_port_list(ports);
}

proof fn lemma_port_list(ports: Seq<u16>)
    ensures
        parsed_port_list(port_texts(ports)) == Some(ports),
    decreases ports.len(),
{
    let texts = port_texts(ports);
    if ports.len() > 0 {
        let front = ports.drop_last();
        let none = Seq::<char>::empty();
        lemma_port_list(front);
        assert(texts.drop_last() =~= port_texts(front));
        law_number_reads_back(ports.last() as nat, 0xffff, none, none);
        assert(front.push(ports.last()) =~= ports);
    } else {
        assert(ports =~= Seq::<u16>::empty());
    }
}

/// A local endpoint reads back as itself.
pub proof fn law_endpoint_reads_back(ip: u32, port: u16)
    ensures
        parsed_endpoint(ipv4_text(ip) + ":"@ + dec(port as nat)) == Some(
            (SocketAddr::V4 { ip, port }, None::<Seq<char>>),
        ),
{
    law_socket_addr_roundtrip(ip, port);
}

/// A local endpoint with a selection of ports in place of the port has the first of them, and the
/// selection is kept.
pub proof fn law_endpoint_with_selection(
    ip: u32,
    selection: Seq<char>,
    ports: Seq<u16>,
    range: bool,
)
    requires
        !selection.contains(':'),
        trimmed(selection) == selection,
        parsed_digits(selection, 0xffff) is None,
        parsed_local_ports(selection) == Ok::<_, PortsError>((ports, range)),
        ports.len() > 0,
    ensures
        parsed_endpoint(ipv4_text(ip) + ":"@ + selection) == Some(
            (SocketAddr::V4 { ip, port: ports[0] }, Some(selection)),
        ),
{
    lemma_not_socket_addr(ip, selection);
    lemma_socket_addr_zero(ip);
    law_split_last_colon(ipv4_text(ip), selection);
}

/// A text comes apart at its last colon.
pub proof fn law_split_last_colon(host: Seq<char>, tail: Seq<char>)
    requires
        !tail.contains(':'),
    ensures
        split_last_colon(host + ":"@ + tail) == Some((host, tail)),
        split_last_colon(tail) is None,
{
    reveal_strlit(":");
    let s = host + ":"@ + tail;
    assert(s[host.len() as int] == ':');
    assert(s.contains(':'));
    let i = choose|i: int|
        0 <= i < s.len() && s[i] == ':' && forall|j: int| i < j < s.len() ==> s[j] != ':';
    assert forall|j: int| host.len() < j < s.len() implies s[j] != ':' by {
        assert(s[j] == tail[j - host.len() - 1]);
        assert(tail.contains(tail[j - host.len() - 1]));
    }
    assert(0 <= host.len() < s.len() && s[host.len() as int] == ':' && forall|j: int|
        (host.len() as int) < j < s.len() ==> s[j] != ':');
    assert(i == host.len());
    assert(s.take(i) =~= host);
    assert(s.skip(i + 1) =~= tail);
}

/// A tunnel spec `NAME=PROTO:LOCAL->REMOTE;OPTION;..` stands for the tunnel that it names: with
/// that name and protocol, to that local endpoint, for that public port, or for any if it is 0,
/// enabled, and with the options applied.
pub proof fn law_spec_names_tunnel(
    name: Seq<char>,
    proto: Proto,
    local: Seq<char>,
    local_addr: SocketAddr,
    local_ports: Option<Seq<char>>,
    port: u16,
    options: Seq<Seq<char>>,
)
    requires
        !name.contains('='),
        trimmed(name) == name,
        !local.contains('>'),
        trimmed(local) == local,
        parsed_endpoint(local) == Some((local_addr, local_ports)),
        forall|i: int| 0 <= i < options.len() ==> !(#[trigger] options[i]).contains(';'),
    ensures
        parts_of_spec(
            name + "="@ + (proto.spec_name() + ":"@ + (local + "->"@ + join(
                seq![dec(port as nat)] + options,
                ';',
            ))),
        ) == with_options(
            TunnelView {
                name,
                protocol: proto,
                local_addr,
                local_ports,
                remote_port: if port == 0 {
                    None
                } else {
                    Some(port)
                },
                enabled: true,
                encrypted: false,
                udp_mtu: None,
                udp_source_pool: None,
                proxy_protocol: ProxyProtocol::Off,
            },
            options,
        ),
{
    let pieces = seq![dec(port as nat)] + options;
    let tail = join(pieces, ';');
    let addrs = local + "->"@ + tail;
    let rest = proto.spec_name() + ":"@ + addrs;
    lemma_split_name(name, rest);
    lemma_split_proto(proto, addrs);
    lemma_arrow(local, tail);
    lemma_spec_tail(port, options);
}

proof fn lemma_split_name(name: Seq<char>, rest: Seq<char>)
    requires
        !name.contains('='),
    ensures
        split_first(name + "="@ + rest, "="@) == Some((name, rest)),
{
    reveal_strlit("=");
    assert("="@ =~= seq!['=']);
    law_split_first(name, '=', rest);
}

proof fn lemma_split_proto(proto: Proto, addrs: Seq<char>)
    ensures
        split_first(proto.spec_name() + ":"@ + addrs, ":"@) == Some((proto.spec_name(), addrs)),
        parsed_proto(proto.spec_name()) == Some(proto),
{
    reveal_strlit(":");
    reveal_strlit("tcp");
    reveal_strlit("udp");
    reveal_strlit("both");
    assert(":"@ =~= seq![':']);
    assert(!proto.spec_name().contains(':'));
    law_split_first(proto.spec_name(), ':', addrs);
    lemma_proto_names(proto, Proto::Tcp);
    lemma_proto_names(proto, Proto::Udp);
    lemma_proto_names(proto, Proto::Both);
}

proof fn lemma_spec_tail(port: u16, options: Seq<Seq<char>>)
    requires
        forall|i: int| 0 <= i < options.len() ==> !(#[trigger] options[i]).contains(';'),
    ensures
        ({
            let pieces = split_all(join(seq![dec(port as nat)] + options, ';'), ';');
            &&& pieces.len() > 0
            &&& parsed_dec(trimmed(pieces[0]), 0xffff) == Some(port as nat)
            &&& pieces.drop_first() == options
        }),
{
    let pieces = seq![dec(port as nat)] + options;
    let none = Seq::<char>::empty();
    lemma_dec_chars(port as nat, ';');
    assert forall|i: int| 0 <= i < pieces.len() implies !(#[trigger] pieces[i]).contains(';') by {
        if i > 0 {
            assert(pieces[i] == options[i - 1]);
        }
    }
    lemma_split_join(pieces, ';');
    law_number_reads_back(port as nat, 0xffff, none, none);
    assert(pieces.drop_first() =~= options);
}

proof fn lemma_arrow(local: Seq<char>, tail: Seq<char>)
    requires
        !local.contains('>'),
    ensures
        split_first(local + "->"@ + tail, "->"@) == Some((local, tail)),
{
    reveal_strlit("->");
    let s = local + "->"@ + tail;
    let i = local.len() as int;
    assert(s.subrange(i, i + 2) =~= "->"@);
    assert forall|j: int| 0 <= j < i implies !#[trigger] matches_at(s, "->"@, j) by {
        if matches_at(s, "->"@, j) {
            assert(s.subrange(j, j + 2)[1] == '>');
            assert(s[j + 1] == '>');
            if j + 1 < i {
                assert(local[j + 1] == '>');
            }
        }
    }
    lemma_split_first(s, "->"@, i);
    assert(s.take(i) =~= local);
    assert(s.skip(i + 2) =~= tail);
}

/// Options are applied one after the other, each to what the ones before it made of the tunnel.
pub proof fn law_options_in_turn(t: TunnelView, a: Seq<Seq<char>>, b: Seq<Seq<char>>)
    ensures
        with_options(t, Seq::empty()) == Ok::<_, SpecError>(t),
        with_options(t, a + b) == (match with_options(t, a) {
            Ok(u) => with_options(u, b),
            Err(e) => Err(e),
        }),
    decreases b.len(),
{
    if b.len() == 0 {
        assert(a + b =~= a);
    } else {
        law_options_in_turn(t, a, b.drop_last());
        assert((a + b).drop_last() =~= a + b.drop_last());
        assert((a + b).last() == b.last());
    }
}

/// What each option of a tunnel spec sets, and that it leaves the rest as it is.
pub proof fn law_option_sets(t: TunnelView, value: Seq<char>)
    ensures
        with_option(t, "encrypted"@, "true"@) == Ok::<_, SpecError>(
            TunnelView { encrypted: true, ..t },
        ),
        with_option(t, "encrypted"@, "false"@) == Ok::<_, SpecError>(
            TunnelView { encrypted: false, ..t },
        ),
        with_option(t, "encrypt"@, value) == with_option(t, "encrypted"@, value),
        with_option(t, "tls"@, value) == with_option(t, "encrypted"@, value),
        with_option(t, "mtu"@, value) == with_option(t, "udp_mtu"@, value),
        with_option(t, "proxy"@, "v1"@) == Ok::<_, SpecError>(
            TunnelView { proxy_protocol: ProxyProtocol::V1, ..t },
        ),
        with_option(t, "proxy"@, "v2"@) == Ok::<_, SpecError>(
            TunnelView { proxy_protocol: ProxyProtocol::V2, ..t },
        ),
        with_option(t, "proxy"@, "off"@) == Ok::<_, SpecError>(
            TunnelView { proxy_protocol: ProxyProtocol::Off, ..t },
        ),
        forall|mtu: u16|
            with_option(t, "udp_mtu"@, #[trigger] dec(mtu as nat)) == Ok::<_, SpecError>(
                TunnelView { udp_mtu: Some(mtu), ..t },
            ),
        parsed_pool(value) matches Ok(pool) ==> with_option(t, "udp_source_pool"@, value) == Ok::<
            _,
            SpecError,
        >(TunnelView { udp_source_pool: Some(pool), ..t }),
        parsed_pool(value) is Err ==> with_option(t, "udp_source_pool"@, value) is Err,
{
    reveal_strlit("encrypted");
    reveal_strlit("encrypt");
    reveal_strlit("tls");
    reveal_strlit("proxy");
    reveal_strlit("udp_mtu");
    reveal_strlit("mtu");
    reveal_strlit("udp_source_pool");
    reveal_strlit("true");
    reveal_strlit("false");
    reveal_strlit("off");
    reveal_strlit("v1");
    reveal_strlit("v2");
    let none = Seq::<char>::empty();
    assert("encrypted"@.len() == 9 && "encrypt"@.len() == 7 && "tls"@.len() == 3 && "proxy"@.len()
        == 5 && "udp_mtu"@.len() == 7 && "mtu"@.len() == 3 && "udp_source_pool"@.len() == 15);
    assert("encrypt"@[0] == 'e' && "udp_mtu"@[0] == 'u');
    assert("tls"@[0] == 't' && "mtu"@[0] == 'm');
    assert("true"@.len() == 4 && "false"@.len() == 5);
    assert("off"@.len() == 3 && "v1"@.len() == 2 && "v2"@.len() == 2 && "v1"@[1] == '1' && "v2"@[1]
        == '2');
    assert(ascii_lowered("off"@) =~= "off"@);
    assert(ascii_lowered("v1"@) =~= "v1"@);
    assert(ascii_lowered("v2"@) =~= "v2"@);
    assert forall|mtu: u16|
        with_option(t, "udp_mtu"@, #[trigger] dec(mtu as nat)) == Ok::<_, SpecError>(
            TunnelView { udp_mtu: Some(mtu), ..t },
        ) by {
        law_number_reads_back(mtu as nat, 0xffff, none, none);
    }
}

/// An option is a key and a value around an equals sign, with whitespace around either or without.
pub proof fn law_option_text(t: TunnelView, key: Seq<char>, value: Seq<char>)
    requires
        !key.contains('='),
    ensures
        with_option_text(t, key + "="@ + value) == with_option(t, trimmed(key), trimmed(value)),
        with_option_text(t, key) == Err::<TunnelView, _>(SpecError::MalformedOption),
{
    reveal_strlit("=");
    assert("="@ =~= seq!['=']);
    law_split_first(key, '=', value);
}

/// A spec stands for a tunnel exactly if its parts do and go together.
pub proof fn law_spec_is_checked(s: Seq<char>)
    ensures
        tunnel_of_spec(s) is Ok <==> parts_of_spec(s) is Ok && tunnel_error(parts_of_spec(s)->Ok_0)
            is None,
        tunnel_of_spec(s) is Ok ==> tunnel_of_spec(s) == parts_of_spec(s),
{
    reveal(tunnel_of_spec);
}

/// When the parts of a tunnel go together: a packet size needs UDP and lies between 256 and 65507,
/// a source pool needs UDP and a service on an IPv4 loopback address, PROXY headers need TCP alone,
/// and a selection of local ports names at most 2048 of them.
pub proof fn law_tunnel_parts(t: TunnelView)
    ensures
        tunnel_error(t) is None <==> {
            &&& t.udp_mtu matches Some(mtu) ==> t.protocol != Proto::Tcp && 256 <= mtu <= 65507
            &&& t.udp_source_pool is Some ==> t.protocol != Proto::Tcp && (
            t.local_addr matches SocketAddr::V4 { ip, .. } && 0x7f00_0000 <= ip <= 0x7fff_ffff)
            &&& t.proxy_protocol != ProxyProtocol::Off ==> t.protocol == Proto::Tcp
            &&& t.local_ports matches Some(text) ==> (parsed_local_ports(text) matches Ok((ports, _))
                && ports.len() <= 2048)
        },
        t.protocol == Proto::Tcp && t.udp_mtu is Some ==> tunnel_error(t) == Some(
            TunnelError::Mtu(MtuError::NotUdp),
        ),
{
}

/// The packet size of a tunnel that carries UDP is the one that was asked for, and else 1200. A
/// tunnel without UDP has none.
pub proof fn law_packet_size(proto: Proto, udp_mtu: Option<u16>)
    ensures
        proto == Proto::Tcp ==> spec_resolved_udp_mtu(proto, udp_mtu) is None,
        proto != Proto::Tcp && udp_mtu is Some ==> spec_resolved_udp_mtu(proto, udp_mtu) == udp_mtu,
        proto != Proto::Tcp && udp_mtu is None ==> spec_resolved_udp_mtu(proto, udp_mtu) == Some(
            1200u16,
        ),
{
}

/// The names of the protocols stand for them, and each carries what its name says.
pub proof fn law_protocols(proto: Proto)
    ensures
        parsed_proto(proto.spec_name()) == Some(proto),
        proto.spec_has_tcp() <==> proto != Proto::Udp,
        proto.spec_has_udp() <==> proto != Proto::Tcp,
        parsed_proto("tcp"@) == Some(Proto::Tcp),
        parsed_proto("udp"@) == Some(Proto::Udp),
        parsed_proto("both"@) == Some(Proto::Both),
        ProxyProtocol::parsed("v1"@) == Some(ProxyProtocol::V1),
        ProxyProtocol::parsed("v2"@) == Some(ProxyProtocol::V2),
        ProxyProtocol::parsed("off"@) == Some(ProxyProtocol::Off),
{
    reveal_strlit("tcp");
    reveal_strlit("udp");
    reveal_strlit("both");
    reveal_strlit("off");
    reveal_strlit("v1");
    reveal_strlit("v2");
    lemma_proto_names(proto, Proto::Tcp);
    lemma_proto_names(proto, Proto::Udp);
    lemma_proto_names(proto, Proto::Both);
    lemma_proto_names(Proto::Tcp, Proto::Udp);
    lemma_proto_names(Proto::Udp, Proto::Both);
    lemma_proto_names(Proto::Both, Proto::Tcp);
    assert("tcp"@[0] == 't' && "udp"@[0] == 'u' && "both"@[0] == 'b');
    assert("v1"@[1] == '1' && "v2"@[1] == '2' && "off"@.len() == 3 && "v1"@.len() == 2);
    assert(ascii_lowered("off"@) =~= "off"@);
    assert(ascii_lowered("v1"@) =~= "v1"@);
    assert(ascii_lowered("v2"@) =~= "v2"@);
}

/// Where the shared secret comes from: the secret file comes first, then the environment, then the
/// config file. An empty value in either of the latter does not count.
pub proof fn law_secret_sources(
    file: Option<Seq<char>>,
    env: Option<Seq<char>>,
    config: Option<Seq<char>>,
)
    ensures
        file matches Some(s) ==> resolved_secret(file, env, config) == Some(trimmed(s)),
        file is None ==> (env matches Some(s) ==> s.len() > 0 ==> resolved_secret(file, env, config)
            == Some(s)),
        file is None && (env matches Some(s) ==> s.len() == 0) ==> (config matches Some(c)
            ==> c.len() > 0 ==> resolved_secret(file, env, config) == Some(c)),
        resolved_secret(file, env, config) is None <==> file is None && (env matches Some(s)
            ==> s.len() == 0) && (config matches Some(c) ==> c.len() == 0),
{
}

/// An argument overrides the config file, and that overrides the default.
pub proof fn law_arguments_override(
    a: String,
    b: String,
    default: Seq<char>,
    p: u16,
    q: u16,
    d: u16,
)
    ensures
        first_text(Some(a), Some(b), default) == a@,
        first_text(Some(a), None, default) == a@,
        first_text(None, Some(b), default) == b@,
        first_text(None, None, default) == default,
        either_text(Some(a), Some(b)) == Some(a@),
        either_text(Some(a), None) == Some(a@),
        either_text(None, Some(b)) == Some(b@),
        either_text(None, None) is None,
        first_port(Some(p), Some(q), d) == p,
        first_port(Some(p), None, d) == p,
        first_port(None, Some(q), d) == q,
        first_port(None, None, d) == d,
{
}

/// The tunnels of the arguments are those that their specs stand for, one for each and in order.
pub proof fn law_specs_in_order(specs: Seq<String>)
    ensures
        tunnels_of_specs(specs) matches Ok(tunnels) ==> tunnels.len() == specs.len() && forall|i: int|
            0 <= i < specs.len() ==> tunnel_of_spec(#[trigger] specs[i]@) == Ok::<_, SpecError>(
                tunnels[i],
            ),
        (forall|i: int| 0 <= i < specs.len() ==> tunnel_of_spec(#[trigger] specs[i]@) is Ok)
            ==> tunnels_of_specs(specs) is Ok,
    decreases specs.len(),
{
    if specs.len() > 0 {
        let front = specs.drop_last();
        law_specs_in_order(front);
        let last = specs.len() - 1;
        assert(specs[last] == specs.last());
        if let Ok(tunnels) = tunnels_of_specs(specs) {
            assert forall|i: int| 0 <= i < specs.len() implies tunnel_of_spec(#[trigger] specs[i]@)
                == Ok::<_, SpecError>(tunnels[i]) by {
                if i < last {
                    assert(front[i] == specs[i]);
                }
            }
        }
        if forall|i: int| 0 <= i < specs.len() ==> tunnel_of_spec(#[trigger] specs[i]@) is Ok {
            assert forall|i: int| 0 <= i < front.len() implies tunnel_of_spec(
                #[trigger] front[i]@,
            ) is Ok by {
                assert(front[i] == specs[i]);
            }
            assert(tunnel_of_spec(specs[last]@) is Ok);
        }
    }
}

/// A secret made of two numbers is 64 hex digits, and other numbers make another secret.
pub proof fn law_secrets_distinct(a: u128, b: u128, c: u128, d: u128)
    ensures
        secret_text(a, b).len() == 64,
        secret_text(a, b) == secret_text(c, d) ==> a == c && b == d,
{
    lemma_be_len(a as nat, 16);
    lemma_be_len(b as nat, 16);
    lemma_be_len(c as nat, 16);
    lemma_be_len(d as nat, 16);
    if secret_text(a, b) == secret_text(c, d) {
        let (s, t) = (secret_text(a, b), secret_text(c, d));
        assert(s.take(32) =~= hex_lower(be(a as nat, 16)));
        assert(t.take(32) =~= hex_lower(be(c as nat, 16)));
        assert(s.skip(32) =~= hex_lower(be(b as nat, 16)));
        assert(t.skip(32) =~= hex_lower(be(d as nat, 16)));
        lemma_hex_injective(be(a as nat, 16), be(c as nat, 16));
        lemma_hex_injective(be(b as nat, 16), be(d as nat, 16));
        lemma_pow256_widths();
        lemma_from_be_be(a as nat, 16);
        lemma_from_be_be(b as nat, 16);
        lemma_from_be_be(c as nat, 16);
        lemma_from_be_be(d as nat, 16);
    }
}

proof fn lemma_hex_injective(x: Seq<u8>, y: Seq<u8>)
    requires
        x.len() == y.len(),
        hex_lower(x) == hex_lower(y),
    ensures
        x == y,
{
    assert forall|i: int| 0 <= i < x.len() implies x[i] == y[i] by {
        let (s, t) = (hex_lower(x), hex_lower(y));
        assert(s[2 * i] == hex_char((x[i] / 16) as nat) && t[2 * i] == hex_char(
            (y[i] / 16) as nat,
        ));
        assert(s[2 * i + 1] == hex_char((x[i] % 16) as nat) && t[2 * i + 1] == hex_char(
            (y[i] % 16) as nat,
        ));
        lemma_hex_value_of_char((x[i] / 16) as nat);
        lemma_hex_value_of_char((y[i] / 16) as nat);
        lemma_hex_value_of_char((x[i] % 16) as nat);
        lemma_hex_value_of_char((y[i] % 16) as nat);
    }
    assert(x =~= y);
}

/// The settings of a server: of each what the arguments say, else what the config file says, else
/// the default. There are none without a secret, nor if the lowest public port exceeds the highest.
pub proof fn law_server_settings(
    args: ServerArgs,
    file: ServerFile,
    secrets: SecretSources,
    r: Result<ServerSettings, ConfigError>,
)
    requires
        loads_server(args, file, secrets, r),
    ensures
        ({
            let min_port = args.min_port.unwrap_or(file.min_port.unwrap_or(10_000));
            let max_port = args.max_port.unwrap_or(file.max_port.unwrap_or(20_000));
            let secret = resolved_secret(
                option_view(secrets.file),
                option_view(secrets.env),
                option_view(file.secret),
            );
            &&& r is Ok <==> secret is Some && min_port <= max_port
            &&& secret is None ==> r == Err::<ServerSettings, _>(ConfigError::NoSecret)
            &&& secret is Some && min_port > max_port ==> r == Err::<ServerSettings, _>(
                ConfigError::PortRange { min_port, max_port },
            )
            &&& r matches Ok(s) ==> {
                &&& secret == Some(s.secret@)
                &&& s.min_port == min_port
                &&& s.max_port == max_port
                &&& s.control_port == args.control_port.unwrap_or(
                    file.control_port.unwrap_or(7835),
                )
                &&& s.bind_addr@ == (match (args.bind, file.bind_addr) {
                    (Some(a), _) => a@,
                    (None, Some(b)) => b@,
                    (None, None) => "0.0.0.0"@,
                })
                &&& s.cert_path@ == (match (args.cert_path, file.cert_path) {
                    (Some(a), _) => a@,
                    (None, Some(b)) => b@,
                    (None, None) => "porthole.crt"@,
                })
                &&& s.key_path@ == (match (args.key_path, file.key_path) {
                    (Some(a), _) => a@,
                    (None, Some(b)) => b@,
                    (None, None) => "porthole.key"@,
                })
                &&& option_view(s.public_host) == (match (args.public_host, file.public_host) {
                    (Some(a), _) => Some(a@),
                    (None, Some(b)) => Some(b@),
                    (None, None) => None,
                })
            }
        }),
{
}

/// A server that starts with the config file of its first run has what was set up: that secret and
/// that public host, the default control port on every interface, and all unprivileged ports.
pub proof fn law_first_run_settings(
    host: Seq<char>,
    secret: Seq<char>,
    args: ServerArgs,
    file: ServerFile,
    secrets: SecretSources,
    r: Result<ServerSettings, ConfigError>,
)
    requires
        secret.len() > 0,
        first_run(host, secret, file),
        secrets.file is None,
        secrets.env is None,
        args.bind is None,
        args.control_port is None,
        args.min_port is None,
        args.max_port is None,
        args.cert_path is None,
        args.key_path is None,
        args.public_host is None,
        loads_server(args, file, secrets, r),
    ensures
        r matches Ok(s) && {
            &&& s.secret@ == secret
            &&& option_view(s.public_host) == Some(host)
            &&& s.bind_addr@ == "0.0.0.0"@
            &&& s.control_port == 7835
            &&& s.min_port == 1024
            &&& s.max_port == 65_535
            &&& s.cert_path@ == "porthole.crt"@
            &&& s.key_path@ == "porthole.key"@
        },
{
    law_server_settings(args, file, secrets, r);
}

/// The settings of a client: of each what the arguments say, else what the config file says. The
/// tunnels of the arguments come after those of the file, and the rest of the file is kept as it
/// is. There are no settings without readable tunnels, a secret, a server and its fingerprint.
pub proof fn law_client_settings(
    args: ClientArgs,
    file: ClientFile,
    config_path: Option<String>,
    secrets: SecretSources,
    r: Result<ClientSettings, ConfigError>,
)
    requires
        loads_client(args, file, config_path, secrets, r),
    ensures
        ({
            let specs = tunnels_of_specs(args.tunnels@);
            let secret = resolved_secret(
                option_view(secrets.file),
                option_view(secrets.env),
                option_view(file.secret),
            );
            let server = args.server is Some || file.server_addr is Some;
            let pinned = args.fingerprint is Some || file.server_fingerprint is Some;
            &&& r is Ok <==> specs is Ok && secret is Some && server && pinned
            &&& specs matches Err(e) ==> r == Err::<ClientSettings, _>(ConfigError::Spec(e))
            &&& specs is Ok && secret is None ==> r == Err::<ClientSettings, _>(
                ConfigError::NoSecret,
            )
            &&& specs is Ok && secret is Some && !server ==> r == Err::<ClientSettings, _>(
                ConfigError::NoServerAddress,
            )
            &&& specs is Ok && secret is Some && server && !pinned ==> r == Err::<
                ClientSettings,
                _,
            >(ConfigError::NoFingerprint)
            &&& r matches Ok(s) ==> {
                &&& secret == Some(s.secret@)
                &&& args.server matches Some(a) ==> s.server_addr@ == a@
                &&& args.server is None ==> option_view(file.server_addr) == Some(s.server_addr@)
                &&& args.fingerprint matches Some(a) ==> s.server_fingerprint@ == a@
                &&& args.fingerprint is None ==> option_view(file.server_fingerprint) == Some(
                    s.server_fingerprint@,
                )
                &&& s.web_bind@ == (match (args.web_bind, file.web_bind) {
                    (Some(a), _) => a@,
                    (None, Some(b)) => b@,
                    (None, None) => "127.0.0.1:4040"@,
                })
                &&& args.public_addr matches Some(a) ==> option_view(s.public_addr) == Some(a@)
                &&& args.public_addr is None ==> option_view(s.public_addr) == option_view(
                    file.public_addr,
                )
                &&& s.config_path == config_path
                &&& tunnel_views(s.file.tunnels@).len() == file.tunnels@.len()
                    + args.tunnels@.len()
                &&& forall|i: int|
                    0 <= i < file.tunnels@.len() ==> #[trigger] tunnel_views(s.file.tunnels@)[i]
                        == file.tunnels@[i]@
                &&& forall|i: int|
                    0 <= i < args.tunnels@.len() ==> tunnel_of_spec(#[trigger] args.tunnels@[i]@)
                        == Ok::<_, SpecError>(
                        tunnel_views(s.file.tunnels@)[file.tunnels@.len() + i],
                    )
                &&& s.file.secret == file.secret
                &&& s.file.tunnels_paused == file.tunnels_paused
                &&& s.file.logging == file.logging
            }
        }),
{
    law_specs_in_order(args.tunnels@);
}

/// A client may have the public ports from the lowest to the highest one of the settings, both of
/// them too.
pub proof fn law_ports_allowed(s: ServerSettings, port: u16)
    ensures
        s.spec_port_allowed(port) <==> s.min_port <= port && port <= s.max_port,
{
}

/// Another port on the same endpoint: nothing but the port changes.
pub proof fn law_port_replaced(addr: SocketAddr, port: u16)
    ensures
        with_port(addr, port).spec_port() == port,
        with_port(addr, port).spec_ip() == addr.spec_ip(),
        with_port(with_port(addr, port), addr.spec_port()) == addr,
{
}

/// Which specs are refused, part by part from the left: one without a name, without a protocol,
/// without an arrow, and options that are no `key=value` or have a key that there is not.
pub proof fn law_specs_refused(
    name: Seq<char>,
    proto: Seq<char>,
    rest: Seq<char>,
    t: TunnelView,
    key: Seq<char>,
    value: Seq<char>,
)
    requires
        !name.contains('='),
        !proto.contains(':'),
        forall|i: int| !#[trigger] matches_at(rest, "->"@, i),
    ensures
        tunnel_of_spec(name) == Err::<TunnelView, _>(SpecError::MissingName),
        tunnel_of_spec(name + seq!['='] + proto) == Err::<TunnelView, _>(SpecError::MissingProto),
        tunnel_of_spec(name + seq!['='] + (proto + seq![':'] + rest)) == Err::<TunnelView, _>(
            SpecError::MissingArrow,
        ),
        with_option_text(t, name) == Err::<TunnelView, _>(SpecError::MalformedOption),
        key != "proxy"@ && key != "encrypted"@ && key != "encrypt"@ && key != "tls"@ && key
            != "udp_mtu"@ && key != "mtu"@ && key != "udp_source_pool"@ ==> with_option(
            t,
            key,
            value,
        ) == Err::<TunnelView, _>(SpecError::UnknownOption),
{
    reveal_strlit("=");
    reveal_strlit(":");
    assert("="@ =~= seq!['=']);
    assert(":"@ =~= seq![':']);
    reveal(tunnel_of_spec);
    law_split_first(name, '=', proto);
    law_split_first(name, '=', proto + seq![':'] + rest);
    law_split_first(proto, ':', rest);
}

/// Each logging setting is what the config file says, and the default where it says nothing: a file
/// without a table, and one with an empty table, log alike.
pub proof fn law_logging_settings(
    table: LoggingTable,
    r: LoggingConfig,
    without: LoggingConfig,
)
    requires
        loads_logging(Some(table), r),
        loads_logging(None, without),
    ensures
        table.mode matches Some(mode) ==> r.mode == mode,
        table.mode is None ==> r.mode == without.mode,
        table.level matches Some(level) ==> r.level@ == level@,
        table.level is None ==> r.level@ == without.level@,
        table.directory matches Some(directory) ==> r.directory@ == directory@,
        table.directory is None ==> r.directory@ == without.directory@,
        table.max_files matches Some(n) ==> r.max_files == n,
        table.max_files is None ==> r.max_files == without.max_files,
        without.mode == LogMode::Both,
        without.max_files == 14,
{
}

}
