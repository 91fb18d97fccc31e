//! What the local web UI decides: which tunnels may be added, and which latencies are shown.

use crate::addr::SocketAddr;
use crate::config::{
    parse_endpoint_chars, parse_proto, requested_port, validate_tunnel_config, EndpointError,
    ProxyProtocol, TunnelConfig, TunnelError,
};
use crate::addr::{ipv4_text, lemma_ipv4_text_chars, octet_texts, parsed_digits};
use crate::config::{
    asked_port, law_endpoint_reads_back, law_endpoint_with_selection, option_view, parsed_endpoint,
    parsed_local_ports, parsed_proto, pool_view, pool_wf, tunnel_error, PortsError, TunnelView,
};
use crate::diagnostics::{
    law_extremes_measured, law_summary_consistent, sum, DiagnosticsView, Totals,
};
use crate::diagnostics::{LatencySnapshot, PlainUdpDiagnostics};
use crate::protocol::Proto;
use crate::source_pool::{parsed_pool, SourcePoolError};
use crate::source_pool::UdpSourcePool;
use crate::text::{chars_of, contains_char, parse_u16, push_dec, string_of, trim_chars};
use crate::text::{
    all_digits, dec, is_digit, join, law_number_reads_back, lemma_dec, lemma_trimmed_padded,
    parsed_dec, spec_is_whitespace, trimmed,
};
use vstd::prelude::*;

verus! {

// ---------------------------------------------------------------------------
// Adding a tunnel
// ---------------------------------------------------------------------------

/// A request to add a tunnel.
#[derive(Debug)]
pub struct AddRequest {
    pub name: String,
    pub proto: String,
    pub local: String,
    pub remote_port: Option<u16>,
    pub local_ports: Option<String>,
    pub encrypted: Option<bool>,
    pub udp_mtu: Option<u16>,
    pub udp_source_pool: Option<String>,
    pub proxy_protocol: Option<String>,
}

/// Why a tunnel is not added.
#[derive(Debug, Clone, Copy, PartialEq, Eq, Structural)]
pub enum AddError {
    NameRequired,
    InvalidProto,
    InvalidLocal,
    InvalidProxy,
    InvalidPool,
    /// The public port is outside the range that the server advertised.
    PortOutsideRange { port: u16, min_port: u16, max_port: u16 },
    Tunnel(TunnelError),
}

impl AddError {
    pub open spec fn text(self) -> Seq<char> {
        match self {
            AddError::NameRequired => "name is required"@,
            AddError::InvalidProto => "proto must be tcp, udp, or both"@,
            AddError::InvalidLocal => "local must be HOST:PORT, PORT, PORT-PORT, or PORT,PORT"@,
            AddError::InvalidProxy => "proxy_protocol must be off, v1, or v2"@,
            AddError::InvalidPool =>
                "udp_source_pool must be an IPv4 loopback CIDR such as 127.64.0.0/16"@,
            AddError::PortOutsideRange { port, min_port, max_port } => "public port "@ + dec(
                port as nat,
            ) + " is outside the server's allowed range "@ + dec(min_port as nat) + "-"@ + dec(
                max_port as nat,
            ),
            AddError::Tunnel(e) => e.text(),
        }
    }

    /// The error in words.
    pub fn message(&self) -> (r: String)
        ensures
            r@ == self.text(),
    {
        match self {
            AddError::NameRequired => "name is required".to_string(),
            AddError::InvalidProto => "proto must be tcp, udp, or both".to_string(),
            AddError::InvalidLocal => {
                "local must be HOST:PORT, PORT, PORT-PORT, or PORT,PORT".to_string()
            },
            AddError::InvalidProxy => "proxy_protocol must be off, v1, or v2".to_string(),
            AddError::InvalidPool => {
                "udp_source_pool must be an IPv4 loopback CIDR such as 127.64.0.0/16".to_string()
            },
            AddError::PortOutsideRange { port, min_port, max_port } => {
                let mut out = "public port ".to_string();
                push_dec(&mut out, *port as u64);
                out.append(" is outside the server's allowed range ");
                push_dec(&mut out, *min_port as u64);
                out.append("-");
                push_dec(&mut out, *max_port as u64);
                out
            },
            AddError::Tunnel(e) => e.message(),
        }
    }
}

/// The local endpoint that a text of the web UI stands for: a port alone, or a selection of ports
/// alone, means the loopback address.
pub open spec fn web_endpoint(local: Seq<char>) -> Option<(SocketAddr, Option<Seq<char>>)> {
    let t = trimmed(local);
    match parsed_dec(t, 0xffff) {
        Some(port) => Some((SocketAddr::V4 { ip: 0x7f00_0001, port: port as u16 }, None)),
        None => if t.contains(':') {
            parsed_endpoint(t)
        } else {
            parsed_endpoint("127.0.0.1:"@ + t)
        },
    }
}

/// Read a local endpoint of the web UI.
pub fn parse_local_endpoint(local: &str) -> (r: Result<
    (SocketAddr, Option<String>),
    EndpointError,
>)
    ensures
        match r {
            Ok((addr, ports)) => web_endpoint(local@) == Some((addr, option_view(ports))),
            Err(_) => web_endpoint(local@) is None,
        },
{
    let chars = chars_of(local);
    let t = trim_chars(&chars);
    match parse_u16(t) {
        Some(port) => {
            return Ok((SocketAddr::V4 { ip: 0x7f00_0001, port }, None));
        },
        None => {},
    }
    if contains_char(t, ':') {
        return parse_endpoint_chars(t);
    }
    let mut full = "127.0.0.1:".to_string();
    full.append(&string_of(t));
    parse_endpoint_chars(&chars_of(&full))
}

/// The source pool that a text of the web UI stands for; a blank text stands for none.
pub open spec fn web_pool(text: Option<Seq<char>>) -> Option<Option<(u32, u8)>> {
    match text {
        None => Some(None),
        Some(s) => if trimmed(s).len() == 0 {
            Some(None)
        } else {
            match parsed_pool(trimmed(s)) {
                Ok(pool) => Some(Some(pool)),
                Err(_) => None,
            }
        },
    }
}

fn parse_pool(text: &Option<String>) -> (r: Option<Option<UdpSourcePool>>)
    ensures
        match r {
            Some(pool) => web_pool(option_view(*text)) == Some(pool_view(pool)) && pool_wf(pool),
            None => web_pool(option_view(*text)) is None,
        },
{
    match text {
        None => Some(None),
        Some(s) => {
            let chars = chars_of(s);
            let t = trim_chars(&chars);
            if t.len() == 0 {
                return Some(None);
            }
            match UdpSourcePool::parse(t) {
                Ok(pool) => Some(Some(pool)),
                Err(_) => None,
            }
        },
    }
}

/// The PROXY protocol mode that a text of the web UI stands for.
pub open spec fn web_proxy(text: Option<Seq<char>>) -> Option<ProxyProtocol> {
    match text {
        None => Some(ProxyProtocol::Off),
        Some(s) => ProxyProtocol::parsed(s),
    }
}

/// Whether the public port of a request is outside the range that the server advertised, if it
/// did.
pub open spec fn port_outside(port: Option<u16>, min_port: u16, max_port: u16) -> bool {
    asked_port(port) matches Some(p) && max_port != 0 && (p < min_port || p > max_port)
}

/// The tunnel that a request describes, given its parts.
pub open spec fn described(
    req: AddRequest,
    proto: Proto,
    endpoint: (SocketAddr, Option<Seq<char>>),
    proxy_protocol: ProxyProtocol,
    pool: Option<(u32, u8)>,
) -> TunnelView {
    TunnelView {
        name: trimmed(req.name@),
        protocol: proto,
        local_addr: endpoint.0,
        local_ports: match option_view(req.local_ports) {
            Some(ports) => Some(ports),
            None => endpoint.1,
        },
        remote_port: asked_port(req.remote_port),
        enabled: true,
        encrypted: match req.encrypted {
            Some(encrypted) => encrypted,
            None => false,
        },
        udp_mtu: req.udp_mtu,
        udp_source_pool: pool,
        proxy_protocol,
    }
}

/// The tunnel that a request adds, for the public-port range that the server advertised, or the
/// first reason why it adds none.
pub open spec fn requested_tunnel(req: AddRequest, min_port: u16, max_port: u16) -> Result<
    TunnelView,
    AddError,
> {
    let proto = parsed_proto(req.proto@);
    let endpoint = web_endpoint(req.local@);
    let proxy = web_proxy(option_view(req.proxy_protocol));
    let pool = web_pool(option_view(req.udp_source_pool));
    if trimmed(req.name@).len() == 0 {
        Err(AddError::NameRequired)
    } else if proto is None {
        Err(AddError::InvalidProto)
    } else if endpoint is None {
        Err(AddError::InvalidLocal)
    } else if proxy is None {
        Err(AddError::InvalidProxy)
    } else if pool is None {
        Err(AddError::InvalidPool)
    } else if port_outside(req.remote_port, min_port, max_port) {
        Err(AddError::PortOutsideRange { port: req.remote_port->0, min_port, max_port })
    } else {
        let t = described(req, proto->0, endpoint->0, proxy->0, pool->0);
        match tunnel_error(t) {
            Some(e) => Err(AddError::Tunnel(e)),
            None => Ok(t),
        }
    }
}

/// Check a request to add a tunnel.
pub fn add_tunnel(req: AddRequest, min_port: u16, max_port: u16) -> (r: Result<
    TunnelConfig,
    AddError,
>)
    ensures
        match r {
            Ok(t) => requested_tunnel(req, min_port, max_port) == Ok::<_, AddError>(t@) && pool_wf(
                t.udp_source_pool,
            ),
            Err(e) => requested_tunnel(req, min_port, max_port) == Err::<TunnelView, _>(e),
        },
{
    let chars = chars_of(&req.name);
    let name = trim_chars(&chars);
    if name.len() == 0 {
        return Err(AddError::NameRequired);
    }
    let protocol = match parse_proto(&chars_of(&req.proto)) {
        Some(proto) => proto,
        None => {
            return Err(AddError::InvalidProto);
        },
    };
    let (local_addr, parsed_ports) = match parse_local_endpoint(&req.local) {
        Ok(endpoint) => endpoint,
        Err(_) => {
            return Err(AddError::InvalidLocal);
        },
    };
    let proxy_protocol = match &req.proxy_protocol {
        None => ProxyProtocol::Off,
        Some(s) => match ProxyProtocol::parse_chars(&chars_of(s)) {
            Some(mode) => mode,
            None => {
                return Err(AddError::InvalidProxy);
            },
        },
    };
    let udp_source_pool = match parse_pool(&req.udp_source_pool) {
        Some(pool) => pool,
        None => {
            return Err(AddError::InvalidPool);
        },
    };
    let remote_port: Option<u16> = requested_port(req.remote_port);
    match remote_port {
        Some(port) => if max_port != 0 && (port < min_port || port > max_port) {
            return Err(AddError::PortOutsideRange { port, min_port, max_port });
        },
        None => {},
    }
    let local_ports = match req.local_ports {
        Some(ports) => Some(ports),
        None => parsed_ports,
    };
    let t = TunnelConfig {
        name: string_of(name),
        protocol,
        local_addr,
        local_ports,
        remote_port,
        enabled: true,
        encrypted: match req.encrypted {
            Some(encrypted) => encrypted,
            None => false,
        },
        udp_mtu: req.udp_mtu,
        udp_source_pool,
        proxy_protocol,
    };
    proof {
        assert(t@ =~= described(
            req,
            protocol,
            (local_addr, option_view(parsed_ports)),
            proxy_protocol,
            pool_view(udp_source_pool),
        ));
    }
    match validate_tunnel_config(&t) {
        Ok(()) => Ok(t),
        Err(e) => Err(AddError::Tunnel(e)),
    }
}

// ---------------------------------------------------------------------------
// Latencies
// ---------------------------------------------------------------------------

/// The latencies of a plaintext UDP tunnel, in microseconds, as far as they are known.
#[derive(Debug, Clone, Copy, PartialEq, Eq, Structural)]
pub struct DiagnosticsReport {
    pub rtt_us: Option<u64>,
    /// The shortest round trip so far.
    pub network_floor_us: Option<u64>,
    /// What the last round trip took above the floor.
    pub excess_us: Option<u64>,
    /// The mean of the four relay latencies below.
    pub relay_overhead_us: Option<u64>,
    pub server_public_to_client_us: Option<u64>,
    pub server_client_to_public_us: Option<u64>,
    pub client_server_to_local_us: Option<u64>,
    pub client_local_to_server_us: Option<u64>,
}

/// The average of a summary.
pub open spec fn average(snapshot: Option<LatencySnapshot>) -> Option<u64> {
    match snapshot {
        Some(s) => Some(s.avg_us),
        None => None,
    }
}

/// The summary that a mirror keeps, if it counts any measurement.
pub open spec fn reported(s: LatencySnapshot) -> Option<LatencySnapshot> {
    if s.samples == 0 {
        None
    } else {
        Some(s)
    }
}

/// The sum of what is known.
pub open spec fn known_sum(values: Seq<Option<u64>>) -> nat
    decreases values.len(),
{
    if values.len() == 0 {
        0
    } else {
        known_sum(values.drop_last()) + match values.last() {
            Some(v) => v as nat,
            None => 0,
        }
    }
}

/// How many are known.
pub open spec fn known_count(values: Seq<Option<u64>>) -> nat
    decreases values.len(),
{
    if values.len() == 0 {
        0
    } else {
        known_count(values.drop_last()) + match values.last() {
            Some(_) => 1nat,
            None => 0,
        }
    }
}

/// The mean of what is known, if anything is. The sum is cut off at the largest number.
pub open spec fn known_mean(values: Seq<Option<u64>>) -> Option<u64> {
    if known_count(values) == 0 {
        None
    } else {
        let total = if known_sum(values) <= u64::MAX {
            known_sum(values)
        } else {
            u64::MAX as nat
        };
        Some((total / known_count(values)) as u64)
    }
}

/// The mean of the averages of summaries, of those that there are.
pub fn mean_average(snapshots: &[Option<LatencySnapshot>]) -> (r: Option<u64>)
    ensures
        r == known_mean(Seq::new(snapshots@.len(), |i: int| average(snapshots@[i]))),
{
    let ghost values = Seq::new(snapshots@.len(), |i: int| average(snapshots@[i]));
    let mut total: u64 = 0;
    let mut count: u64 = 0;
    let mut i: usize = 0;
    while i < snapshots.len()
        invariant
            i <= snapshots@.len(),
            count <= i,
            values == Seq::new(snapshots@.len(), |i: int| average(snapshots@[i])),
            count == known_count(values.take(i as int)),
            total == (if known_sum(values.take(i as int)) <= u64::MAX {
                known_sum(values.take(i as int))
            } else {
                u64::MAX as nat
            }),
        decreases snapshots@.len() - i,
    {
        proof {
            let now = values.take(i as int + 1);
            assert(now.drop_last() =~= values.take(i as int));
            assert(now.last() == average(snapshots@[i as int]));
        }
        match snapshots[i] {
            Some(s) => {
                total = total.saturating_add(s.avg_us);
                count += 1;
            },
            None => {},
        }
        i += 1;
    }
    assert(values.take(i as int) =~= values);
    if count > 0 {
        Some(total / count)
    } else {
        None
    }
}

/// The latencies that diagnostics show.
pub open spec fn report(d: DiagnosticsView) -> DiagnosticsReport {
    let rtt = d.rtt.summary();
    let a = average(reported(d.server_public_to_client));
    let b = average(reported(d.server_client_to_public));
    let c = average(d.client_server_to_local.summary());
    let e = average(d.client_local_to_server.summary());
    DiagnosticsReport {
        rtt_us: match rtt {
            Some(s) => Some(s.last_us),
            None => None,
        },
        network_floor_us: match rtt {
            Some(s) => Some(s.min_us),
            None => None,
        },
        excess_us: match rtt {
            Some(s) => Some(
                if s.last_us >= s.min_us {
                    (s.last_us - s.min_us) as u64
                } else {
                    0
                },
            ),
            None => None,
        },
        relay_overhead_us: known_mean(seq![a, b, c, e]),
        server_public_to_client_us: a,
        server_client_to_public_us: b,
        client_server_to_local_us: c,
        client_local_to_server_us: e,
    }
}

fn average_of(snapshot: Option<LatencySnapshot>) -> (r: Option<u64>)
    ensures
        r == average(snapshot),
{
    match snapshot {
        Some(s) => Some(s.avg_us),
        None => None,
    }
}

/// The latencies of a plaintext UDP tunnel.
pub fn diagnostics_report(d: &PlainUdpDiagnostics) -> (r: DiagnosticsReport)
    ensures
        r == report(d@),
{
    let rtt = d.rtt.snapshot();
    let server_public_to_client = d.server_public_to_client.snapshot();
    let server_client_to_public = d.server_client_to_public.snapshot();
    let client_server_to_local = d.client_server_to_local.snapshot();
    let client_local_to_server = d.client_local_to_server.snapshot();
    let relay_samples: [Option<LatencySnapshot>; 4] = [
        server_public_to_client,
        server_client_to_public,
        client_server_to_local,
        client_local_to_server,
    ];
    let relay_overhead_us = mean_average(&relay_samples);
    proof {
        let values = Seq::new(
            relay_samples@.len(),
            |i: int| average(relay_samples@[i]),
        );
        assert(values =~= seq![
            average(server_public_to_client),
            average(server_client_to_public),
            average(client_server_to_local),
            average(client_local_to_server),
        ]);
    }
    let (rtt_us, network_floor_us, excess_us): (Option<u64>, Option<u64>, Option<u64>) =
        match rtt {
        Some(s) => (
            Some(s.last_us),
            Some(s.min_us),
            Some(s.last_us.saturating_sub(s.min_us)),
        ),
        None => (None, None, None),
    };
    DiagnosticsReport {
        rtt_us,
        network_floor_us,
        excess_us,
        relay_overhead_us,
        server_public_to_client_us: average_of(server_public_to_client),
        server_client_to_public_us: average_of(server_client_to_public),
        client_server_to_local_us: average_of(client_server_to_local),
        client_local_to_server_us: average_of(client_local_to_server),
    }
}

/// The latency that is shown for a tunnel with the summaries `rtt` and `setup`.
pub open spec fn shown_latency(
    rtt: Option<LatencySnapshot>,
    setup: Option<LatencySnapshot>,
) -> Option<u64> {
    match (rtt, setup) {
        (Some(s), _) => Some(s.last_us),
        (None, Some(s)) => Some(s.last_us),
        (None, None) => None,
    }
}

/// The latency that is shown for a tunnel: the last round trip of its UDP channel, or else the
/// last time that it took to set up a TCP connection.
pub fn tunnel_latency_us(rtt: Option<LatencySnapshot>, setup: Option<LatencySnapshot>) -> (r:
    Option<u64>)
    ensures
        r == shown_latency(rtt, setup),
{
    match rtt {
        Some(s) => Some(s.last_us),
        None => match setup {
            Some(s) => Some(s.last_us),
            None => None,
        },
    }
}

/// Traffic and latency of all tunnels over one interval.
#[derive(Debug, Clone, Copy, PartialEq, Eq, Structural)]
pub struct MetricSample {
    pub uptime_secs: u64,
    pub bytes_in_per_sec: u64,
    pub bytes_out_per_sec: u64,
    pub active: u32,
    pub latency_us: Option<u64>,
}

/// The number of samples that are kept.
pub const HISTORY: usize = 120;

/// The last samples, as many as are kept.
pub open spec fn last_samples(samples: Seq<MetricSample>) -> Seq<MetricSample> {
    if samples.len() > HISTORY {
        samples.skip(samples.len() - HISTORY)
    } else {
        samples
    }
}

/// The difference of two counters; a counter that fell, as one does that starts anew, counts as
/// unchanged.
pub open spec fn counter_growth(before: u64, now: u64) -> u64 {
    if now >= before {
        (now - before) as u64
    } else {
        0
    }
}

/// The sum of two numbers, or the largest number where the sum is too large.
pub open spec fn capped_sum(a: int, b: int, limit: int) -> int {
    if a + b <= limit {
        a + b
    } else {
        limit
    }
}

/// The bytes in and out that a tunnel carried, from its counters at the last look and now.
pub open spec fn carried(before: Option<(u64, u64)>, now: (u64, u64)) -> (u64, u64) {
    match before {
        Some(last) => (counter_growth(last.0, now.0), counter_growth(last.1, now.1)),
        None => (0u64, 0u64),
    }
}

/// The bytes in and out that a tunnel carried since the last time it was looked at. At the first
/// look it carried none.
pub fn traffic_since(before: Option<(u64, u64)>, now: (u64, u64)) -> (r: (u64, u64))
    ensures
        r == carried(before, now),
{
    match before {
        Some(last) => (now.0.saturating_sub(last.0), now.1.saturating_sub(last.1)),
        None => (0, 0),
    }
}

/// A sample with one tunnel more.
pub open spec fn sample_with(
    sample: MetricSample,
    traffic: (u64, u64),
    active: u32,
    latency_us: Option<u64>,
) -> MetricSample {
    MetricSample {
        uptime_secs: sample.uptime_secs,
        bytes_in_per_sec: capped_sum(
            sample.bytes_in_per_sec as int,
            traffic.0 as int,
            u64::MAX as int,
        ) as u64,
        bytes_out_per_sec: capped_sum(
            sample.bytes_out_per_sec as int,
            traffic.1 as int,
            u64::MAX as int,
        ) as u64,
        active: capped_sum(sample.active as int, active as int, u32::MAX as int) as u32,
        latency_us: match sample.latency_us {
            Some(us) => Some(us),
            None => latency_us,
        },
    }
}

/// A sample with one tunnel more: its traffic and its connections are added, and its latency counts
/// where none was known.
pub fn with_tunnel(
    sample: MetricSample,
    traffic: (u64, u64),
    active: u32,
    latency_us: Option<u64>,
) -> (r: MetricSample)
    ensures
        r == sample_with(sample, traffic, active, latency_us),
{
    MetricSample {
        uptime_secs: sample.uptime_secs,
        bytes_in_per_sec: sample.bytes_in_per_sec.saturating_add(traffic.0),
        bytes_out_per_sec: sample.bytes_out_per_sec.saturating_add(traffic.1),
        active: sample.active.saturating_add(active),
        latency_us: match sample.latency_us {
            Some(us) => Some(us),
            None => latency_us,
        },
    }
}

/// Add a sample to the history; the oldest ones go.
pub fn push_sample(history: &mut Vec<MetricSample>, sample: MetricSample)
    ensures
        final(history)@ == last_samples(old(history)@.push(sample)),
{
    let ghost all = history@.push(sample);
    history.push(sample);
    let len: usize = history.len();
    if len > HISTORY {
        let tail = history.split_off(len - HISTORY);
        *history = tail;
    }
    assert(history@ =~= last_samples(all));
}

/// Samples that are added one by one leave the same history as all of them at once: the last ones,
/// in order.
pub proof fn law_history_keeps_last(samples: Seq<MetricSample>, sample: MetricSample)
    ensures
        last_samples(last_samples(samples).push(sample)) == last_samples(samples.push(sample)),
        last_samples(samples.push(sample)).len() == (if samples.len() < HISTORY {
            samples.len() + 1
        } else {
            HISTORY as nat
        }),
        last_samples(samples.push(sample)).last() == sample,
{
    assert(last_samples(last_samples(samples).push(sample)) =~= last_samples(
        samples.push(sample),
    ));
}

/// The last of samples, or one of nothing.
pub open spec fn shown_sample(samples: Seq<MetricSample>) -> MetricSample {
    if samples.len() > 0 {
        samples.last()
    } else {
        MetricSample {
            uptime_secs: 0,
            bytes_in_per_sec: 0,
            bytes_out_per_sec: 0,
            active: 0,
            latency_us: None,
        }
    }
}

/// The sample that was added last is the one that is shown.
pub proof fn law_current_is_latest(samples: Seq<MetricSample>, sample: MetricSample)
    ensures
        shown_sample(last_samples(samples.push(sample))) == sample,
        shown_sample(Seq::empty()).bytes_in_per_sec == 0,
        shown_sample(Seq::empty()).bytes_out_per_sec == 0,
        shown_sample(Seq::empty()).active == 0,
        shown_sample(Seq::empty()).latency_us is None,
{
    law_history_keeps_last(samples, sample);
}

/// The sample that is shown as the current one: the last, or one of nothing.
pub fn current_sample(samples: &[MetricSample]) -> (r: MetricSample)
    ensures
        r == shown_sample(samples@),
{
    if samples.len() > 0 {
        samples[samples.len() - 1]
    } else {
        MetricSample {
            uptime_secs: 0,
            bytes_in_per_sec: 0,
            bytes_out_per_sec: 0,
            active: 0,
            latency_us: None,
        }
    }
}

/// A tunnel that the web UI adds keeps what was asked for: its name without surrounding
/// whitespace, its encryption, its packet size, and a public port inside the advertised range.
pub proof fn law_added_tunnel_as_requested(req: AddRequest, min_port: u16, max_port: u16)
    requires
        requested_tunnel(req, min_port, max_port) is Ok,
    ensures
        ({
            let t = requested_tunnel(req, min_port, max_port)->Ok_0;
            &&& t.name == trimmed(req.name@)
            &&& t.name.len() > 0
            &&& t.enabled
            &&& t.encrypted == (req.encrypted == Some(true))
            &&& t.udp_mtu == req.udp_mtu
            &&& t.remote_port matches Some(port) ==> port != 0 && (max_port != 0 ==> min_port
                <= port <= max_port)
            &&& tunnel_error(t) is None
        }),
{
}

/// A request adds a tunnel exactly when it names one, its protocol, local endpoint, PROXY mode and
/// source pool can be read, its public port lies in the advertised range, and the tunnel is valid.
pub proof fn law_request_is_checked(req: AddRequest, min_port: u16, max_port: u16)
    ensures
        ({
            let r = requested_tunnel(req, min_port, max_port);
            let outside = req.remote_port matches Some(p) && p != 0 && max_port != 0 && !(min_port
                <= p <= max_port);
            let unread = {
                ||| trimmed(req.name@).len() == 0
                ||| parsed_proto(req.proto@) is None
                ||| web_endpoint(req.local@) is None
                ||| web_proxy(option_view(req.proxy_protocol)) is None
                ||| web_pool(option_view(req.udp_source_pool)) is None
            };
            &&& r is Ok ==> !unread && !outside && tunnel_error(r->Ok_0) is None
            &&& r == Err::<TunnelView, _>(AddError::NameRequired) <==> trimmed(req.name@).len() == 0
            &&& r == Err::<TunnelView, _>(AddError::InvalidProto) ==> parsed_proto(req.proto@)
                is None
            &&& r == Err::<TunnelView, _>(AddError::InvalidLocal) ==> web_endpoint(req.local@)
                is None
            &&& r == Err::<TunnelView, _>(AddError::InvalidProxy) ==> web_proxy(
                option_view(req.proxy_protocol),
            ) is None
            &&& r == Err::<TunnelView, _>(AddError::InvalidPool) ==> web_pool(
                option_view(req.udp_source_pool),
            ) is None
            &&& !unread ==> (outside <==> r == Err::<TunnelView, _>(
                AddError::PortOutsideRange { port: req.remote_port->0, min_port, max_port },
            ))
            &&& !unread && !outside ==> r is Ok || r matches Err(AddError::Tunnel(_))
        }),
{
}

/// The tunnel that a request adds has what the request says: its protocol, its local endpoint and
/// ports, its public port, where zero asks for any, its PROXY mode and its source pool. What is
/// left out is off or left open.
pub proof fn law_request_makes_tunnel(req: AddRequest, min_port: u16, max_port: u16, t: TunnelView)
    requires
        requested_tunnel(req, min_port, max_port) == Ok::<_, AddError>(t),
    ensures
        parsed_proto(req.proto@) == Some(t.protocol),
        web_endpoint(req.local@) matches Some((addr, ports)) && t.local_addr == addr && (
        req.local_ports is None ==> t.local_ports == ports),
        req.local_ports matches Some(ports) ==> t.local_ports == Some(ports@),
        req.remote_port == Some(0u16) || req.remote_port is None ==> t.remote_port is None,
        req.remote_port matches Some(port) ==> port != 0 ==> t.remote_port == Some(port),
        req.encrypted is None ==> !t.encrypted,
        req.encrypted matches Some(encrypted) ==> t.encrypted == encrypted,
        req.udp_mtu == t.udp_mtu,
        req.proxy_protocol is None ==> t.proxy_protocol == ProxyProtocol::Off,
        req.proxy_protocol matches Some(mode) ==> ProxyProtocol::parsed(mode@) == Some(
            t.proxy_protocol,
        ),
        req.udp_source_pool is None ==> t.udp_source_pool is None,
        req.udp_source_pool matches Some(text) ==> {
            &&& trimmed(text@).len() == 0 ==> t.udp_source_pool is None
            &&& trimmed(text@).len() > 0 ==> (t.udp_source_pool matches Some(pool) && parsed_pool(
                trimmed(text@),
            ) == Ok::<_, SourcePoolError>(pool))
        },
        t.enabled,
        t.name == trimmed(req.name@),
{
}

/// In the web UI a port alone means that port of this machine, a selection of ports alone means
/// those ports of this machine, and an endpoint means that endpoint. Whitespace around it does not
/// count.
pub proof fn law_web_endpoints(
    left: Seq<char>,
    right: Seq<char>,
    ip: u32,
    port: u16,
    selection: Seq<char>,
    ports: Seq<u16>,
    range: bool,
)
    requires
        forall|i: int| 0 <= i < left.len() ==> spec_is_whitespace(#[trigger] left[i]),
        forall|i: int| 0 <= i < right.len() ==> spec_is_whitespace(#[trigger] right[i]),
        !selection.contains(':'),
        trimmed(selection) == selection,
        parsed_digits(selection, 0xffff) is None,
        parsed_dec(selection, 0xffff) is None,
        parsed_local_ports(selection) == Ok::<_, PortsError>((ports, range)),
        ports.len() > 0,
    ensures
        web_endpoint(left + dec(port as nat) + right) == Some(
            (SocketAddr::V4 { ip: 0x7f00_0001, port }, None::<Seq<char>>),
        ),
        web_endpoint(selection) == Some(
            (SocketAddr::V4 { ip: 0x7f00_0001, port: ports[0] }, Some(selection)),
        ),
        web_endpoint(left + (ipv4_text(ip) + ":"@ + dec(port as nat)) + right) == Some(
            (SocketAddr::V4 { ip, port }, None::<Seq<char>>),
        ),
{
    law_number_reads_back(port as nat, 0xffff, left, right);
    lemma_loopback_text();
    law_endpoint_with_selection(0x7f00_0001, selection, ports, range);
    assert("127.0.0.1:"@ + selection =~= ipv4_text(0x7f00_0001) + ":"@ + selection);
    lemma_endpoint_trimmed(left, right, ip, port);
    law_endpoint_reads_back(ip, port);
}

proof fn lemma_endpoint_trimmed(left: Seq<char>, right: Seq<char>, ip: u32, port: u16)
    requires
        forall|i: int| 0 <= i < left.len() ==> spec_is_whitespace(#[trigger] left[i]),
        forall|i: int| 0 <= i < right.len() ==> spec_is_whitespace(#[trigger] right[i]),
    ensures
        ({
            let t = ipv4_text(ip) + ":"@ + dec(port as nat);
            &&& trimmed(left + t + right) == t
            &&& t.contains(':')
            &&& parsed_dec(t, 0xffff) is None
        }),
{
    reveal_strlit(":");
    let host = ipv4_text(ip);
    let digits = dec(port as nat);
    let t = host + ":"@ + digits;
    lemma_ipv4_text_chars(ip);
    lemma_dec(port as nat);
    assert(t[0] == host[0]);
    assert(t.last() == digits.last());
    assert(is_digit(digits[digits.len() - 1]));
    lemma_trimmed_padded(left, t, right);
    assert(t[host.len() as int] == ':');
    assert(!all_digits(t));
}

proof fn lemma_loopback_text()
    ensures
        "127.0.0.1:"@ == ipv4_text(0x7f00_0001) + ":"@,
{
    reveal_strlit("127.0.0.1:");
    reveal_strlit(":");
    reveal_with_fuel(dec, 4);
    reveal_with_fuel(join, 5);
    let t = octet_texts(0x7f00_0001);
    assert(t[0] =~= seq!['1', '2', '7']);
    assert(t[1] =~= seq!['0']);
    assert(t[2] =~= seq!['0']);
    assert(t[3] =~= seq!['1']);
    let t3 = t.drop_last();
    let t2 = t3.drop_last();
    let t1 = t2.drop_last();
    assert(join(t1, '.') == t[0]);
    assert(join(t2, '.') =~= seq!['1', '2', '7', '.', '0']);
    assert(join(t3, '.') =~= seq!['1', '2', '7', '.', '0', '.', '0']);
    assert(join(t, '.') =~= seq!['1', '2', '7', '.', '0', '.', '0', '.', '1']);
    assert("127.0.0.1:"@ =~= ipv4_text(0x7f00_0001) + ":"@);
}

/// What a tunnel carried between two looks and between the second and a third is what it carried
/// between the first and the third. At the first look, and when its counters start anew, it carried
/// nothing.
pub proof fn law_traffic_adds_up(a: (u64, u64), b: (u64, u64), c: (u64, u64))
    ensures
        carried(None, a) == (0u64, 0u64),
        a.0 <= b.0 <= c.0 ==> carried(Some(a), b).0 + carried(Some(b), c).0 == c.0 - a.0,
        a.1 <= b.1 <= c.1 ==> carried(Some(a), b).1 + carried(Some(b), c).1 == c.1 - a.1,
        a.0 <= c.0 ==> carried(Some(a), c).0 == c.0 - a.0,
        a.1 <= c.1 ==> carried(Some(a), c).1 == c.1 - a.1,
        b.0 < a.0 ==> carried(Some(a), b).0 == 0,
        b.1 < a.1 ==> carried(Some(a), b).1 == 0,
{
}

/// A sample adds up what its tunnels carried and their connections, in whichever order they come,
/// and shows the first latency that is known.
pub proof fn law_sample_adds_up(
    sample: MetricSample,
    t: (u64, u64),
    u: (u64, u64),
    n: u32,
    m: u32,
    latency: Option<u64>,
    other: Option<u64>,
)
    ensures
        ({
            let both = sample_with(sample_with(sample, t, n, latency), u, m, other);
            let swapped = sample_with(sample_with(sample, u, m, other), t, n, latency);
            &&& both.bytes_in_per_sec == swapped.bytes_in_per_sec
            &&& both.bytes_out_per_sec == swapped.bytes_out_per_sec
            &&& both.active == swapped.active
            &&& both.uptime_secs == sample.uptime_secs
            &&& sample.bytes_in_per_sec + t.0 + u.0 <= u64::MAX ==> both.bytes_in_per_sec
                == sample.bytes_in_per_sec + t.0 + u.0
            &&& sample.bytes_out_per_sec + t.1 + u.1 <= u64::MAX ==> both.bytes_out_per_sec
                == sample.bytes_out_per_sec + t.1 + u.1
            &&& sample.active + n + m <= u32::MAX ==> both.active == sample.active + n + m
            &&& sample.bytes_in_per_sec + t.0 + u.0 > u64::MAX ==> both.bytes_in_per_sec == u64::MAX
            &&& sample.latency_us is Some ==> both.latency_us == sample.latency_us
            &&& sample.latency_us is None && latency is Some ==> both.latency_us == latency
            &&& sample.latency_us is None && latency is None ==> both.latency_us == other
        }),
{
}

/// The mean of what is known: no more than the sum divided evenly, and nothing where nothing is
/// known. What is not known does not count.
pub proof fn law_mean_of_known(values: Seq<Option<u64>>, v: u64)
    ensures
        known_mean(values.push(None)) == known_mean(values),
        known_mean(Seq::empty()) is None,
        known_mean(seq![Some(v)]) == Some(v),
        known_mean(values.push(Some(v))) is Some,
        known_sum(values) <= u64::MAX ==> (known_mean(values) matches Some(mean) ==> mean
            * known_count(values) <= known_sum(values) < (mean + 1) * known_count(values)),
        known_sum(values.push(Some(v))) == known_sum(values) + v,
        known_count(values.push(Some(v))) == known_count(values) + 1,
{
    assert(values.push(None).drop_last() =~= values);
    assert(values.push(Some(v)).drop_last() =~= values);
    let one = seq![Some(v)];
    assert(one.drop_last() =~= Seq::<Option<u64>>::empty());
    assert(known_sum(one) == v && known_count(one) == 1) by {
        reveal_with_fuel(known_sum, 2);
        reveal_with_fuel(known_count, 2);
    }
    assert(v as nat / 1 == v);
    if known_count(values) > 0 && known_sum(values) <= u64::MAX {
        let (sum, n) = (known_sum(values) as int, known_count(values) as int);
        let mean = sum / n;
        assert(mean * n <= sum < (mean + 1) * n && 0 <= mean <= sum) by (nonlinear_arith)
            requires
                mean == sum / n,
                n > 0,
                sum >= 0,
        ;
    }
}

/// The latencies that are shown are those that were measured: the last round trip, the shortest
/// one, and what the last one took above it; and of each of the four relay latencies the average,
/// where there is one. The overhead is the mean of these four.
pub proof fn law_report_shows_measured(d: DiagnosticsView, values: Seq<u64>)
    requires
        0 < values.len() <= u64::MAX,
        sum(values) <= u64::MAX,
        forall|i: int| 0 <= i < values.len() ==> #[trigger] values[i] > 0,
        d.rtt == Totals::zero().with_all(values),
    ensures
        ({
            let r = report(d);
            &&& r.rtt_us == Some(values.last())
            &&& r.network_floor_us matches Some(floor) && values.contains(floor) && (forall|i: int|
                0 <= i < values.len() ==> floor <= #[trigger] values[i]) && r.excess_us == Some(
                (values.last() - floor) as u64,
            )
            &&& r.server_public_to_client_us == (if d.server_public_to_client.samples == 0 {
                None
            } else {
                Some(d.server_public_to_client.avg_us)
            })
            &&& r.server_client_to_public_us == (if d.server_client_to_public.samples == 0 {
                None
            } else {
                Some(d.server_client_to_public.avg_us)
            })
            &&& d.client_server_to_local == Totals::zero().with_all(values)
                ==> r.client_server_to_local_us == Some((sum(values) / values.len()) as u64)
            &&& d.client_local_to_server == Totals::zero().with_all(values)
                ==> r.client_local_to_server_us == Some((sum(values) / values.len()) as u64)
            &&& r.relay_overhead_us == known_mean(
                seq![
                    r.server_public_to_client_us,
                    r.server_client_to_public_us,
                    r.client_server_to_local_us,
                    r.client_local_to_server_us,
                ],
            )
        }),
{
    law_summary_consistent(values);
    law_extremes_measured(values);
    assert(values.last() == values[values.len() - 1]);
}

/// The latency of a tunnel is the last round trip of its UDP channel; only without one it is the
/// time of the last connection setup.
pub proof fn law_latency_shown(rtt: Option<LatencySnapshot>, setup: Option<LatencySnapshot>)
    ensures
        rtt matches Some(s) ==> shown_latency(rtt, setup) == Some(s.last_us),
        rtt is None ==> (setup matches Some(s) ==> shown_latency(rtt, setup) == Some(s.last_us)),
        rtt is None && setup is None ==> shown_latency(rtt, setup) is None,
        HISTORY == 120,
{
}

}
