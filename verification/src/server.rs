//! Relay server: which connections are let in, which public ports tunnels get, and what is freed
//! when they go.

use crate::addr::{parse_socket_addr, parsed_socket_addr, SocketAddr};
use crate::config::{
    clone_option, parse_local_ports, range_ports, requested_port, resolved_udp_mtu,
    validate_udp_mtu, ServerSettings, MAX_TUNNEL_PORTS,
};
use crate::config::{
    asked_port, option_view, parsed_local_ports, port_range, spec_resolved_udp_mtu,
    udp_mtu_error,
};
use crate::crypto::{random_key, random_uuid};
use crate::crypto::{base64url, is_uuid_v4};
use crate::maps::{
    has_tunnel, insert_tunnel, insert_udp, list_tunnels, list_udp, new_conns, new_tunnels, new_udp,
    remove_tunnel, remove_udp,
};
use crate::maps::{conn_map, lists_tunnels, lists_udp, tunnel_map, udp_map};
use crate::protocol::{
    encode_udp_auth_key, AcceptedBinding, Proto, ServerMessage, DEFAULT_UDP_MTU,
};
use crate::text::{chars_of, endpoint_string, push_dec, str_eq};
use crate::text::{dec, endpoint_text};
use dashmap::DashMap;
use std::collections::hash_map::RandomState;
use vstd::prelude::*;

pub mod routes;

verus! {

/// A public tunnel currently bound on the server, keyed by its public port.
#[derive(Debug)]
pub struct TunnelHandle {
    pub name: String,
    pub session: u128,
}

/// A public TCP connection that waits for its data connection, keyed by its id.
#[derive(Debug)]
pub struct PendingConn {
    /// What a plaintext data connection must present.
    pub data_auth: String,
    /// Whether the data connection must be encrypted.
    pub encrypted: bool,
}

/// A registered UDP tunnel that waits for its client to open the data channel, keyed by its token.
#[derive(Debug, Clone, Copy, PartialEq, Eq, Structural)]
pub struct PendingUdp {
    pub port: u16,
    pub session: u128,
}

/// One public port of a registration.
#[derive(Debug, Clone, Copy, PartialEq, Eq, Structural)]
pub struct BindingRequest {
    pub local_port: u16,
    pub remote_port: u16,
}

// ---------------------------------------------------------------------------
// Reasons for a rejection
// ---------------------------------------------------------------------------

/// Why public ports could not be allocated.
#[derive(Debug, Clone, Copy, PartialEq, Eq, Structural)]
pub enum AllocError {
    NoLocalPorts,
    TooManyPorts,
    BlockTooLarge,
    BlockLargerThanRange,
    BlockEndTooLarge { start: u16 },
    BlockOutsideRange { start: u16, end: u16, min_port: u16, max_port: u16 },
    BlockFragmented { start: u16, end: u16, occupied: u16 },
    NoBlock { count: u16, min_port: u16, max_port: u16 },
    PortOutsideRange { port: u16, min_port: u16, max_port: u16 },
    PortAllocated { port: u16 },
    NotEnoughPorts { available: usize, required: usize },
    /// The port was taken between allocation and reservation.
    BecameAllocated { port: u16 },
    InvalidBindAddress { port: u16 },
}

impl AllocError {
    /// The error in words.
    pub open spec fn text(self) -> Seq<char> {
        match self {
            AllocError::NoLocalPorts => "no local ports requested"@,
            AllocError::TooManyPorts => "a tunnel can reserve at most 2048 ports"@,
            AllocError::BlockTooLarge => "requested port block is too large"@,
            AllocError::BlockLargerThanRange =>
                "requested port block is larger than the relay range"@,
            AllocError::BlockEndTooLarge { start } => "public port block starting at "@ + dec(
                start as nat,
            ) + " is too large"@,
            AllocError::BlockOutsideRange { start, end, min_port, max_port } =>
                "public port block "@ + dec(start as nat) + "-"@ + dec(end as nat)
                    + " is outside the allowed range "@ + dec(min_port as nat) + "-"@ + dec(
                    max_port as nat,
                ),
            AllocError::BlockFragmented { start, end, occupied } => "public port block "@ + dec(
                start as nat,
            ) + "-"@ + dec(end as nat) + " is fragmented at "@ + dec(occupied as nat),
            AllocError::NoBlock { count, min_port, max_port } =>
                "no contiguous public block of "@ + dec(count as nat) + " ports is available in "@
                    + dec(min_port as nat) + "-"@ + dec(max_port as nat),
            AllocError::PortOutsideRange { port, min_port, max_port } => "port "@ + dec(
                port as nat,
            ) + " is outside the allowed range "@ + dec(min_port as nat) + "-"@ + dec(
                max_port as nat,
            ),
            AllocError::PortAllocated { port } => "requested public port "@ + dec(port as nat)
                + " is already allocated"@,
            AllocError::NotEnoughPorts { available, required } => "only "@ + dec(available as nat)
                + " free public ports are available after allocation constraints; "@ + dec(
                required as nat,
            ) + " required"@,
            AllocError::BecameAllocated { port } => "requested public port "@ + dec(port as nat)
                + " became allocated while registering"@,
            AllocError::InvalidBindAddress { port } => "invalid bind address for public port "@
                + dec(port as nat),
        }
    }

    /// The error in words.
    pub fn message(&self) -> (r: String)
        ensures
            r@ == self.text(),
    {
        match self {
            AllocError::NoLocalPorts => "no local ports requested".to_string(),
            AllocError::TooManyPorts => "a tunnel can reserve at most 2048 ports".to_string(),
            AllocError::BlockTooLarge => "requested port block is too large".to_string(),
            AllocError::BlockLargerThanRange => {
                "requested port block is larger than the relay range".to_string()
            },
            AllocError::BlockEndTooLarge { start } => {
                let mut out = "public port block starting at ".to_string();
                push_dec(&mut out, *start as u64);
                out.append(" is too large");
                out
            },
            AllocError::BlockOutsideRange { start, end, min_port, max_port } => {
                let mut out = "public port block ".to_string();
                push_dec(&mut out, *start as u64);
                out.append("-");
                push_dec(&mut out, *end as u64);
                out.append(" is outside the allowed range ");
                push_dec(&mut out, *min_port as u64);
                out.append("-");
                push_dec(&mut out, *max_port as u64);
                out
            },
            AllocError::BlockFragmented { start, end, occupied } => {
                let mut out = "public port block ".to_string();
                push_dec(&mut out, *start as u64);
                out.append("-");
                push_dec(&mut out, *end as u64);
                out.append(" is fragmented at ");
                push_dec(&mut out, *occupied as u64);
                out
            },
            AllocError::NoBlock { count, min_port, max_port } => {
                let mut out = "no contiguous public block of ".to_string();
                push_dec(&mut out, *count as u64);
                out.append(" ports is available in ");
                push_dec(&mut out, *min_port as u64);
                out.append("-");
                push_dec(&mut out, *max_port as u64);
                out
            },
            AllocError::PortOutsideRange { port, min_port, max_port } => {
                let mut out = "port ".to_string();
                push_dec(&mut out, *port as u64);
                out.append(" is outside the allowed range ");
                push_dec(&mut out, *min_port as u64);
                out.append("-");
                push_dec(&mut out, *max_port as u64);
                out
            },
            AllocError::PortAllocated { port } => {
                let mut out = "requested public port ".to_string();
                push_dec(&mut out, *port as u64);
                out.append(" is already allocated");
                out
            },
            AllocError::NotEnoughPorts { available, required } => {
                let mut out = "only ".to_string();
                push_dec(&mut out, *available as u64);
                out.append(" free public ports are available after allocation constraints; ");
                push_dec(&mut out, *required as u64);
                out.append(" required");
                out
            },
            AllocError::BecameAllocated { port } => {
                let mut out = "requested public port ".to_string();
                push_dec(&mut out, *port as u64);
                out.append(" became allocated while registering");
                out
            },
            AllocError::InvalidBindAddress { port } => {
                let mut out = "invalid bind address for public port ".to_string();
                push_dec(&mut out, *port as u64);
                out
            },
        }
    }
}

// ---------------------------------------------------------------------------
// Allocation of public ports: model
// ---------------------------------------------------------------------------

/// The public ports that a server may grant, and those that are taken.
pub struct Ports {
    pub min_port: u16,
    pub max_port: u16,
    pub taken: Set<u16>,
}

impl Ports {
    /// Whether a port can be granted.
    pub open spec fn grantable(self, port: u16) -> bool {
        self.min_port <= port <= self.max_port && !self.taken.contains(port)
    }

    /// Whether the `count` ports from `start` on are free.
    pub open spec fn block_free(self, start: int, count: int) -> bool {
        forall|p: u16| start <= p < start + count ==> !#[trigger] self.taken.contains(p)
    }

    /// The first `need` free ports from `cursor` on, or as many as there are.
    pub open spec fn scan(self, cursor: int, need: nat) -> Seq<u16>
        decreases self.max_port + 1 - cursor,
    {
        if need == 0 || cursor > self.max_port || cursor < 0 {
            Seq::empty()
        } else if self.taken.contains(cursor as u16) {
            self.scan(cursor + 1, need)
        } else {
            seq![cursor as u16] + self.scan(cursor + 1, (need - 1) as nat)
        }
    }
}

/// Whether `start` is where the first free block of `count` ports lies.
pub open spec fn first_block(p: Ports, count: int, start: u16) -> bool {
    &&& p.min_port <= start
    &&& start + count - 1 <= p.max_port
    &&& p.block_free(start as int, count)
    &&& forall|s: u16| p.min_port <= s < start ==> !#[trigger] p.block_free(s as int, count)
}

/// The ports of a range: the requested block, or the first free one.
pub open spec fn contiguous_ports(
    p: Ports,
    count: nat,
    remote_port: Option<u16>,
    r: Result<Seq<u16>, AllocError>,
) -> bool {
    if count > u16::MAX {
        r == Err::<Seq<u16>, _>(AllocError::BlockTooLarge)
    } else if count - 1 > p.max_port {
        r == Err::<Seq<u16>, _>(AllocError::BlockLargerThanRange)
    } else {
        match remote_port {
            Some(start) => {
                let end = start + count - 1;
                if end > u16::MAX {
                    r == Err::<Seq<u16>, _>(AllocError::BlockEndTooLarge { start })
                } else if start < p.min_port || end > p.max_port {
                    r == Err::<Seq<u16>, _>(
                        AllocError::BlockOutsideRange {
                            start,
                            end: end as u16,
                            min_port: p.min_port,
                            max_port: p.max_port,
                        },
                    )
                } else if p.block_free(start as int, count as int) {
                    r == Ok::<_, AllocError>(port_range(start as nat, end as nat))
                } else {
                    exists|occupied: u16|
                        {
                            &&& #[trigger] p.taken.contains(occupied)
                            &&& start <= occupied <= end
                            &&& p.block_free(start as int, occupied - start)
                            &&& r == Err::<Seq<u16>, _>(
                                AllocError::BlockFragmented { start, end: end as u16, occupied },
                            )
                        }
                }
            },
            None => match r {
                Ok(ports) => exists|start: u16|
                    #![trigger first_block(p, count as int, start)]
                    first_block(p, count as int, start) && ports == port_range(
                        start as nat,
                        (start + count - 1) as nat,
                    ),
                Err(e) => {
                    &&& e == AllocError::NoBlock {
                        count: count as u16,
                        min_port: p.min_port,
                        max_port: p.max_port,
                    }
                    &&& forall|s: u16|
                        p.min_port <= s && s + count - 1 <= p.max_port ==> !#[trigger] p.block_free(
                            s as int,
                            count as int,
                        )
                },
            },
        }
    }
}

/// The ports of a list: the requested first port, if there is one, and the first free ones after
/// it; or the first free ones of all.
pub open spec fn sparse_ports(p: Ports, count: nat, remote_port: Option<u16>) -> Result<
    Seq<u16>,
    AllocError,
> {
    match remote_port {
        Some(first) if !(p.min_port <= first <= p.max_port) => Err(
            AllocError::PortOutsideRange {
                port: first,
                min_port: p.min_port,
                max_port: p.max_port,
            },
        ),
        Some(first) if p.taken.contains(first) => Err(AllocError::PortAllocated { port: first }),
        _ => {
            let ports = match remote_port {
                Some(first) => seq![first] + p.scan(first + 1, (count - 1) as nat),
                None => p.scan(p.min_port as int, count),
            };
            if ports.len() == count {
                Ok(ports)
            } else {
                Err(
                    AllocError::NotEnoughPorts {
                        available: ports.len() as usize,
                        required: count as usize,
                    },
                )
            }
        },
    }
}

/// The local ports paired with the public ports.
pub open spec fn paired(local_ports: Seq<u16>, remote_ports: Seq<u16>) -> Seq<BindingRequest> {
    Seq::new(
        local_ports.len(),
        |i: int| BindingRequest { local_port: local_ports[i], remote_port: remote_ports[i] },
    )
}

/// The public ports of a registration: a range of local ports gets a block of public ports, a
/// list gets any. Asking for the public port 0 is asking for none.
pub open spec fn allocates(
    p: Ports,
    local_ports: Seq<u16>,
    contiguous: bool,
    remote_port: Option<u16>,
    r: Result<Seq<BindingRequest>, AllocError>,
) -> bool {
    let n = local_ports.len();
    if n == 0 {
        r == Err::<Seq<BindingRequest>, _>(AllocError::NoLocalPorts)
    } else if n > MAX_TUNNEL_PORTS {
        r == Err::<Seq<BindingRequest>, _>(AllocError::TooManyPorts)
    } else if contiguous && n > 1 {
        exists|ports: Result<Seq<u16>, AllocError>| #[trigger]
            contiguous_ports(p, n, asked_port(remote_port), ports) && r == (match ports {
                Ok(ports) => Ok(paired(local_ports, ports)),
                Err(e) => Err(e),
            })
    } else {
        r == (match sparse_ports(p, n, asked_port(remote_port)) {
            Ok(ports) => Ok(paired(local_ports, ports)),
            Err(e) => Err(e),
        })
    }
}

proof fn lemma_scan(p: Ports, cursor: int, need: nat)
    requires
        0 <= cursor,
    ensures
        p.scan(cursor, need).len() <= need,
        forall|i: int|
            0 <= i < p.scan(cursor, need).len() ==> cursor <= #[trigger] p.scan(cursor, need)[i]
                <= p.max_port && !p.taken.contains(p.scan(cursor, need)[i]),
        forall|i: int, j: int|
            0 <= i < j < p.scan(cursor, need).len() ==> #[trigger] p.scan(cursor, need)[i]
                < #[trigger] p.scan(cursor, need)[j],
    decreases p.max_port + 1 - cursor,
{
    if need == 0 || cursor > p.max_port {
    } else if p.taken.contains(cursor as u16) {
        lemma_scan(p, cursor + 1, need);
    } else {
        let rest = p.scan(cursor + 1, (need - 1) as nat);
        lemma_scan(p, cursor + 1, (need - 1) as nat);
        let all = p.scan(cursor, need);
        assert forall|i: int| 0 <= i < all.len() implies cursor <= #[trigger] all[i] <= p.max_port
            && !p.taken.contains(all[i]) by {
            if i > 0 {
                assert(all[i] == rest[i - 1]);
            }
        }
        assert forall|i: int, j: int| 0 <= i < j < all.len() implies #[trigger] all[i]
            < #[trigger] all[j] by {
            assert(all[j] == rest[j - 1]);
            if i > 0 {
                assert(all[i] == rest[i - 1]);
            }
        }
    }
}

/// Whatever is allocated lies in the range of the server, was free, and is allocated once; every
/// local port gets a public port, in order, and the public ports ascend. A port that was asked for
/// is the first; where 0 was asked for, the server picks.
pub proof fn law_allocation_grantable(
    p: Ports,
    local_ports: Seq<u16>,
    contiguous: bool,
    remote_port: Option<u16>,
    requests: Seq<BindingRequest>,
)
    requires
        allocates(
            p,
            local_ports,
            contiguous,
            remote_port,
            Ok::<_, AllocError>(requests),
        ),
    ensures
        requests.len() == local_ports.len(),
        forall|i: int|
            0 <= i < requests.len() ==> p.grantable((#[trigger] requests[i]).remote_port)
                && requests[i].local_port == local_ports[i],
        forall|i: int, j: int|
            0 <= i < j < requests.len() ==> (#[trigger] requests[i]).remote_port < (
            #[trigger] requests[j]).remote_port,
        asked_port(remote_port) matches Some(first) ==> requests[0].remote_port == first,
        contiguous ==> forall|i: int|
            0 <= i < requests.len() ==> (#[trigger] requests[i]).remote_port
                == requests[0].remote_port + i,
{
    let n = local_ports.len();
    let asked = asked_port(remote_port);
    if contiguous && n > 1 {
        let ports = choose|ports: Result<Seq<u16>, AllocError>| #[trigger]
            contiguous_ports(p, n, asked, ports) && Ok::<_, AllocError>(requests) == (
            match ports {
                Ok(ports) => Ok(paired(local_ports, ports)),
                Err(e) => Err(e),
            });
        let list = ports->Ok_0;
        let start = match asked {
            Some(start) => start,
            None => choose|start: u16|
                #![trigger first_block(p, n as int, start)]
                first_block(p, n as int, start) && list == port_range(
                    start as nat,
                    (start + n - 1) as nat,
                ),
        };
        assert(list =~= port_range(start as nat, (start + n - 1) as nat));
        assert forall|i: int| 0 <= i < requests.len() implies p.grantable(
            (#[trigger] requests[i]).remote_port,
        ) && requests[i].remote_port == start + i by {
            let port = requests[i].remote_port;
            assert(port == start + i);
            assert(!p.taken.contains(port));
        }
    } else {
        let list = match asked {
            Some(first) => seq![first] + p.scan(first + 1, (n - 1) as nat),
            None => p.scan(p.min_port as int, n),
        };
        match asked {
            Some(first) => {
                lemma_scan(p, first + 1, (n - 1) as nat);
                let rest = p.scan(first + 1, (n - 1) as nat);
                assert forall|i: int| 0 < i < list.len() implies #[trigger] list[i] == rest[i
                    - 1] by {}
            },
            None => {
                lemma_scan(p, p.min_port as int, n);
            },
        }
        assert forall|i: int, j: int| 0 <= i < j < list.len() implies #[trigger] list[i]
            < #[trigger] list[j] by {}
        assert(requests == paired(local_ports, list));
        assert forall|i: int| 0 <= i < requests.len() implies p.grantable(
            (#[trigger] requests[i]).remote_port,
        ) by {
            assert(requests[i].remote_port == list[i]);
        }
    }
}

/// Asking for the public port 0 is asking for none: the server picks.
pub proof fn law_port_zero_is_none(
    p: Ports,
    local_ports: Seq<u16>,
    contiguous: bool,
    r: Result<Seq<BindingRequest>, AllocError>,
)
    ensures
        allocates(p, local_ports, contiguous, Some(0), r) == allocates(
            p,
            local_ports,
            contiguous,
            None,
            r,
        ),
{
}

// ---------------------------------------------------------------------------
// Server state
// ---------------------------------------------------------------------------

/// A tunnel bound to a public port.
#[verifier::ext_equal]
pub struct TunnelEntry {
    pub name: Seq<char>,
    pub session: u128,
}

/// A public connection that waits for its data connection.
#[verifier::ext_equal]
pub struct ConnEntry {
    pub data_auth: Seq<char>,
    pub encrypted: bool,
}

/// The state of a server.
#[verifier::ext_equal]
pub struct ServerState {
    pub bind_addr: Seq<char>,
    pub secret: Seq<char>,
    pub min_port: u16,
    pub max_port: u16,
    /// The tunnels, by public port.
    pub tunnels: Map<u16, TunnelEntry>,
    /// The public connections that wait for their data connection, by id.
    pub pending: Map<u128, ConnEntry>,
    /// The encrypted UDP tunnels that wait for their data channel, by token.
    pub udp_pending: Map<u128, PendingUdp>,
}

impl ServerState {
    pub open spec fn ports(self) -> Ports {
        Ports { min_port: self.min_port, max_port: self.max_port, taken: self.tunnels.dom() }
    }
}

spec fn tunnel_entries(m: Map<u16, TunnelHandle>) -> Map<u16, TunnelEntry> {
    Map::new(
        |port: u16| m.contains_key(port),
        |port: u16| TunnelEntry { name: m[port].name@, session: m[port].session },
    )
}

spec fn conn_entries(m: Map<u128, PendingConn>) -> Map<u128, ConnEntry> {
    Map::new(
        |id: u128| m.contains_key(id),
        |id: u128| ConnEntry { data_auth: m[id].data_auth@, encrypted: m[id].encrypted },
    )
}

/// The relay server: its settings, the tunnels it serves, and what waits for data connections.
pub struct Server {
    settings: ServerSettings,
    tunnels: DashMap<u16, TunnelHandle, RandomState>,
    pending: DashMap<u128, PendingConn, RandomState>,
    udp_pending: DashMap<u128, PendingUdp, RandomState>,
}

impl View for Server {
    type V = ServerState;

    closed spec fn view(&self) -> ServerState {
        ServerState {
            bind_addr: self.settings.bind_addr@,
            secret: self.settings.secret@,
            min_port: self.settings.min_port,
            max_port: self.settings.max_port,
            tunnels: tunnel_entries(tunnel_map(self.tunnels)),
            pending: conn_entries(conn_map(self.pending)),
            udp_pending: udp_map(self.udp_pending),
        }
    }
}

impl Server {
    /// A server without tunnels.
    pub fn new(settings: ServerSettings) -> (r: Server)
        ensures
            r@ == fresh_server(settings),
    {
        let r = Server {
            settings,
            tunnels: new_tunnels(),
            pending: new_conns(),
            udp_pending: new_udp(),
        };
        proof {
            assert(r@.tunnels =~= Map::empty());
            assert(r@.pending =~= Map::empty());
        }
        r
    }

    /// Whether a public port is taken.
    pub fn is_taken(&self, port: u16) -> (r: bool)
        ensures
            r == self@.tunnels.contains_key(port),
            r == self@.ports().taken.contains(port),
    {
        has_tunnel(&self.tunnels, port)
    }

    /// The first taken port from `start` to `end`.
    fn first_taken(&self, start: u16, end: u16) -> (r: Option<u16>)
        requires
            start <= end,
        ensures
            match r {
                Some(occupied) => {
                    &&& start <= occupied <= end
                    &&& self@.ports().taken.contains(occupied)
                    &&& self@.ports().block_free(start as int, occupied - start)
                },
                None => self@.ports().block_free(start as int, end + 1 - start),
            },
    {
        let mut port: u16 = start;
        loop
            invariant
                start <= port <= end,
                self@.ports().block_free(start as int, port - start),
            decreases end - port,
        {
            if self.is_taken(port) {
                return Some(port);
            }
            if port == end {
                return None;
            }
            port += 1;
        }
    }

    /// Allocate a block of public ports.
    fn allocate_contiguous_public_ports(&self, count: usize, remote_port: Option<u16>) -> (r:
        Result<Vec<u16>, AllocError>)
        requires
            count > 0,
        ensures
            contiguous_ports(
                self@.ports(),
                count as nat,
                remote_port,
                match r {
                    Ok(ports) => Ok(ports@),
                    Err(e) => Err(e),
                },
            ),
    {
        let ghost p = self@.ports();
        if count > u16::MAX as usize {
            return Err(AllocError::BlockTooLarge);
        }
        let n: u16 = count as u16;
        let min_port: u16 = self.settings.min_port;
        let max_port: u16 = self.settings.max_port;
        if n - 1 > max_port {
            return Err(AllocError::BlockLargerThanRange);
        }
        let max_start: u16 = max_port - (n - 1);
        match remote_port {
            Some(start) => {
                let end_u32: u32 = start as u32 + n as u32 - 1;
                if end_u32 > u16::MAX as u32 {
                    return Err(AllocError::BlockEndTooLarge { start });
                }
                let end: u16 = end_u32 as u16;
                if start < min_port || end > max_port {
                    return Err(AllocError::BlockOutsideRange { start, end, min_port, max_port });
                }
                match self.first_taken(start, end) {
                    Some(occupied) => {
                        proof {
                            assert(!p.block_free(start as int, count as int)) by {
                                assert(p.taken.contains(occupied));
                            }
                        }
                        Err(AllocError::BlockFragmented { start, end, occupied })
                    },
                    None => Ok(range_ports(start, end)),
                }
            },
            None => {
                let mut start: u32 = min_port as u32;
                while start <= max_start as u32
                    invariant
                        p == self@.ports(),
                        min_port == p.min_port,
                        max_port == p.max_port,
                        remote_port is None,
                        n == count,
                        0 < n,
                        n - 1 <= max_port,
                        max_start == max_port - (n - 1),
                        min_port <= start,
                        start <= max_start + 1 || start == min_port,
                        forall|s: u16|
                            p.min_port <= s < start ==> !#[trigger] p.block_free(
                                s as int,
                                count as int,
                            ),
                    decreases max_start + 1 - start,
                {
                    let first: u16 = start as u16;
                    let end: u16 = first + (n - 1);
                    match self.first_taken(first, end) {
                        None => {
                            let ports = range_ports(first, end);
                            assert(first_block(p, count as int, first));
                            return Ok(ports);
                        },
                        Some(occupied) => {
                            assert(!p.block_free(first as int, count as int)) by {
                                assert(p.taken.contains(occupied));
                            }
                        },
                    }
                    start += 1;
                }
                Err(AllocError::NoBlock { count: n, min_port, max_port })
            },
        }
    }

    /// Allocate any free public ports.
    fn allocate_sparse_public_ports(&self, count: usize, remote_port: Option<u16>) -> (r: Result<
        Vec<u16>,
        AllocError,
    >)
        requires
            0 < count <= MAX_TUNNEL_PORTS,
        ensures
            match r {
                Ok(ports) => sparse_ports(self@.ports(), count as nat, remote_port) == Ok::<
                    _,
                    AllocError,
                >(ports@),
                Err(e) => sparse_ports(self@.ports(), count as nat, remote_port) == Err::<
                    Seq<u16>,
                    _,
                >(e),
            },
    {
        let ghost p = self@.ports();
        let min_port: u16 = self.settings.min_port;
        let max_port: u16 = self.settings.max_port;
        let mut ports: Vec<u16> = Vec::new();
        let mut cursor: u32 = min_port as u32;
        let ghost all = match remote_port {
            Some(first) => seq![first] + p.scan(first + 1, (count - 1) as nat),
            None => p.scan(p.min_port as int, count as nat),
        };
        match remote_port {
            Some(first) => {
                if !self.settings.port_allowed(first) {
                    return Err(AllocError::PortOutsideRange { port: first, min_port, max_port });
                }
                if self.is_taken(first) {
                    return Err(AllocError::PortAllocated { port: first });
                }
                ports.push(first);
                cursor = first as u32 + 1;
                assert(ports@ =~= seq![first]);
            },
            None => {},
        }
        assert(all =~= ports@ + p.scan(cursor as int, (count - ports@.len()) as nat));
        while ports.len() < count && cursor <= max_port as u32
            invariant
                p == self@.ports(),
                max_port == p.max_port,
                ports@.len() <= count,
                cursor <= 0x1_0000,
                all == ports@ + p.scan(cursor as int, (count - ports@.len()) as nat),
            decreases max_port + 1 - cursor,
        {
            let port: u16 = cursor as u16;
            let ghost before = ports@;
            let taken = self.is_taken(port);
            if !taken {
                ports.push(port);
                proof {
                    let need = (count - before.len()) as nat;
                    assert(p.scan(cursor as int, need) == seq![port] + p.scan(
                        cursor + 1,
                        (need - 1) as nat,
                    ));
                    assert(all =~= ports@ + p.scan(cursor + 1, (count - ports@.len()) as nat));
                }
            }
            cursor += 1;
        }
        proof {
            assert(p.scan(cursor as int, (count - ports@.len()) as nat) =~= Seq::<u16>::empty());
            assert(all =~= ports@);
        }
        if ports.len() == count {
            Ok(ports)
        } else {
            Err(AllocError::NotEnoughPorts { available: ports.len(), required: count })
        }
    }

    /// Allocate the public ports of a registration.
    pub fn allocate_requests(
        &self,
        local_ports: &[u16],
        contiguous: bool,
        remote_port: Option<u16>,
    ) -> (r: Result<Vec<BindingRequest>, AllocError>)
        ensures
            allocates(
                self@.ports(),
                local_ports@,
                contiguous,
                remote_port,
                match r {
                    Ok(requests) => Ok(requests@),
                    Err(e) => Err(e),
                },
            ),
    {
        let n: usize = local_ports.len();
        if n == 0 {
            return Err(AllocError::NoLocalPorts);
        }
        if n > MAX_TUNNEL_PORTS {
            return Err(AllocError::TooManyPorts);
        }
        let asked: Option<u16> = requested_port(remote_port);
        if contiguous && n > 1 {
            match self.allocate_contiguous_public_ports(n, asked) {
                Ok(ports) => {
                    let ghost result: Result<Seq<u16>, AllocError> = Ok(ports@);
                    assert(contiguous_ports(self@.ports(), n as nat, asked, result));
                    proof {
                        lemma_contiguous_len(self@.ports(), n as nat, asked, ports@);
                    }
                    Ok(pair(local_ports, &ports))
                },
                Err(e) => {
                    let ghost result: Result<Seq<u16>, AllocError> = Err(e);
                    assert(contiguous_ports(self@.ports(), n as nat, asked, result));
                    Err(e)
                },
            }
        } else {
            match self.allocate_sparse_public_ports(n, asked) {
                Ok(ports) => Ok(pair(local_ports, &ports)),
                Err(e) => Err(e),
            }
        }
    }
}

proof fn lemma_contiguous_len(p: Ports, count: nat, remote_port: Option<u16>, ports: Seq<u16>)
    requires
        count > 0,
        contiguous_ports(p, count, remote_port, Ok::<_, AllocError>(ports)),
    ensures
        ports.len() == count,
{
    if remote_port is None {
        let start = choose|start: u16|
            #![trigger first_block(p, count as int, start)]
            first_block(p, count as int, start) && ports == port_range(
                start as nat,
                (start + count - 1) as nat,
            );
        assert(ports.len() == count);
    }
}

/// Pair local ports with public ports.
fn pair(local_ports: &[u16], remote_ports: &Vec<u16>) -> (r: Vec<BindingRequest>)
    requires
        local_ports@.len() == remote_ports@.len(),
    ensures
        r@ == paired(local_ports@, remote_ports@),
{
    let mut requests: Vec<BindingRequest> = Vec::new();
    let mut i: usize = 0;
    while i < local_ports.len()
        invariant
            i <= local_ports@.len(),
            local_ports@.len() == remote_ports@.len(),
            requests@ == paired(local_ports@, remote_ports@).take(i as int),
        decreases local_ports@.len() - i,
    {
        requests.push(
            BindingRequest { local_port: local_ports[i], remote_port: remote_ports[i] },
        );
        i += 1;
        assert(requests@ =~= paired(local_ports@, remote_ports@).take(i as int));
    }
    assert(paired(local_ports@, remote_ports@).take(local_ports@.len() as int) =~= paired(
        local_ports@,
        remote_ports@,
    ));
    requests
}

// ---------------------------------------------------------------------------
// Reservation of public ports
// ---------------------------------------------------------------------------

/// A server without clients.
pub open spec fn fresh_server(settings: ServerSettings) -> ServerState {
    ServerState {
        bind_addr: settings.bind_addr@,
        secret: settings.secret@,
        min_port: settings.min_port,
        max_port: settings.max_port,
        tunnels: Map::empty(),
        pending: Map::empty(),
        udp_pending: Map::empty(),
    }
}

/// Whether one of the requests is for the public port.
pub open spec fn requests_port(requests: Seq<BindingRequest>, port: u16) -> bool {
    exists|i: int| 0 <= i < requests.len() && (#[trigger] requests[i]).remote_port == port
}

/// The tunnels with the ports of the requests taken by `entry`.
pub open spec fn with_ports(
    tunnels: Map<u16, TunnelEntry>,
    requests: Seq<BindingRequest>,
    entry: TunnelEntry,
) -> Map<u16, TunnelEntry> {
    Map::new(
        |port: u16| tunnels.contains_key(port) || requests_port(requests, port),
        |port: u16|
            if requests_port(requests, port) {
                entry
            } else {
                tunnels[port]
            },
    )
}

/// The tunnels without the ports of the requests.
pub open spec fn without_ports(
    tunnels: Map<u16, TunnelEntry>,
    requests: Seq<BindingRequest>,
) -> Map<u16, TunnelEntry> {
    Map::new(
        |port: u16| tunnels.contains_key(port) && !requests_port(requests, port),
        |port: u16| tunnels[port],
    )
}

/// Whether the port of a request is taken, by a tunnel or by an earlier request.
pub open spec fn conflicts(
    tunnels: Map<u16, TunnelEntry>,
    requests: Seq<BindingRequest>,
    i: int,
) -> bool {
    tunnels.contains_key(requests[i].remote_port) || requests_port(
        requests.take(i),
        requests[i].remote_port,
    )
}

/// Whether no request conflicts with a tunnel or an earlier request.
pub open spec fn reservable(
    tunnels: Map<u16, TunnelEntry>,
    requests: Seq<BindingRequest>,
) -> bool {
    forall|i: int| 0 <= i < requests.len() ==> !#[trigger] conflicts(tunnels, requests, i)
}

proof fn lemma_requests_port_push(requests: Seq<BindingRequest>, r: BindingRequest, port: u16)
    ensures
        requests_port(requests.push(r), port) <==> requests_port(requests, port) || r.remote_port
            == port,
{
    let all = requests.push(r);
    assert(all[requests.len() as int] == r);
    if requests_port(requests, port) {
        let i = choose|i: int| 0 <= i < requests.len() && (#[trigger] requests[i]).remote_port
            == port;
        assert(all[i].remote_port == port);
    }
    if requests_port(all, port) {
        let i = choose|i: int| 0 <= i < all.len() && (#[trigger] all[i]).remote_port == port;
        if i < requests.len() {
            assert(requests[i].remote_port == port);
        }
    }
}

/// Taking ports and giving them back changes nothing, when they were free.
pub proof fn law_reserve_release(
    tunnels: Map<u16, TunnelEntry>,
    requests: Seq<BindingRequest>,
    entry: TunnelEntry,
)
    requires
        forall|i: int|
            0 <= i < requests.len() ==> !tunnels.contains_key(
                (#[trigger] requests[i]).remote_port,
            ),
    ensures
        without_ports(with_ports(tunnels, requests, entry), requests) == tunnels,
{
    assert(without_ports(with_ports(tunnels, requests, entry), requests) =~= tunnels);
}

impl Server {
    /// Give the public ports of requests back.
    pub fn release_reserved(&mut self, requests: &[BindingRequest])
        ensures
            final(self)@ == (ServerState {
                tunnels: without_ports(old(self)@.tunnels, requests@),
                ..old(self)@
            }),
    {
        let ghost before = self@;
        let mut i: usize = 0;
        proof {
            assert(requests@.take(0) =~= Seq::<BindingRequest>::empty());
            assert(without_ports(before.tunnels, requests@.take(0)) =~= before.tunnels);
        }
        while i < requests.len()
            invariant
                i <= requests@.len(),
                before == old(self)@,
                self@ == (ServerState {
                    tunnels: without_ports(before.tunnels, requests@.take(i as int)),
                    ..before
                }),
            decreases requests@.len() - i,
        {
            let port: u16 = requests[i].remote_port;
            let ghost current = self@.tunnels;
            remove_tunnel(&mut self.tunnels, port);
            proof {
                let next = requests@.take(i as int + 1);
                assert(next =~= requests@.take(i as int).push(requests@[i as int]));
                assert(self@.tunnels =~= current.remove(port));
                assert forall|p: u16| requests_port(next, p) <==> requests_port(
                    requests@.take(i as int),
                    p,
                ) || p == port by {
                    lemma_requests_port_push(requests@.take(i as int), requests@[i as int], p);
                }
                assert(self@.tunnels =~= without_ports(before.tunnels, next));
            }
            i += 1;
        }
        assert(requests@.take(requests@.len() as int) =~= requests@);
    }

    /// Take the public ports of requests for a tunnel: all of them, or none when one is taken.
    pub fn reserve_requests(
        &mut self,
        session: u128,
        name: &str,
        requests: &[BindingRequest],
    ) -> (r: Result<(), AllocError>)
        ensures
            match r {
                Ok(()) => {
                    &&& reservable(old(self)@.tunnels, requests@)
                    &&& final(self)@ == (ServerState {
                        tunnels: with_ports(
                            old(self)@.tunnels,
                            requests@,
                            TunnelEntry { name: name@, session },
                        ),
                        ..old(self)@
                    })
                },
                Err(e) => {
                    &&& final(self)@ == old(self)@
                    &&& exists|i: int|
                        {
                            &&& 0 <= i < requests@.len()
                            &&& #[trigger] conflicts(old(self)@.tunnels, requests@, i)
                            &&& forall|j: int|
                                0 <= j < i ==> !#[trigger] conflicts(
                                    old(self)@.tunnels,
                                    requests@,
                                    j,
                                )
                            &&& e == AllocError::BecameAllocated { port: requests@[i].remote_port }
                        }
                },
            },
    {
        let ghost before = self@;
        let ghost entry = TunnelEntry { name: name@, session };
        let mut i: usize = 0;
        proof {
            assert(requests@.take(0) =~= Seq::<BindingRequest>::empty());
            assert(with_ports(before.tunnels, requests@.take(0), entry) =~= before.tunnels);
        }
        while i < requests.len()
            invariant
                i <= requests@.len(),
                before == old(self)@,
                entry == (TunnelEntry { name: name@, session }),
                self@ == (ServerState {
                    tunnels: with_ports(before.tunnels, requests@.take(i as int), entry),
                    ..before
                }),
                forall|j: int|
                    0 <= j < i ==> !#[trigger] conflicts(before.tunnels, requests@, j),
            decreases requests@.len() - i,
        {
            let port: u16 = requests[i].remote_port;
            let ghost current = self@.tunnels;
            let ghost reserved = requests@.take(i as int);
            if self.is_taken(port) {
                assert(conflicts(before.tunnels, requests@, i as int));
                let done = vstd::slice::slice_subrange(requests, 0, i);
                assert(done@ =~= reserved);
                self.release_reserved(done);
                proof {
                    assert forall|j: int| 0 <= j < reserved.len() implies !before.tunnels.contains_key(
                        (#[trigger] reserved[j]).remote_port,
                    ) by {
                        assert(!conflicts(before.tunnels, requests@, j));
                        assert(reserved[j] == requests@[j]);
                    }
                    law_reserve_release(before.tunnels, reserved, entry);
                }
                return Err(AllocError::BecameAllocated { port });
            }
            insert_tunnel(
                &mut self.tunnels,
                port,
                TunnelHandle { name: name.to_string(), session },
            );
            proof {
                assert(!conflicts(before.tunnels, requests@, i as int));
                let next = requests@.take(i as int + 1);
                assert(next =~= reserved.push(requests@[i as int]));
                assert(self@.tunnels =~= current.insert(port, entry));
                assert forall|p: u16| requests_port(next, p) <==> requests_port(reserved, p) || p
                    == port by {
                    lemma_requests_port_push(reserved, requests@[i as int], p);
                }
                assert(self@.tunnels =~= with_ports(before.tunnels, next, entry));
            }
            i += 1;
        }
        assert(requests@.take(requests@.len() as int) =~= requests@);
        Ok(())
    }
}

/// What is allocated can be reserved.
pub proof fn law_allocated_reservable(
    s: ServerState,
    local_ports: Seq<u16>,
    contiguous: bool,
    remote_port: Option<u16>,
    requests: Seq<BindingRequest>,
)
    requires
        allocates(
            s.ports(),
            local_ports,
            contiguous,
            remote_port,
            Ok::<_, AllocError>(requests),
        ),
    ensures
        reservable(s.tunnels, requests),
{
    law_allocation_grantable(s.ports(), local_ports, contiguous, remote_port, requests);
    assert forall|i: int| 0 <= i < requests.len() implies !#[trigger] conflicts(
        s.tunnels,
        requests,
        i,
    ) by {
        let port = requests[i].remote_port;
        assert(s.ports().grantable(port));
        if requests_port(requests.take(i), port) {
            let j = choose|j: int|
                0 <= j < requests.take(i).len() && (#[trigger] requests.take(i)[j]).remote_port
                    == port;
            assert(requests[j].remote_port == requests[i].remote_port);
        }
    }
}

// ---------------------------------------------------------------------------
// Sessions
// ---------------------------------------------------------------------------

/// Bookkeeping of a control connection, used to free resources on disconnect.
#[derive(Debug)]
pub struct Session {
    pub id: u128,
    /// The public ports of the tunnels that the client registered.
    pub ports: Vec<u16>,
    /// The tokens of its encrypted UDP tunnels.
    pub udp_tokens: Vec<u128>,
}

impl Session {
    /// A session without tunnels.
    pub fn new(id: u128) -> (r: Session)
        ensures
            r.id == id,
            r.ports@ == Seq::<u16>::empty(),
            r.udp_tokens@ == Seq::<u128>::empty(),
    {
        Session { id, ports: Vec::new(), udp_tokens: Vec::new() }
    }
}

/// Whether the ports of a session are exactly those of its tunnels.
pub open spec fn owns(s: ServerState, session: u128, ports: Seq<u16>) -> bool {
    forall|port: u16|
        #![trigger s.tunnels.contains_key(port)]
        #![trigger ports.contains(port)]
        s.tunnels.contains_key(port) && s.tunnels[port].session == session <==> ports.contains(
            port,
        )
}

/// Whether a tunnel is the one that a session registered under a name.
pub open spec fn is_named(entry: TunnelEntry, session: u128, name: Seq<char>) -> bool {
    entry.session == session && entry.name == name
}

/// The tunnels without the one that a session registered under a name.
pub open spec fn without_named(
    tunnels: Map<u16, TunnelEntry>,
    session: u128,
    name: Seq<char>,
) -> Map<u16, TunnelEntry> {
    Map::new(
        |port: u16| tunnels.contains_key(port) && !is_named(tunnels[port], session, name),
        |port: u16| tunnels[port],
    )
}

/// The waiting UDP tunnels without those of a session on the given ports.
pub open spec fn without_udp(
    udp: Map<u128, PendingUdp>,
    session: u128,
    ports: Seq<u16>,
) -> Map<u128, PendingUdp> {
    Map::new(
        |token: u128|
            udp.contains_key(token) && !(udp[token].session == session && ports.contains(
                udp[token].port,
            )),
        |token: u128| udp[token],
    )
}

/// The ports that are not among `removed`.
pub open spec fn kept_ports(ports: Seq<u16>, removed: Seq<u16>) -> Seq<u16>
    decreases ports.len(),
{
    if ports.len() == 0 {
        Seq::empty()
    } else if removed.contains(ports.last()) {
        kept_ports(ports.drop_last(), removed)
    } else {
        kept_ports(ports.drop_last(), removed).push(ports.last())
    }
}

proof fn lemma_kept_ports(ports: Seq<u16>, removed: Seq<u16>, port: u16)
    ensures
        kept_ports(ports, removed).contains(port) <==> ports.contains(port) && !removed.contains(
            port,
        ),
    decreases ports.len(),
{
    if ports.len() > 0 {
        let front = ports.drop_last();
        lemma_kept_ports(front, removed, port);
        let kept = kept_ports(front, removed);
        assert(ports.contains(port) <==> front.contains(port) || ports.last() == port) by {
            if front.contains(port) {
                let i = choose|i: int| 0 <= i < front.len() && front[i] == port;
                assert(ports[i] == port);
            }
            if ports.contains(port) {
                let i = choose|i: int| 0 <= i < ports.len() && ports[i] == port;
                if i < front.len() {
                    assert(front[i] == port);
                }
            }
            assert(ports[ports.len() - 1] == ports.last());
        }
        if !removed.contains(ports.last()) {
            let all = kept.push(ports.last());
            assert(all.contains(port) <==> kept.contains(port) || ports.last() == port) by {
                if kept.contains(port) {
                    let i = choose|i: int| 0 <= i < kept.len() && kept[i] == port;
                    assert(all[i] == port);
                }
                if all.contains(port) {
                    let i = choose|i: int| 0 <= i < all.len() && all[i] == port;
                    if i < kept.len() {
                        assert(kept[i] == port);
                    }
                }
                assert(all[kept.len() as int] == ports.last());
            }
        }
    }
}

/// Whether a list holds exactly the ports of the tunnel that a session registered under a name.
pub open spec fn lists_named(
    tunnels: Map<u16, TunnelEntry>,
    session: u128,
    name: Seq<char>,
    ports: Seq<u16>,
) -> bool {
    &&& ports.no_duplicates()
    &&& forall|port: u16|
        #![trigger ports.contains(port)]
        #![trigger tunnels.contains_key(port)]
        ports.contains(port) <==> tunnels.contains_key(port) && is_named(
            tunnels[port],
            session,
            name,
        )
}

/// Unregistering a tunnel keeps the ports of the session those of its tunnels.
pub proof fn law_unregister_keeps_ownership(
    s: ServerState,
    session: u128,
    ports: Seq<u16>,
    name: Seq<char>,
    removed: Seq<u16>,
)
    requires
        owns(s, session, ports),
        lists_named(s.tunnels, session, name, removed),
    ensures
        owns(
            ServerState { tunnels: without_named(s.tunnels, session, name), ..s },
            session,
            kept_ports(ports, removed),
        ),
{
    let after = ServerState { tunnels: without_named(s.tunnels, session, name), ..s };
    let kept = kept_ports(ports, removed);
    assert forall|port: u16|
        after.tunnels.contains_key(port) && after.tunnels[port].session == session <==> #[trigger]
            kept.contains(port) by {
        lemma_kept_ports(ports, removed, port);
        assert(s.tunnels.contains_key(port) && s.tunnels[port].session == session
            <==> ports.contains(port));
        assert(removed.contains(port) <==> s.tunnels.contains_key(port) && is_named(
            s.tunnels[port],
            session,
            name,
        ));
    }
}

/// The tunnels without the given ports.
pub open spec fn without_list(tunnels: Map<u16, TunnelEntry>, ports: Seq<u16>) -> Map<
    u16,
    TunnelEntry,
> {
    Map::new(
        |port: u16| tunnels.contains_key(port) && !ports.contains(port),
        |port: u16| tunnels[port],
    )
}

/// The waiting UDP tunnels without the given tokens.
pub open spec fn without_tokens(udp: Map<u128, PendingUdp>, tokens: Seq<u128>) -> Map<
    u128,
    PendingUdp,
> {
    Map::new(
        |token: u128| udp.contains_key(token) && !tokens.contains(token),
        |token: u128| udp[token],
    )
}

/// When a session ends, all of its tunnels go, and no tunnel of another session does.
pub proof fn law_cleanup_frees_session(s: ServerState, session: u128, ports: Seq<u16>)
    requires
        owns(s, session, ports),
    ensures
        forall|port: u16|
            without_list(s.tunnels, ports).contains_key(port) <==> #[trigger]
                s.tunnels.contains_key(port) && s.tunnels[port].session != session,
{
    assert forall|port: u16|
        without_list(s.tunnels, ports).contains_key(port) <==> #[trigger] s.tunnels.contains_key(
            port,
        ) && s.tunnels[port].session != session by {
        assert(s.tunnels.contains_key(port) && s.tunnels[port].session == session
            <==> ports.contains(port));
    }
}

/// Whether `v` holds `x`.
fn contains_port(v: &Vec<u16>, x: u16) -> (r: bool)
    ensures
        r == v@.contains(x),
{
    let mut i: usize = 0;
    while i < v.len()
        invariant
            i <= v@.len(),
            forall|j: int| 0 <= j < i ==> v@[j] != x,
        decreases v@.len() - i,
    {
        if v[i] == x {
            return true;
        }
        i += 1;
    }
    false
}

impl Server {
    /// The public ports of the tunnel that a session registered under a name.
    fn ports_named(&self, session: u128, name: &str) -> (r: Vec<u16>)
        ensures
            lists_named(self@.tunnels, session, name@, r@),
    {
        let list = list_tunnels(&self.tunnels);
        let ghost m = tunnel_map(self.tunnels);
        let ghost all = list@;
        let mut ports: Vec<u16> = Vec::new();
        let mut i: usize = 0;
        while i < list.len()
            invariant
                i <= list@.len(),
                all == list@,
                m == tunnel_map(self.tunnels),
                lists_tunnels(m, all),
                ports@.no_duplicates(),
                forall|port: u16| #[trigger]
                    ports@.contains(port) ==> exists|j: int|
                        0 <= j < i && (#[trigger] all[j]).0 == port && all[j].1@ == name@
                            && all[j].2 == session,
                forall|j: int|
                    0 <= j < i && (#[trigger] all[j]).1@ == name@ && all[j].2 == session
                        ==> ports@.contains(all[j].0),
            decreases list@.len() - i,
        {
            let ghost before = ports@;
            let port: u16 = list[i].0;
            if list[i].2 == session && str_eq(&list[i].1, name) {
                proof {
                    if before.contains(port) {
                        let j = choose|j: int|
                            0 <= j < i && (#[trigger] all[j]).0 == port && all[j].1@ == name@
                                && all[j].2 == session;
                        assert(all[j].0 != all[i as int].0);
                    }
                }
                ports.push(port);
                proof {
                    assert(ports@[before.len() as int] == port);
                    assert forall|q: u16| ports@.contains(q) <==> before.contains(q) || q == port by {
                        if before.contains(q) {
                            let k = choose|k: int| 0 <= k < before.len() && before[k] == q;
                            assert(ports@[k] == q);
                        }
                        if ports@.contains(q) && q != port {
                            let k = choose|k: int| 0 <= k < ports@.len() && ports@[k] == q;
                            assert(before[k] == q);
                        }
                    }
                }
            }
            proof {
                assert forall|q: u16| #[trigger] ports@.contains(q) implies exists|j: int|
                    0 <= j < i + 1 && (#[trigger] all[j]).0 == q && all[j].1@ == name@ && all[j].2
                        == session by {
                    if before.contains(q) {
                        let j = choose|j: int|
                            0 <= j < i && (#[trigger] all[j]).0 == q && all[j].1@ == name@
                                && all[j].2 == session;
                        assert(all[j].0 == q);
                    } else {
                        assert(all[i as int].0 == q);
                    }
                }
            }
            i += 1;
        }
        proof {
            let tunnels = self@.tunnels;
            assert forall|port: u16| #[trigger]
                ports@.contains(port) <==> tunnels.contains_key(port) && is_named(
                    tunnels[port],
                    session,
                    name@,
                ) by {
                if ports@.contains(port) {
                    let j = choose|j: int|
                        0 <= j < i && (#[trigger] all[j]).0 == port && all[j].1@ == name@
                            && all[j].2 == session;
                    assert(m.contains_key(all[j].0));
                }
                if tunnels.contains_key(port) && is_named(tunnels[port], session, name@) {
                    assert(m.contains_key(port));
                    let j = choose|j: int| 0 <= j < all.len() && (#[trigger] all[j]).0 == port;
                    assert(m[all[j].0].name@ == all[j].1@);
                }
            }
            assert forall|port: u16| #[trigger] tunnels.contains_key(port) implies (
            ports@.contains(port) <==> is_named(tunnels[port], session, name@)) by {}
        }
        ports
    }
}

/// A session with the given ports and tokens ends, and `freed` are the ports that it held.
pub open spec fn ends_session(
    s: ServerState,
    ports: Seq<u16>,
    tokens: Seq<u128>,
    after: ServerState,
    freed: Seq<u16>,
) -> bool {
    &&& after == (ServerState {
        tunnels: without_list(s.tunnels, ports),
        udp_pending: without_tokens(s.udp_pending, tokens),
        ..s
    })
    &&& lists_freed(s.tunnels, ports, freed)
}

/// Whether `freed` holds exactly those of the ports that were taken.
pub open spec fn lists_freed(
    tunnels: Map<u16, TunnelEntry>,
    ports: Seq<u16>,
    freed: Seq<u16>,
) -> bool {
    forall|port: u16|
        #![trigger freed.contains(port)]
        freed.contains(port) <==> ports.contains(port) && tunnels.contains_key(port)
}

impl Server {
    /// Free the given public ports; those that were taken come back.
    fn free_ports(&mut self, ports: &Vec<u16>) -> (r: Vec<u16>)
        ensures
            final(self)@ == (ServerState {
                tunnels: without_list(old(self)@.tunnels, ports@),
                ..old(self)@
            }),
            lists_freed(old(self)@.tunnels, ports@, r@),
    {
        let ghost before = self@;
        let mut freed: Vec<u16> = Vec::new();
        let mut i: usize = 0;
        assert(without_list(before.tunnels, ports@.take(0)) =~= before.tunnels);
        while i < ports.len()
            invariant
                i <= ports@.len(),
                before == old(self)@,
                self@ == (ServerState {
                    tunnels: without_list(before.tunnels, ports@.take(i as int)),
                    ..before
                }),
                lists_freed(before.tunnels, ports@.take(i as int), freed@),
            decreases ports@.len() - i,
        {
            let port: u16 = ports[i];
            let ghost current = self@.tunnels;
            let ghost done = ports@.take(i as int);
            let ghost freed_before = freed@;
            let was_taken = remove_tunnel(&mut self.tunnels, port);
            if was_taken {
                freed.push(port);
            }
            proof {
                let next = ports@.take(i as int + 1);
                assert(next =~= done.push(port));
                assert(self@.tunnels =~= current.remove(port));
                assert forall|p: u16| next.contains(p) <==> done.contains(p) || p == port by {
                    lemma_contains_push(done, port, p);
                }
                assert(self@.tunnels =~= without_list(before.tunnels, next));
                assert(was_taken == current.contains_key(port));
                assert forall|p: u16| #[trigger]
                    freed@.contains(p) <==> next.contains(p) && before.tunnels.contains_key(p) by {
                    lemma_contains_push(freed_before, port, p);
                    assert(freed_before.contains(p) <==> done.contains(p)
                        && before.tunnels.contains_key(p));
                }
            }
            i += 1;
        }
        assert(ports@.take(ports@.len() as int) =~= ports@);
        freed
    }

    /// Drop the waiting UDP tunnels of a session on the given ports.
    fn drop_udp(&mut self, session: u128, ports: &Vec<u16>)
        ensures
            final(self)@ == (ServerState {
                udp_pending: without_udp(old(self)@.udp_pending, session, ports@),
                ..old(self)@
            }),
    {
        let ghost before = self@.udp_pending;
        let list = list_udp(&self.udp_pending);
        let ghost all = list@;
        let mut i: usize = 0;
        while i < list.len()
            invariant
                i <= list@.len(),
                all == list@,
                before == old(self)@.udp_pending,
                lists_udp(before, all),
                self@ == (ServerState { udp_pending: self@.udp_pending, ..old(self)@ }),
                forall|token: u128| #[trigger]
                    self@.udp_pending.contains_key(token) ==> before.contains_key(token)
                        && self@.udp_pending[token] == before[token],
                forall|j: int|
                    i <= j < all.len() ==> self@.udp_pending.contains_key(
                        (#[trigger] all[j]).0,
                    ),
                forall|j: int|
                    0 <= j < i ==> (self@.udp_pending.contains_key((#[trigger] all[j]).0) <==> !(
                    all[j].1.session == session && ports@.contains(all[j].1.port))),
            decreases list@.len() - i,
        {
            let (token, pending) = list[i];
            let ghost current = self@.udp_pending;
            if pending.session == session && contains_port(ports, pending.port) {
                let _ = remove_udp(&mut self.udp_pending, token);
                proof {
                    assert forall|j: int| i + 1 <= j < all.len() implies self@.udp_pending.contains_key(
                        (#[trigger] all[j]).0,
                    ) by {
                        assert(current.contains_key(all[j].0));
                        assert(all[i as int].0 != all[j].0);
                    }
                    assert forall|j: int| 0 <= j < i + 1 implies (self@.udp_pending.contains_key(
                        (#[trigger] all[j]).0,
                    ) <==> !(all[j].1.session == session && ports@.contains(all[j].1.port))) by {
                        if j < i {
                            assert(all[j].0 != all[i as int].0);
                        }
                    }
                }
            } else {
                assert(current.contains_key(all[i as int].0));
            }
            i += 1;
        }
        proof {
            let after = without_udp(before, session, ports@);
            assert(self@.udp_pending =~= after) by {
                assert forall|token: u128| #[trigger]
                    self@.udp_pending.contains_key(token) <==> after.contains_key(token) by {
                    if before.contains_key(token) {
                        let j = choose|j: int|
                            0 <= j < all.len() && (#[trigger] all[j]).0 == token;
                        assert(before[all[j].0] == all[j].1);
                    }
                }
            }
        }
    }

    /// Remove the tunnel that a session registered under a name. The public ports that became
    /// free come back.
    pub fn unregister(&mut self, session: &mut Session, name: &str) -> (r: Vec<u16>)
        ensures
            lists_named(old(self)@.tunnels, old(session).id, name@, r@),
            final(self)@ == (ServerState {
                tunnels: without_named(old(self)@.tunnels, old(session).id, name@),
                udp_pending: without_udp(old(self)@.udp_pending, old(session).id, r@),
                ..old(self)@
            }),
            final(session).id == old(session).id,
            final(session).ports@ == kept_ports(old(session).ports@, r@),
            final(session).udp_tokens@ == old(session).udp_tokens@,
    {
        let ghost before = self@;
        let ports = self.ports_named(session.id, name);
        let _ = self.free_ports(&ports);
        proof {
            assert(without_list(before.tunnels, ports@) =~= without_named(
                before.tunnels,
                session.id,
                name@,
            ));
        }
        self.drop_udp(session.id, &ports);
        let kept = keep_ports(&session.ports, &ports);
        session.ports = kept;
        ports
    }

    /// Free what a session holds. The public ports that became free come back.
    pub fn cleanup_session(&mut self, session: &Session) -> (r: Vec<u16>)
        ensures
            ends_session(
                old(self)@,
                session.ports@,
                session.udp_tokens@,
                final(self)@,
                r@,
            ),
    {
        let freed = self.free_ports(&session.ports);
        let ghost before = self@;
        let mut i: usize = 0;
        assert(without_tokens(before.udp_pending, session.udp_tokens@.take(0))
            =~= before.udp_pending);
        while i < session.udp_tokens.len()
            invariant
                i <= session.udp_tokens@.len(),
                self@ == (ServerState {
                    udp_pending: without_tokens(
                        before.udp_pending,
                        session.udp_tokens@.take(i as int),
                    ),
                    ..before
                }),
            decreases session.udp_tokens@.len() - i,
        {
            let token: u128 = session.udp_tokens[i];
            let ghost done = session.udp_tokens@.take(i as int);
            let _ = remove_udp(&mut self.udp_pending, token);
            proof {
                let next = session.udp_tokens@.take(i as int + 1);
                assert(next =~= done.push(token));
                assert forall|t: u128| next.contains(t) <==> done.contains(t) || t == token by {
                    lemma_contains_push(done, token, t);
                }
                assert(self@.udp_pending =~= without_tokens(before.udp_pending, next));
            }
            i += 1;
        }
        assert(session.udp_tokens@.take(session.udp_tokens@.len() as int)
            =~= session.udp_tokens@);
        freed
    }
}

proof fn lemma_contains_push<T>(s: Seq<T>, x: T, y: T)
    ensures
        s.push(x).contains(y) <==> s.contains(y) || y == x,
{
    let all = s.push(x);
    assert(all[s.len() as int] == x);
    if s.contains(y) {
        let i = choose|i: int| 0 <= i < s.len() && s[i] == y;
        assert(all[i] == y);
    }
    if all.contains(y) {
        let i = choose|i: int| 0 <= i < all.len() && all[i] == y;
        if i < s.len() {
            assert(s[i] == y);
        }
    }
}

/// The ports that are not among `removed`.
fn keep_ports(ports: &Vec<u16>, removed: &Vec<u16>) -> (r: Vec<u16>)
    ensures
        r@ == kept_ports(ports@, removed@),
{
    let mut kept: Vec<u16> = Vec::new();
    let mut i: usize = 0;
    assert(kept@ =~= kept_ports(ports@.take(0), removed@));
    while i < ports.len()
        invariant
            i <= ports@.len(),
            kept@ == kept_ports(ports@.take(i as int), removed@),
        decreases ports@.len() - i,
    {
        assert(ports@.take(i as int + 1).drop_last() =~= ports@.take(i as int));
        if !contains_port(removed, ports[i]) {
            kept.push(ports[i]);
        }
        i += 1;
    }
    assert(ports@.take(ports@.len() as int) =~= ports@);
    kept
}

// ---------------------------------------------------------------------------
// Registration: from the request of a client to sockets to bind
// ---------------------------------------------------------------------------

/// What a client asks for.
#[derive(Debug)]
pub struct RegisterRequest {
    pub name: String,
    pub proto: Proto,
    pub remote_port: Option<u16>,
    pub local_ports: Option<String>,
    pub encrypted: bool,
    pub udp_mtu: Option<u16>,
}

/// A registration whose public ports are reserved, while their sockets are being bound.
#[verifier::ext_equal]
pub struct RegistrationView {
    pub session: u128,
    pub name: Seq<char>,
    pub proto: Proto,
    pub encrypted: bool,
    /// The packet size, if the tunnel carries UDP.
    pub udp_mtu: Option<u16>,
    pub requests: Seq<BindingRequest>,
    /// How many of the requests have their sockets.
    pub bound: nat,
}

/// A registration whose public ports are reserved, while their sockets are being bound.
pub struct Registration {
    session: u128,
    name: String,
    proto: Proto,
    encrypted: bool,
    udp_mtu: Option<u16>,
    requests: Vec<BindingRequest>,
    bound: usize,
}

impl View for Registration {
    type V = RegistrationView;

    closed spec fn view(&self) -> RegistrationView {
        RegistrationView {
            session: self.session,
            name: self.name@,
            proto: self.proto,
            encrypted: self.encrypted,
            udp_mtu: self.udp_mtu,
            requests: self.requests@,
            bound: self.bound as nat,
        }
    }
}

/// The local ports that a request selects, and whether they are a range. Without a selection
/// there is one, unnamed, local port.
pub open spec fn local_selection(local_ports: Option<Seq<char>>) -> Result<
    (Seq<u16>, bool),
    crate::config::PortsError,
> {
    match local_ports {
        Some(spec) => parsed_local_ports(spec),
        None => Ok((seq![0u16], false)),
    }
}

/// Whether a request is refused for `reason`.
pub open spec fn refuses(p: Ports, request: RegisterRequest, reason: Seq<char>) -> bool {
    match udp_mtu_error(request.proto, request.udp_mtu) {
        Some(e) => reason == e.text(),
        None => match local_selection(option_view(request.local_ports)) {
            Err(e) => reason == e.text(),
            Ok((local_ports, contiguous)) => exists|e: AllocError|
                #![trigger e.text()]
                allocates(
                    p,
                    local_ports,
                    contiguous,
                    request.remote_port,
                    Err::<Seq<BindingRequest>, _>(e),
                ) && reason == e.text(),
        },
    }
}

/// Whether a request is granted the public ports of `requests`.
pub open spec fn grants(p: Ports, request: RegisterRequest, requests: Seq<BindingRequest>) -> bool {
    &&& udp_mtu_error(request.proto, request.udp_mtu) is None
    &&& local_selection(option_view(request.local_ports)) matches Ok((local_ports, contiguous))
        && allocates(
        p,
        local_ports,
        contiguous,
        request.remote_port,
        Ok::<_, AllocError>(requests),
    )
}

/// A refusal.
pub open spec fn is_rejection(message: ServerMessage, name: Seq<char>, reason: Seq<char>) -> bool {
    message matches ServerMessage::Rejected { name: n, reason: r } && n@ == name && r@ == reason
}

/// What to do next for a registration.
pub enum BindStep {
    /// Bind the sockets of a public port.
    Bind { port: u16, addr: SocketAddr, tcp: bool, udp: bool },
    /// The registration failed and its ports are free again; tell the client.
    Failed { message: ServerMessage },
    /// All sockets are bound.
    Done,
}

/// Why the sockets of a public port could not be bound.
pub struct BindFailure {
    /// Whether it was the UDP socket.
    pub udp: bool,
    pub error: String,
}

/// The reason that a failure to bind is reported with.
pub open spec fn bind_failure_text(port: u16, failure: BindFailure) -> Seq<char> {
    (if failure.udp {
        "binding udp public port "@
    } else {
        "binding tcp public port "@
    }) + dec(port as nat) + " failed: "@ + failure.error@
}

/// What is to be done next for a registration.
pub open spec fn binds_next(
    s: ServerState,
    v: RegistrationView,
    after: ServerState,
    step: BindStep,
) -> bool {
    let port = v.requests[v.bound as int].remote_port;
    if v.bound >= v.requests.len() {
        step is Done && after == s
    } else {
        match parsed_socket_addr(endpoint_text(s.bind_addr, port)) {
            Some(addr) => step == (BindStep::Bind {
                port,
                addr,
                tcp: v.proto.spec_has_tcp(),
                udp: v.proto.spec_has_udp(),
            }) && after == s,
            None => {
                &&& step matches BindStep::Failed { message } && is_rejection(
                    message,
                    v.name,
                    AllocError::InvalidBindAddress { port }.text(),
                )
                &&& after == (ServerState { tunnels: without_ports(s.tunnels, v.requests), ..s })
            },
        }
    }
}

/// The sockets of the next request of a registration are bound, or could not be.
pub open spec fn binding_ends(
    s: ServerState,
    v: RegistrationView,
    failure: Option<BindFailure>,
    after: ServerState,
    v_after: RegistrationView,
    answer: Option<ServerMessage>,
) -> bool {
    match failure {
        None => {
            &&& answer is None
            &&& after == s
            &&& v_after == (RegistrationView { bound: v.bound + 1, ..v })
        },
        Some(f) => {
            let port = v.requests[v.bound as int].remote_port;
            &&& answer matches Some(message) && is_rejection(
                message,
                v.name,
                bind_failure_text(port, f),
            )
            &&& v_after == v
            &&& after == (ServerState { tunnels: without_ports(s.tunnels, v.requests), ..s })
        },
    }
}

fn rejection(name: &str, reason: String) -> (r: ServerMessage)
    ensures
        is_rejection(r, name@, reason@),
{
    ServerMessage::Rejected { name: name.to_string(), reason }
}

impl Server {
    /// Start a registration: check it, choose its public ports and reserve them. A request that
    /// is refused changes nothing and gets the answer that is returned.
    pub fn begin_register(&mut self, session: u128, request: RegisterRequest) -> (r: Result<
        Registration,
        ServerMessage,
    >)
        ensures
            match r {
                Ok(reg) => {
                    &&& grants(old(self)@.ports(), request, reg@.requests)
                    &&& reg@ == (RegistrationView {
                        session,
                        name: request.name@,
                        proto: request.proto,
                        encrypted: request.encrypted,
                        udp_mtu: spec_resolved_udp_mtu(request.proto, request.udp_mtu),
                        requests: reg@.requests,
                        bound: 0,
                    })
                    &&& final(self)@ == (ServerState {
                        tunnels: with_ports(
                            old(self)@.tunnels,
                            reg@.requests,
                            TunnelEntry { name: request.name@, session },
                        ),
                        ..old(self)@
                    })
                },
                Err(message) => {
                    &&& final(self)@ == old(self)@
                    &&& exists|reason: Seq<char>| #[trigger]
                        is_rejection(message, request.name@, reason) && refuses(
                            old(self)@.ports(),
                            request,
                            reason,
                        )
                },
            },
    {
        match validate_udp_mtu(request.proto, request.udp_mtu) {
            Err(e) => {
                let message = rejection(&request.name, e.message());
                assert(is_rejection(message, request.name@, e.text()));
                return Err(message);
            },
            Ok(()) => {},
        }
        let udp_mtu = resolved_udp_mtu(request.proto, request.udp_mtu);
        let (local_ports, contiguous) = match &request.local_ports {
            Some(spec) => match parse_local_ports(spec) {
                Ok(selection) => (selection.ports(), selection.is_range()),
                Err(e) => {
                    let message = rejection(&request.name, e.message());
                    assert(is_rejection(message, request.name@, e.text()));
                    return Err(message);
                },
            },
            None => {
                let mut one: Vec<u16> = Vec::new();
                one.push(0);
                assert(one@ =~= seq![0u16]);
                (one, false)
            },
        };
        let requests = match self.allocate_requests(
            &local_ports,
            contiguous,
            request.remote_port,
        ) {
            Ok(requests) => requests,
            Err(e) => {
                let message = rejection(&request.name, e.message());
                assert(is_rejection(message, request.name@, e.text()));
                return Err(message);
            },
        };
        proof {
            law_allocated_reservable(
                self@,
                local_ports@,
                contiguous,
                request.remote_port,
                requests@,
            );
        }
        match self.reserve_requests(session, &request.name, &requests) {
            Ok(()) => {},
            Err(e) => {
                assert(false);
                return Err(rejection(&request.name, e.message()));
            },
        }
        Ok(
            Registration {
                session,
                name: request.name,
                proto: request.proto,
                encrypted: request.encrypted,
                udp_mtu,
                requests,
                bound: 0,
            },
        )
    }

    /// The next sockets to bind for a registration.
    pub fn next_bind(&mut self, reg: &Registration) -> (r: BindStep)
        ensures
            binds_next(old(self)@, reg@, final(self)@, r),
    {
        if reg.bound >= reg.requests.len() {
            return BindStep::Done;
        }
        let port: u16 = reg.requests[reg.bound].remote_port;
        let text = endpoint_string(&self.settings.bind_addr, port);
        match parse_socket_addr(&chars_of(&text)) {
            Some(addr) => BindStep::Bind {
                port,
                addr,
                tcp: reg.proto.has_tcp(),
                udp: reg.proto.has_udp(),
            },
            None => {
                self.release_reserved(&reg.requests);
                let e = AllocError::InvalidBindAddress { port };
                BindStep::Failed { message: rejection(&reg.name, e.message()) }
            },
        }
    }

    /// The sockets of the next request are bound, or could not be, in which case the
    /// registration is undone and the answer to the client comes back.
    pub fn bind_result(&mut self, reg: &mut Registration, failure: Option<BindFailure>) -> (r:
        Option<ServerMessage>)
        requires
            old(reg)@.bound < old(reg)@.requests.len(),
        ensures
            binding_ends(old(self)@, old(reg)@, failure, final(self)@, final(reg)@, r),
    {
        match failure {
            None => {
                if reg.bound < reg.requests.len() {
                    reg.bound = reg.bound + 1;
                }
                None
            },
            Some(f) => {
                let port: u16 = reg.requests[reg.bound].remote_port;
                self.release_reserved(&reg.requests);
                let mut reason = if f.udp {
                    "binding udp public port ".to_string()
                } else {
                    "binding tcp public port ".to_string()
                };
                push_dec(&mut reason, port as u64);
                reason.append(" failed: ");
                reason.append(&f.error);
                Some(rejection(&reg.name, reason))
            },
        }
    }
}

/// A registration that fails leaves no trace: the ports it took are given back, whatever it was
/// that failed after they had been reserved.
pub proof fn law_failed_registration_leaves_no_trace(
    s: ServerState,
    request: RegisterRequest,
    requests: Seq<BindingRequest>,
    entry: TunnelEntry,
)
    requires
        grants(s.ports(), request, requests),
    ensures
        without_ports(with_ports(s.tunnels, requests, entry), requests) == s.tunnels,
{
    let (local_ports, contiguous) = local_selection(option_view(request.local_ports))->Ok_0;
    law_allocated_reservable(s, local_ports, contiguous, request.remote_port, requests);
    assert forall|i: int| 0 <= i < requests.len() implies !s.tunnels.contains_key(
        (#[trigger] requests[i]).remote_port,
    ) by {
        assert(!conflicts(s.tunnels, requests, i));
    }
    law_reserve_release(s.tunnels, requests, entry);
}

/// Whether every public port in use is inside the configured range.
pub open spec fn within_range(s: ServerState) -> bool {
    forall|port: u16| #[trigger]
        s.tunnels.contains_key(port) ==> s.min_port <= port <= s.max_port
}

/// The server only ever has public ports inside its configured range: registering keeps it so, and
/// so does whatever frees ports.
pub proof fn law_ports_stay_in_range(
    s: ServerState,
    request: RegisterRequest,
    requests: Seq<BindingRequest>,
    entry: TunnelEntry,
    session: u128,
    name: Seq<char>,
    freed: Seq<u16>,
)
    requires
        within_range(s),
        grants(s.ports(), request, requests),
    ensures
        within_range(ServerState { tunnels: with_ports(s.tunnels, requests, entry), ..s }),
        within_range(ServerState { tunnels: without_named(s.tunnels, session, name), ..s }),
        within_range(ServerState { tunnels: without_list(s.tunnels, freed), ..s }),
{
    let (local_ports, contiguous) = local_selection(option_view(request.local_ports))->Ok_0;
    law_allocation_grantable(s.ports(), local_ports, contiguous, request.remote_port, requests);
    let after = ServerState { tunnels: with_ports(s.tunnels, requests, entry), ..s };
    assert forall|port: u16| #[trigger] after.tunnels.contains_key(port) implies s.min_port <= port
        <= s.max_port by {
        if requests_port(requests, port) {
            let i = choose|i: int|
                0 <= i < requests.len() && (#[trigger] requests[i]).remote_port == port;
            assert(s.ports().grantable(requests[i].remote_port));
        } else {
            assert(s.tunnels.contains_key(port));
        }
    }
    let named = ServerState { tunnels: without_named(s.tunnels, session, name), ..s };
    assert forall|port: u16| #[trigger] named.tunnels.contains_key(port) implies s.min_port <= port
        <= s.max_port by {
        assert(s.tunnels.contains_key(port));
    }
    let listed = ServerState { tunnels: without_list(s.tunnels, freed), ..s };
    assert forall|port: u16| #[trigger] listed.tunnels.contains_key(port) implies s.min_port <= port
        <= s.max_port by {
        assert(s.tunnels.contains_key(port));
    }
}

// ---------------------------------------------------------------------------
// Registration: from bound sockets to a live tunnel
// ---------------------------------------------------------------------------

/// The random capabilities of one public port.
pub struct Grant {
    pub token: u128,
    pub key: [u8; 32],
}

/// How the UDP side of a public port is served.
pub enum UdpStart {
    /// The client opens an encrypted data channel with the token.
    Encrypted { token: u128 },
    /// Packets authenticated with the key come to the public port itself.
    Plain { token: u128, key: [u8; 32], udp_mtu: u16 },
}

/// A public port to serve.
pub struct Start {
    pub local_port: u16,
    pub remote_port: u16,
    pub tcp: bool,
    pub udp: Option<UdpStart>,
}

/// The contents of one binding of an answer.
#[verifier::ext_equal]
pub struct AcceptedView {
    pub local_port: u16,
    pub remote_port: u16,
    pub public_addr: Seq<char>,
    pub token: Option<u128>,
    pub udp_auth_key: Option<Seq<char>>,
    pub udp_mtu: Option<u16>,
}

impl View for AcceptedBinding {
    type V = AcceptedView;

    open spec fn view(&self) -> AcceptedView {
        AcceptedView {
            local_port: self.local_port,
            remote_port: self.remote_port,
            public_addr: self.public_addr@,
            token: self.token,
            udp_auth_key: option_view(self.udp_auth_key),
            udp_mtu: self.udp_mtu,
        }
    }
}

/// The binding of a public port in the answer to the client.
pub open spec fn accepted_binding(
    bind_addr: Seq<char>,
    reg: RegistrationView,
    grants: Seq<Grant>,
    i: int,
) -> AcceptedView {
    let udp = reg.proto.spec_has_udp();
    AcceptedView {
        local_port: reg.requests[i].local_port,
        remote_port: reg.requests[i].remote_port,
        public_addr: endpoint_text(bind_addr, reg.requests[i].remote_port),
        token: if udp {
            Some(grants[i].token)
        } else {
            None
        },
        udp_auth_key: if udp && !reg.encrypted {
            Some(base64url(grants[i].key@))
        } else {
            None
        },
        udp_mtu: reg.udp_mtu,
    }
}

/// How a public port is served.
pub open spec fn start_of(reg: RegistrationView, grants: Seq<Grant>, i: int, start: Start) -> bool {
    &&& start.local_port == reg.requests[i].local_port
    &&& start.remote_port == reg.requests[i].remote_port
    &&& start.tcp == reg.proto.spec_has_tcp()
    &&& start.udp == (if !reg.proto.spec_has_udp() {
        None
    } else if reg.encrypted {
        Some(UdpStart::Encrypted { token: grants[i].token })
    } else {
        Some(
            UdpStart::Plain {
                token: grants[i].token,
                key: grants[i].key,
                udp_mtu: match reg.udp_mtu {
                    Some(mtu) => mtu,
                    None => DEFAULT_UDP_MTU,
                },
            },
        )
    })
}

/// The answer to the client.
pub open spec fn is_acceptance(
    message: ServerMessage,
    bind_addr: Seq<char>,
    reg: RegistrationView,
    grants: Seq<Grant>,
) -> bool {
    let first = accepted_binding(bind_addr, reg, grants, 0);
    message matches ServerMessage::Accepted {
        name,
        proto,
        public_addr,
        remote_port,
        encrypted,
        token,
        udp_auth_key,
        udp_mtu,
        bindings,
    } && {
        &&& name@ == reg.name
        &&& proto == reg.proto
        &&& public_addr@ == first.public_addr
        &&& remote_port == first.remote_port
        &&& encrypted == reg.encrypted
        &&& token == first.token
        &&& option_view(udp_auth_key) == first.udp_auth_key
        &&& udp_mtu == reg.udp_mtu
        &&& bindings@.len() == reg.requests.len()
        &&& forall|i: int|
            0 <= i < bindings@.len() ==> (#[trigger] bindings@[i])@ == accepted_binding(
                bind_addr,
                reg,
                grants,
                i,
            )
    }
}

/// Whether the tunnel waits for encrypted data channels.
pub open spec fn waits_for_channels(reg: RegistrationView) -> bool {
    reg.proto.spec_has_udp() && reg.encrypted
}

/// The waiting UDP tunnels with those of the first `n` public ports of a registration.
pub open spec fn with_tokens(
    udp: Map<u128, PendingUdp>,
    reg: RegistrationView,
    grants: Seq<Grant>,
    n: nat,
) -> Map<u128, PendingUdp>
    decreases n,
{
    if n == 0 || !waits_for_channels(reg) {
        udp
    } else {
        with_tokens(udp, reg, grants, (n - 1) as nat).insert(
            grants[n - 1].token,
            PendingUdp { port: reg.requests[n - 1].remote_port, session: reg.session },
        )
    }
}

/// The public ports of requests.
pub open spec fn remote_ports(requests: Seq<BindingRequest>) -> Seq<u16> {
    Seq::new(requests.len(), |i: int| requests[i].remote_port)
}

/// The tokens of a registration that its session keeps.
pub open spec fn kept_tokens(reg: RegistrationView, grants: Seq<Grant>) -> Seq<u128> {
    if waits_for_channels(reg) {
        Seq::new(reg.requests.len(), |i: int| grants[i].token)
    } else {
        Seq::empty()
    }
}

/// A registration keeps the ports of its session those of the session's tunnels.
pub proof fn law_register_keeps_ownership(
    s: ServerState,
    session: u128,
    ports: Seq<u16>,
    request: RegisterRequest,
    requests: Seq<BindingRequest>,
    name: Seq<char>,
)
    requires
        owns(s, session, ports),
        grants(s.ports(), request, requests),
    ensures
        owns(
            ServerState {
                tunnels: with_ports(s.tunnels, requests, TunnelEntry { name, session }),
                ..s
            },
            session,
            ports + remote_ports(requests),
        ),
{
    let entry = TunnelEntry { name, session };
    let after = ServerState { tunnels: with_ports(s.tunnels, requests, entry), ..s };
    let all = ports + remote_ports(requests);
    assert forall|port: u16|
        after.tunnels.contains_key(port) && after.tunnels[port].session == session <==> #[trigger]
            all.contains(port) by {
        assert(s.tunnels.contains_key(port) && s.tunnels[port].session == session
            <==> ports.contains(port));
        if requests_port(requests, port) {
            let i = choose|i: int|
                0 <= i < requests.len() && (#[trigger] requests[i]).remote_port == port;
            assert(all[ports.len() + i] == port);
        }
        if ports.contains(port) {
            let i = choose|i: int| 0 <= i < ports.len() && ports[i] == port;
            assert(all[i] == port);
        }
        if all.contains(port) {
            let i = choose|i: int| 0 <= i < all.len() && all[i] == port;
            if i < ports.len() {
                assert(ports[i] == port);
            } else {
                assert(requests[i - ports.len()].remote_port == port);
            }
        }
    }
}

impl Server {
    /// Finish a registration whose sockets are bound, with the given capabilities: one for each
    /// public port of a tunnel that carries UDP. The answer to the client and what to serve come
    /// back.
    pub fn finish_register_with(
        &mut self,
        session: &mut Session,
        reg: &Registration,
        grants: &Vec<Grant>,
    ) -> (r: (ServerMessage, Vec<Start>))
        requires
            reg@.requests.len() > 0,
            reg@.bound == reg@.requests.len(),
            reg@.proto.spec_has_udp() ==> grants@.len() == reg@.requests.len(),
        ensures
            is_acceptance(r.0, old(self)@.bind_addr, reg@, grants@),
            r.1@.len() == reg@.requests.len(),
            forall|i: int|
                0 <= i < r.1@.len() ==> start_of(reg@, grants@, i, #[trigger] r.1@[i]),
            final(self)@ == (ServerState {
                udp_pending: with_tokens(
                    old(self)@.udp_pending,
                    reg@,
                    grants@,
                    reg@.requests.len(),
                ),
                ..old(self)@
            }),
            final(session).id == old(session).id,
            final(session).ports@ == old(session).ports@ + remote_ports(reg@.requests),
            final(session).udp_tokens@ == old(session).udp_tokens@ + kept_tokens(reg@, grants@),
    {
        let has_udp = reg.proto.has_udp();
        let has_tcp = reg.proto.has_tcp();
        let waits = has_udp && reg.encrypted;
        let ghost before = self@;
        let ghost v = reg@;
        let ghost ports_before = session.ports@;
        let ghost tokens_before = session.udp_tokens@;
        let mut bindings: Vec<AcceptedBinding> = Vec::new();
        let mut starts: Vec<Start> = Vec::new();
        let mut i: usize = 0;
        proof {
            assert(ports_before + remote_ports(v.requests).take(0) =~= ports_before);
            assert(tokens_before + kept_tokens(v, grants@).take(0) =~= tokens_before);
        }
        while i < reg.requests.len()
            invariant
                i <= reg.requests@.len(),
                v == reg@,
                before == old(self)@,
                has_udp == v.proto.spec_has_udp(),
                has_tcp == v.proto.spec_has_tcp(),
                waits == waits_for_channels(v),
                has_udp ==> grants@.len() == v.requests.len(),
                bindings@.len() == i,
                forall|j: int|
                    0 <= j < i ==> (#[trigger] bindings@[j])@ == accepted_binding(
                        before.bind_addr,
                        v,
                        grants@,
                        j,
                    ),
                starts@.len() == i,
                forall|j: int| 0 <= j < i ==> start_of(v, grants@, j, #[trigger] starts@[j]),
                self@ == (ServerState {
                    udp_pending: with_tokens(before.udp_pending, v, grants@, i as nat),
                    ..before
                }),
                session.id == old(session).id,
                session.ports@ == ports_before + remote_ports(v.requests).take(i as int),
                session.udp_tokens@ == tokens_before + (if waits {
                    kept_tokens(v, grants@).take(i as int)
                } else {
                    Seq::empty()
                }),
            decreases reg.requests@.len() - i,
        {
            let request = reg.requests[i];
            let port: u16 = request.remote_port;
            let mut token: Option<u128> = None;
            let mut udp_auth_key: Option<String> = None;
            let mut udp: Option<UdpStart> = None;
            if has_udp {
                token = Some(grants[i].token);
                if reg.encrypted {
                    insert_udp(
                        &mut self.udp_pending,
                        grants[i].token,
                        PendingUdp { port, session: reg.session },
                    );
                    session.udp_tokens.push(grants[i].token);
                    udp = Some(UdpStart::Encrypted { token: grants[i].token });
                } else {
                    let udp_mtu: u16 = match reg.udp_mtu {
                        Some(mtu) => mtu,
                        None => DEFAULT_UDP_MTU,
                    };
                    udp = Some(
                        UdpStart::Plain { token: grants[i].token, key: grants[i].key, udp_mtu },
                    );
                    udp_auth_key = Some(encode_udp_auth_key(&grants[i].key));
                }
            }
            session.ports.push(port);
            bindings.push(
                AcceptedBinding {
                    local_port: request.local_port,
                    remote_port: port,
                    public_addr: endpoint_string(&self.settings.bind_addr, port),
                    token,
                    udp_auth_key,
                    udp_mtu: reg.udp_mtu,
                },
            );
            starts.push(
                Start { local_port: request.local_port, remote_port: port, tcp: has_tcp, udp },
            );
            i += 1;
            proof {
                assert(session.ports@ =~= ports_before + remote_ports(v.requests).take(i as int));
                if waits {
                    assert(session.udp_tokens@ =~= tokens_before + kept_tokens(v, grants@).take(
                        i as int,
                    ));
                }
                assert(self@ =~= ServerState {
                    udp_pending: with_tokens(before.udp_pending, v, grants@, i as nat),
                    ..before
                });
            }
        }
        proof {
            assert(remote_ports(v.requests).take(i as int) =~= remote_ports(v.requests));
            assert(session.udp_tokens@ =~= tokens_before + kept_tokens(v, grants@));
        }
        let message = ServerMessage::Accepted {
            name: reg.name.clone(),
            proto: reg.proto,
            public_addr: bindings[0].public_addr.clone(),
            remote_port: bindings[0].remote_port,
            encrypted: reg.encrypted,
            token: bindings[0].token,
            udp_auth_key: clone_option(&bindings[0].udp_auth_key),
            udp_mtu: reg.udp_mtu,
            bindings,
        };
        (message, starts)
    }

    /// Finish a registration whose sockets are bound. Each public port of a tunnel that carries
    /// UDP gets a random token and a random key. The answer to the client and what to serve come
    /// back.
    pub fn finish_register(&mut self, session: &mut Session, reg: &Registration) -> (r: (
        ServerMessage,
        Vec<Start>,
    ))
        requires
            reg@.requests.len() > 0,
            reg@.bound == reg@.requests.len(),
        ensures
            exists|grants: Seq<Grant>|
                {
                    &&& #[trigger] is_acceptance(r.0, old(self)@.bind_addr, reg@, grants)
                    &&& reg@.proto.spec_has_udp() ==> grants.len() == reg@.requests.len()
                    &&& forall|i: int|
                        0 <= i < grants.len() ==> is_uuid_v4((#[trigger] grants[i]).token)
                    &&& r.1@.len() == reg@.requests.len()
                    &&& forall|i: int|
                        0 <= i < r.1@.len() ==> start_of(reg@, grants, i, #[trigger] r.1@[i])
                    &&& final(self)@ == (ServerState {
                        udp_pending: with_tokens(
                            old(self)@.udp_pending,
                            reg@,
                            grants,
                            reg@.requests.len(),
                        ),
                        ..old(self)@
                    })
                    &&& final(session).udp_tokens@ == old(session).udp_tokens@ + kept_tokens(
                        reg@,
                        grants,
                    )
                },
            final(session).id == old(session).id,
            final(session).ports@ == old(session).ports@ + remote_ports(reg@.requests),
    {
        let mut grants: Vec<Grant> = Vec::new();
        if reg.proto.has_udp() {
            while grants.len() < reg.requests.len()
                invariant
                    grants@.len() <= reg.requests@.len(),
                    forall|i: int|
                        0 <= i < grants@.len() ==> is_uuid_v4((#[trigger] grants@[i]).token),
                decreases reg.requests@.len() - grants@.len(),
            {
                grants.push(Grant { token: random_uuid(), key: random_key() });
            }
        }
        self.finish_register_with(session, reg, &grants)
    }
}

// ---------------------------------------------------------------------------
// What the model says of the relay
// ---------------------------------------------------------------------------

/// The scan finds the lowest free ports: one that it does not list is above all that it lists, and
/// then the list is full.
proof fn lemma_scan_lowest(p: Ports, cursor: int, need: nat, port: u16)
    requires
        0 <= cursor <= port <= p.max_port,
        !p.taken.contains(port),
    ensures
        p.scan(cursor, need).contains(port) || (p.scan(cursor, need).len() == need && forall|i: int|
            0 <= i < need ==> #[trigger] p.scan(cursor, need)[i] < port),
    decreases p.max_port + 1 - cursor,
{
    let list = p.scan(cursor, need);
    if need > 0 {
        if p.taken.contains(cursor as u16) {
            lemma_scan_lowest(p, cursor + 1, need, port);
        } else if cursor == port {
            assert(list[0] == port);
        } else {
            let rest = p.scan(cursor + 1, (need - 1) as nat);
            lemma_scan_lowest(p, cursor + 1, (need - 1) as nat, port);
            if rest.contains(port) {
                let i = choose|i: int| 0 <= i < rest.len() && rest[i] == port;
                assert(list[i + 1] == port);
            } else {
                assert forall|i: int| 0 <= i < need implies #[trigger] list[i] < port by {
                    if i > 0 {
                        assert(list[i] == rest[i - 1]);
                    }
                }
            }
        }
    }
}

/// Whether requests take a public port.
pub open spec fn takes_port(requests: Seq<BindingRequest>, port: u16) -> bool {
    exists|i: int| 0 <= i < requests.len() && (#[trigger] requests[i]).remote_port == port
}

/// A list of local ports gets the lowest free public ports; if a port is asked for, that one and
/// the lowest free ones above it. It is refused for want of ports only if there are too few.
pub proof fn law_list_gets_lowest_free(
    p: Ports,
    local_ports: Seq<u16>,
    remote_port: Option<u16>,
    r: Result<Seq<BindingRequest>, AllocError>,
    port: u16,
)
    requires
        0 < local_ports.len() <= 2048,
        allocates(p, local_ports, false, remote_port, r),
        p.min_port <= port <= p.max_port,
        !p.taken.contains(port),
        remote_port matches Some(first) ==> first != 0 ==> first < port,
    ensures
        r matches Ok(requests) ==> takes_port(requests, port) || forall|i: int|
            0 <= i < requests.len() ==> (#[trigger] requests[i]).remote_port < port,
        local_ports.len() == 1 && (remote_port == Some(0u16) || remote_port is None) ==> r is Ok,
        remote_port matches Some(first) ==> first != 0 ==> (local_ports.len() == 1 ==> (r is Ok
            <==> p.min_port <= first <= p.max_port && !p.taken.contains(first))),
{
    let n = local_ports.len();
    let asked = asked_port(remote_port);
    let list = match asked {
        Some(first) => seq![first] + p.scan(first + 1, (n - 1) as nat),
        None => p.scan(p.min_port as int, n),
    };
    match asked {
        Some(first) => {
            lemma_scan_lowest(p, first + 1, (n - 1) as nat, port);
            let rest = p.scan(first + 1, (n - 1) as nat);
            lemma_scan(p, first + 1, (n - 1) as nat);
            if let Ok(requests) = r {
                if rest.contains(port) {
                    let i = choose|i: int| 0 <= i < rest.len() && rest[i] == port;
                    assert(requests[i + 1].remote_port == port);
                } else {
                    assert forall|i: int| 0 <= i < requests.len() implies (
                    #[trigger] requests[i]).remote_port < port by {
                        if i > 0 {
                            assert(requests[i].remote_port == rest[i - 1]);
                        }
                    }
                }
            }
        },
        None => {
            lemma_scan_lowest(p, p.min_port as int, n, port);
            lemma_scan(p, p.min_port as int, n);
            if let Ok(requests) = r {
                if list.contains(port) {
                    let i = choose|i: int| 0 <= i < list.len() && list[i] == port;
                    assert(requests[i].remote_port == port);
                } else {
                    assert forall|i: int| 0 <= i < requests.len() implies (
                    #[trigger] requests[i]).remote_port < port by {
                        assert(requests[i].remote_port == list[i]);
                    }
                }
            }
        },
    }
}

/// A range of local ports gets the lowest block of free public ports that holds them, or, if a port
/// is asked for, the block that starts there; it is refused only if there is no such block.
pub proof fn law_range_gets_lowest_block(
    p: Ports,
    local_ports: Seq<u16>,
    remote_port: Option<u16>,
    r: Result<Seq<BindingRequest>, AllocError>,
    start: u16,
)
    requires
        1 < local_ports.len() <= 2048,
        allocates(p, local_ports, true, remote_port, r),
        p.min_port <= start,
        start + local_ports.len() - 1 <= p.max_port,
        forall|port: u16|
            start <= port < start + local_ports.len() ==> !#[trigger] p.taken.contains(port),
        remote_port matches Some(first) ==> first == 0 || first == start,
    ensures
        r matches Ok(requests) && requests.len() == local_ports.len() && requests[0].remote_port
            <= start,
{
    let n = local_ports.len();
    let asked = asked_port(remote_port);
    let ports = choose|ports: Result<Seq<u16>, AllocError>| #[trigger]
        contiguous_ports(p, n, asked, ports) && r == (match ports {
            Ok(ports) => Ok(paired(local_ports, ports)),
            Err(e) => Err(e),
        });
    assert(p.block_free(start as int, n as int));
    match ports {
        Ok(list) => {
            lemma_contiguous_len(p, n, asked, list);
            if asked is None {
                let first = choose|first: u16|
                    #![trigger first_block(p, n as int, first)]
                    first_block(p, n as int, first) && list == port_range(
                        first as nat,
                        (first + n - 1) as nat,
                    );
                assert(first <= start);
                assert(list[0] == first);
            }
        },
        Err(e) => {},
    }
}

/// A granted request gets as many public ports as it selects local ones: without a selection one,
/// for the endpoint of the tunnel; with one, a public port for each local port, in the order of the
/// selection. The public ports are free ones of the range and ascend; those of a range follow each
/// other.
pub proof fn law_request_gets_its_ports(
    p: Ports,
    request: RegisterRequest,
    requests: Seq<BindingRequest>,
)
    requires
        grants(p, request, requests),
    ensures
        request.local_ports is None ==> requests.len() == 1 && requests[0].local_port == 0,
        request.local_ports matches Some(text) ==> (parsed_local_ports(text@) matches Ok((ports, range))
            && {
            &&& requests.len() == ports.len()
            &&& forall|i: int|
                0 <= i < requests.len() ==> (#[trigger] requests[i]).local_port == ports[i]
            &&& range ==> forall|i: int|
                0 <= i < requests.len() ==> (#[trigger] requests[i]).remote_port
                    == requests[0].remote_port + i
        }),
        0 < requests.len() <= 2048,
        request.remote_port matches Some(first) ==> first != 0 ==> requests[0].remote_port == first,
        forall|i: int|
            0 <= i < requests.len() ==> p.min_port <= (#[trigger] requests[i]).remote_port
                <= p.max_port && !p.taken.contains(requests[i].remote_port),
        forall|i: int, j: int|
            0 <= i < j < requests.len() ==> (#[trigger] requests[i]).remote_port < (
            #[trigger] requests[j]).remote_port,
{
    let (local_ports, contiguous) = local_selection(option_view(request.local_ports))->Ok_0;
    law_allocation_grantable(p, local_ports, contiguous, request.remote_port, requests);
    assert forall|i: int| 0 <= i < requests.len() implies p.min_port <= (
    #[trigger] requests[i]).remote_port <= p.max_port && !p.taken.contains(
        requests[i].remote_port,
    ) by {
        assert(p.grantable(requests[i].remote_port));
    }
}

/// A registration takes the public ports of its requests for its name and its session, and no other
/// port changes hands.
pub proof fn law_registration_takes_ports(
    tunnels: Map<u16, TunnelEntry>,
    requests: Seq<BindingRequest>,
    name: Seq<char>,
    session: u128,
    port: u16,
)
    ensures
        ({
            let after = with_ports(tunnels, requests, TunnelEntry { name, session });
            &&& takes_port(requests, port) ==> after.contains_key(port) && after[port].name == name
                && after[port].session == session
            &&& !takes_port(requests, port) ==> (after.contains_key(port) <==> tunnels.contains_key(
                port,
            )) && (tunnels.contains_key(port) ==> after[port] == tunnels[port])
        }),
        ({
            let after = without_ports(tunnels, requests);
            &&& takes_port(requests, port) ==> !after.contains_key(port)
            &&& !takes_port(requests, port) ==> (after.contains_key(port) <==> tunnels.contains_key(
                port,
            )) && (tunnels.contains_key(port) ==> after[port] == tunnels[port])
        }),
{
    if takes_port(requests, port) {
        let i = choose|i: int|
            0 <= i < requests.len() && (#[trigger] requests[i]).remote_port == port;
        assert(requests_port(requests, port));
    }
    if requests_port(requests, port) {
        let i = choose|i: int|
            0 <= i < requests.len() && (#[trigger] requests[i]).remote_port == port;
        assert(takes_port(requests, port));
    }
}

/// The sockets of a registration are bound port by port, each port with the sockets that the
/// protocol needs, at the bind address of the relay. When all are bound, it is done.
pub proof fn law_sockets_bound_in_turn(
    s: ServerState,
    v: RegistrationView,
    after: ServerState,
    step: BindStep,
)
    requires
        binds_next(s, v, after, step),
    ensures
        step is Done <==> v.bound >= v.requests.len(),
        step matches BindStep::Bind { port, addr, tcp, udp } ==> {
            &&& port == v.requests[v.bound as int].remote_port
            &&& tcp == (v.proto != Proto::Udp)
            &&& udp == (v.proto != Proto::Tcp)
            &&& parsed_socket_addr(s.bind_addr + ":"@ + dec(port as nat)) == Some(addr)
            &&& after == s
        },
        step is Failed ==> after == (ServerState { tunnels: after.tunnels, ..s }) && forall|i: int|
            0 <= i < v.requests.len() ==> !after.tunnels.contains_key(
                (#[trigger] v.requests[i]).remote_port,
            ),
        step matches BindStep::Failed { message } ==> (message matches ServerMessage::Rejected {
            name,
            ..
        } && name@ == v.name),
{
    if step is Failed {
        assert forall|i: int| 0 <= i < v.requests.len() implies !after.tunnels.contains_key(
            (#[trigger] v.requests[i]).remote_port,
        ) by {
            assert(requests_port(v.requests, v.requests[i].remote_port));
        }
    }
}

/// A port that was bound is counted. One that could not be bound gives all ports of the
/// registration back, and the client is told the name, the port and the reason.
pub proof fn law_binding_counts_or_undoes(
    s: ServerState,
    v: RegistrationView,
    failure: Option<BindFailure>,
    after: ServerState,
    v_after: RegistrationView,
    answer: Option<ServerMessage>,
)
    requires
        binding_ends(s, v, failure, after, v_after, answer),
    ensures
        failure is None ==> answer is None && after == s && v_after.bound == v.bound + 1,
        v_after.requests == v.requests,
        v_after.name == v.name,
        v_after.session == v.session,
        v_after.proto == v.proto,
        v_after.encrypted == v.encrypted,
        v_after.udp_mtu == v.udp_mtu,
        failure matches Some(f) ==> {
            &&& after == (ServerState { tunnels: after.tunnels, ..s })
            &&& forall|i: int|
                0 <= i < v.requests.len() ==> !after.tunnels.contains_key(
                    (#[trigger] v.requests[i]).remote_port,
                )
            &&& answer matches Some(ServerMessage::Rejected { name, reason }) && name@ == v.name
                && exists|before: Seq<char>| #[trigger]
                (before + " failed: "@ + f.error@) == reason@
        },
{
    if let Some(f) = failure {
        assert forall|i: int| 0 <= i < v.requests.len() implies !after.tunnels.contains_key(
            (#[trigger] v.requests[i]).remote_port,
        ) by {
            assert(requests_port(v.requests, v.requests[i].remote_port));
        }
        let port = v.requests[v.bound as int].remote_port;
        let before = (if f.udp {
            "binding udp public port "@
        } else {
            "binding tcp public port "@
        }) + dec(port as nat);
        assert(before + " failed: "@ + f.error@ == bind_failure_text(port, f));
    }
}

/// The answer to a registration grants what was registered: a binding for each public port, in
/// order, with the local port behind it, and for UDP the token and, in plaintext, the key. What
/// the relay serves is the same.
pub proof fn law_acceptance_lists_bindings(
    message: ServerMessage,
    bind_addr: Seq<char>,
    reg: RegistrationView,
    grants: Seq<Grant>,
    start: Start,
    i: int,
)
    requires
        is_acceptance(message, bind_addr, reg, grants),
        0 <= i < reg.requests.len(),
        start_of(reg, grants, i, start),
    ensures
        message matches ServerMessage::Accepted {
            name,
            proto,
            remote_port,
            encrypted,
            token,
            udp_mtu,
            bindings,
            ..
        } && {
            &&& name@ == reg.name
            &&& proto == reg.proto
            &&& encrypted == reg.encrypted
            &&& udp_mtu == reg.udp_mtu
            &&& remote_port == reg.requests[0].remote_port
            &&& bindings@.len() == reg.requests.len()
            &&& bindings@[i].local_port == reg.requests[i].local_port
            &&& bindings@[i].remote_port == reg.requests[i].remote_port
            &&& bindings@[i].udp_mtu == reg.udp_mtu
            &&& bindings@[i].public_addr@ == bind_addr + ":"@ + dec(
                reg.requests[i].remote_port as nat,
            )
            &&& reg.proto == Proto::Tcp ==> bindings@[i].token is None
                && bindings@[i].udp_auth_key is None && token is None
            &&& reg.proto != Proto::Tcp ==> bindings@[i].token == Some(grants[i].token) && token
                == Some(grants[0].token)
            &&& reg.proto != Proto::Tcp && reg.encrypted ==> bindings@[i].udp_auth_key is None
            &&& reg.proto != Proto::Tcp && !reg.encrypted ==> option_view(
                bindings@[i].udp_auth_key,
            ) == Some(base64url(grants[i].key@))
        },
        start.local_port == reg.requests[i].local_port,
        start.remote_port == reg.requests[i].remote_port,
        start.tcp == (reg.proto != Proto::Udp),
        reg.proto == Proto::Tcp ==> start.udp is None,
        reg.proto != Proto::Tcp && reg.encrypted ==> (start.udp matches Some(
            UdpStart::Encrypted { token },
        ) && token == grants[i].token),
        reg.proto != Proto::Tcp && !reg.encrypted ==> (start.udp matches Some(
            UdpStart::Plain { token, key, udp_mtu },
        ) && token == grants[i].token && key == grants[i].key && (reg.udp_mtu matches Some(mtu)
            ==> udp_mtu == mtu)),
{
    match message {
        ServerMessage::Accepted { bindings, .. } => {
            assert(bindings@[i]@ == accepted_binding(bind_addr, reg, grants, i));
            assert(bindings@[0]@ == accepted_binding(bind_addr, reg, grants, 0));
            assert(bindings@[i]@.token == bindings@[i].token);
        },
        _ => {},
    }
}

/// The token of each public port of an encrypted UDP tunnel waits for a data channel of that port.
/// Other tokens go on waiting as they did, and tunnels without encrypted UDP wait for none.
pub proof fn law_tokens_wait_for_channels(
    udp: Map<u128, PendingUdp>,
    reg: RegistrationView,
    grants: Seq<Grant>,
    n: nat,
    i: int,
    other: u128,
)
    requires
        0 <= i < n <= grants.len(),
        n <= reg.requests.len(),
        forall|a: int, b: int|
            0 <= a < b < n ==> (#[trigger] grants[a]).token != (#[trigger] grants[b]).token,
    ensures
        ({
            let after = with_tokens(udp, reg, grants, n);
            &&& reg.proto != Proto::Tcp && reg.encrypted ==> after.contains_key(grants[i].token)
                && after[grants[i].token].port == reg.requests[i].remote_port
                && after[grants[i].token].session == reg.session
            &&& reg.proto == Proto::Tcp || !reg.encrypted ==> after == udp
            &&& (forall|k: int| 0 <= k < n ==> (#[trigger] grants[k]).token != other) ==> (
            after.contains_key(other) <==> udp.contains_key(other)) && (udp.contains_key(other)
                ==> after[other] == udp[other])
        }),
    decreases n,
{
    if n > 1 {
        let last = grants[n - 1].token;
        if i < n - 1 {
            law_tokens_wait_for_channels(udp, reg, grants, (n - 1) as nat, i, other);
            assert(grants[i].token != last);
        } else {
            law_tokens_wait_for_channels(udp, reg, grants, (n - 1) as nat, 0, other);
        }
    } else {
        assert(with_tokens(udp, reg, grants, 0) == udp);
    }
}

/// A session remembers the public ports of a registration, in order, and the tokens of its
/// encrypted UDP tunnel, so that all of them can be freed.
pub proof fn law_session_remembers(reg: RegistrationView, grants: Seq<Grant>, i: int)
    requires
        0 <= i < reg.requests.len(),
    ensures
        remote_ports(reg.requests).len() == reg.requests.len(),
        remote_ports(reg.requests)[i] == reg.requests[i].remote_port,
        reg.proto != Proto::Tcp && reg.encrypted ==> kept_tokens(reg, grants).len()
            == reg.requests.len() && kept_tokens(reg, grants)[i] == grants[i].token,
        reg.proto == Proto::Tcp || !reg.encrypted ==> kept_tokens(reg, grants).len() == 0,
{
}

/// Unregistering a name frees the public ports that the session holds under it, and none of another
/// name or session.
pub proof fn law_unregister_frees_named(
    tunnels: Map<u16, TunnelEntry>,
    session: u128,
    name: Seq<char>,
    ports: Seq<u16>,
    port: u16,
)
    requires
        lists_named(tunnels, session, name, ports),
    ensures
        without_named(tunnels, session, name).contains_key(port) <==> tunnels.contains_key(port)
            && !(tunnels[port].session == session && tunnels[port].name == name),
        without_named(tunnels, session, name).contains_key(port) ==> without_named(
            tunnels,
            session,
            name,
        )[port] == tunnels[port],
        ports.contains(port) <==> tunnels.contains_key(port) && tunnels[port].session == session
            && tunnels[port].name == name,
        ports.no_duplicates(),
{
    assert(ports.contains(port) <==> tunnels.contains_key(port) && is_named(
        tunnels[port],
        session,
        name,
    ));
}

/// A token stops waiting when the public port of its tunnel is freed by the session that holds it,
/// and not otherwise.
pub proof fn law_freed_ports_end_tokens(
    udp: Map<u128, PendingUdp>,
    session: u128,
    ports: Seq<u16>,
    token: u128,
)
    ensures
        without_udp(udp, session, ports).contains_key(token) <==> udp.contains_key(token) && !(
        udp[token].session == session && ports.contains(udp[token].port)),
        without_udp(udp, session, ports).contains_key(token) ==> without_udp(
            udp,
            session,
            ports,
        )[token] == udp[token],
{
}

/// The ports that a session keeps are those that were not removed, in their order.
pub proof fn law_kept_ports(ports: Seq<u16>, removed: Seq<u16>)
    ensures
        kept_ports(ports, removed) == ports.filter(|port: u16| !removed.contains(port)),
    decreases ports.len(),
{
    reveal(Seq::filter);
    let keep = |port: u16| !removed.contains(port);
    if ports.len() > 0 {
        law_kept_ports(ports.drop_last(), removed);
    }
    assert(kept_ports(ports, removed) =~= ports.filter(keep));
}

/// When a session ends, the ports and the tokens that it remembers are free, and nothing else is.
pub proof fn law_cleanup_frees_remembered(
    s: ServerState,
    ports: Seq<u16>,
    tokens: Seq<u128>,
    port: u16,
    token: u128,
)
    ensures
        without_list(s.tunnels, ports).contains_key(port) <==> s.tunnels.contains_key(port)
            && !ports.contains(port),
        without_list(s.tunnels, ports).contains_key(port) ==> without_list(s.tunnels, ports)[port]
            == s.tunnels[port],
        without_tokens(s.udp_pending, tokens).contains_key(token) <==> s.udp_pending.contains_key(
            token,
        ) && !tokens.contains(token),
        without_tokens(s.udp_pending, tokens).contains_key(token) ==> without_tokens(
            s.udp_pending,
            tokens,
        )[token] == s.udp_pending[token],
{
}

/// When a session ends nothing of it is left: its public ports are free, its tokens are good for
/// nothing, and the ports that it held are told. The tunnels of other sessions stay as they are.
pub proof fn law_session_leaves_nothing(
    s: ServerState,
    session: u128,
    ports: Seq<u16>,
    tokens: Seq<u128>,
    after: ServerState,
    freed: Seq<u16>,
    port: u16,
    token: u128,
)
    requires
        owns(s, session, ports),
        ends_session(s, ports, tokens, after, freed),
    ensures
        after.tunnels.contains_key(port) <==> s.tunnels.contains_key(port)
            && s.tunnels[port].session != session,
        after.tunnels.contains_key(port) ==> after.tunnels[port] == s.tunnels[port],
        freed.contains(port) <==> s.tunnels.contains_key(port) && s.tunnels[port].session
            == session,
        tokens.contains(token) ==> !after.udp_pending.contains_key(token),
        !tokens.contains(token) ==> (after.udp_pending.contains_key(token)
            <==> s.udp_pending.contains_key(token)),
        after.pending == s.pending,
        after.secret == s.secret,
        after.min_port == s.min_port,
        after.max_port == s.max_port,
{
}

/// What a refused range is told is so: that there are too many ports, which block was asked for and
/// how the relay's range differs, which port of the block is taken first, or that there is no such
/// block.
pub proof fn law_range_refused_for_cause(
    p: Ports,
    count: nat,
    remote_port: Option<u16>,
    e: AllocError,
)
    requires
        count > 1,
        contiguous_ports(p, count, remote_port, Err::<Seq<u16>, _>(e)),
    ensures
        match e {
            AllocError::BlockTooLarge => count > 65_535,
            AllocError::BlockLargerThanRange => count > p.max_port,
            AllocError::BlockEndTooLarge { start } => remote_port == Some(start) && start + count
                > 65_536,
            AllocError::BlockOutsideRange { start, end, min_port, max_port } => {
                &&& remote_port == Some(start)
                &&& end == start + count - 1
                &&& min_port == p.min_port
                &&& max_port == p.max_port
                &&& start < min_port || end > max_port
            },
            AllocError::BlockFragmented { start, end, occupied } => {
                &&& remote_port == Some(start)
                &&& end == start + count - 1
                &&& start <= occupied <= end
                &&& p.taken.contains(occupied)
                &&& forall|port: u16|
                    start <= port < occupied ==> !#[trigger] p.taken.contains(port)
            },
            AllocError::NoBlock { count: n, min_port, max_port } => {
                &&& remote_port is None
                &&& n == count
                &&& min_port == p.min_port
                &&& max_port == p.max_port
                &&& forall|start: u16|
                    min_port <= start && start + count - 1 <= max_port ==> !(#[trigger] p.block_free(
                        start as int,
                        count as int,
                    ))
            },
            _ => false,
        },
{
    if remote_port is Some && count <= u16::MAX && count - 1 <= p.max_port {
        let start = remote_port->0;
        let end = start + count - 1;
        if end <= u16::MAX && p.min_port <= start && end <= p.max_port {
            assert(!p.block_free(start as int, count as int));
            let occupied = choose|occupied: u16|
                {
                    &&& #[trigger] p.taken.contains(occupied)
                    &&& start <= occupied <= end
                    &&& p.block_free(start as int, occupied - start)
                    &&& e == (AllocError::BlockFragmented { start, end: end as u16, occupied })
                };
            assert(p.block_free(start as int, occupied - start));
        }
    }
}

/// What a refused list, or a single port, is told is so: the port that was asked for and why it
/// cannot be had, or how many ports there are and how many it takes.
pub proof fn law_list_refused_for_cause(
    p: Ports,
    count: nat,
    remote_port: Option<u16>,
    e: AllocError,
)
    requires
        0 < count <= 2048,
        sparse_ports(p, count, remote_port) == Err::<Seq<u16>, _>(e),
    ensures
        match e {
            AllocError::PortOutsideRange { port, min_port, max_port } => {
                &&& remote_port == Some(port)
                &&& min_port == p.min_port
                &&& max_port == p.max_port
                &&& !(min_port <= port <= max_port)
            },
            AllocError::PortAllocated { port } => remote_port == Some(port) && p.taken.contains(
                port,
            ) && p.min_port <= port <= p.max_port,
            AllocError::NotEnoughPorts { available, required } => {
                &&& required == count
                &&& available < required
                &&& remote_port is None ==> available == p.scan(p.min_port as int, count).len()
            },
            _ => false,
        },
{
    lemma_scan_len(p, p.min_port as int, count);
    if let Some(first) = remote_port {
        lemma_scan_len(p, first + 1, (count - 1) as nat);
    }
}

proof fn lemma_scan_len(p: Ports, cursor: int, need: nat)
    ensures
        p.scan(cursor, need).len() <= need,
    decreases p.max_port + 1 - cursor,
{
    if need > 0 && 0 <= cursor <= p.max_port {
        if p.taken.contains(cursor as u16) {
            lemma_scan_len(p, cursor + 1, need);
        } else {
            lemma_scan_len(p, cursor + 1, (need - 1) as nat);
        }
    }
}

/// What a refusal says names the ports that it is about.
pub proof fn law_refusals_name_ports(
    port: u16,
    other: u16,
    min_port: u16,
    max_port: u16,
    count: u16,
    available: usize,
    required: usize,
    failure: BindFailure,
)
    ensures
        (AllocError::PortAllocated { port }).text() == "requested public port "@ + dec(port as nat)
            + " is already allocated"@,
        (AllocError::PortOutsideRange { port, min_port, max_port }).text() == "port "@ + dec(
            port as nat,
        ) + " is outside the allowed range "@ + dec(min_port as nat) + "-"@ + dec(max_port as nat),
        (AllocError::BlockOutsideRange { start: port, end: other, min_port, max_port }).text()
            == "public port block "@ + dec(port as nat) + "-"@ + dec(other as nat)
            + " is outside the allowed range "@ + dec(min_port as nat) + "-"@ + dec(max_port as nat),
        (AllocError::NoBlock { count, min_port, max_port }).text()
            == "no contiguous public block of "@ + dec(count as nat) + " ports is available in "@
            + dec(min_port as nat) + "-"@ + dec(max_port as nat),
        (AllocError::NotEnoughPorts { available, required }).text() == "only "@ + dec(
            available as nat,
        ) + " free public ports are available after allocation constraints; "@ + dec(
            required as nat,
        ) + " required"@,
        failure.udp ==> bind_failure_text(port, failure) == "binding udp public port "@ + dec(
            port as nat,
        ) + " failed: "@ + failure.error@,
        !failure.udp ==> bind_failure_text(port, failure) == "binding tcp public port "@ + dec(
            port as nat,
        ) + " failed: "@ + failure.error@,
{
}

}
