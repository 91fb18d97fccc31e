//! Tunnel client: which tunnels are registered when, what the messages of the server change, and
//! what the local commands write back to the config.

use crate::addr::SocketAddr;
use crate::config::{
    clone_option, pick_option, pick_text, replace_port, ClientFile, ClientSettings, ProxyProtocol,
    ServerSettings, TunnelConfig,
};
use crate::config::{
    either_text, first_text, law_split_last_colon, option_view, parsed_local_ports, pool_view,
    pool_wf, pools_wf, split_last_colon, tunnel_views, with_port, LogMode, TunnelView,
};
use crate::crypto::base64url;
use crate::invite::invites;
use crate::invite::ConnectionInfo;
use crate::maps::{insert_status, list_names, new_status, remove_status};
use crate::maps::{lists_names, status_map};
use crate::names::sort_names;
use crate::names::{among, precedes};
use crate::protocol::decode_udp_auth_key;
use crate::protocol::{law_auth_key_roundtrip, parsed_auth_key};
use crate::protocol::{
    AcceptedBinding, ClientMessage, Proto, ProtocolError, ServerMessage, DEFAULT_UDP_MTU,
    DEFAULT_WEB_BIND,
};
use crate::proxy::header;
use crate::proxy::proxy_header;
use crate::server::routes::{
    answers_new_conn, control_step, data_route, is_new_conn, law_control_frames,
    law_dialed_conn_is_spliced, plain_route, refuses_auth, tls_route, welcome_of, with_conn,
};
use crate::server::routes::{ControlStep, DataRoute, PlainRoute, TlsRoute, UserConn};
use crate::server::{
    accepted_binding, fresh_server, is_acceptance, law_request_gets_its_ports, start_of,
};
use crate::server::{
    AcceptedView, Grant, RegisterRequest, Registration, RegistrationView, ServerState, Start,
    UdpStart,
};
use crate::source_pool::UdpSourcePool;
use crate::text::{chars_of, endpoint_string, last_index_of, str_eq, string_of};
use crate::text::{dec, endpoint_text};
use crate::udp_client::counted;
use crate::udp_client::{Counters, PlainUdpSettings};
use dashmap::DashMap;
use std::collections::hash_map::RandomState;
use vstd::prelude::*;
use vstd::slice::slice_subrange;

verus! {

// ---------------------------------------------------------------------------
// Status of a tunnel
// ---------------------------------------------------------------------------

/// One public port of a tunnel.
#[derive(Debug)]
pub struct TunnelBinding {
    pub local_port: u16,
    pub remote_port: u16,
    /// The public endpoint.
    pub public: String,
}

/// Live status for one tunnel (shared with the web UI).
pub struct TunnelStatus {
    pub proto: Proto,
    pub local_addr: SocketAddr,
    pub remote_port: Option<u16>,
    pub local_ports: Option<String>,
    pub encrypted: bool,
    pub udp_mtu: Option<u16>,
    pub udp_source_pool: Option<UdpSourcePool>,
    pub proxy_protocol: ProxyProtocol,
    pub enabled: bool,
    pub public_addr: Option<String>,
    pub bindings: Vec<TunnelBinding>,
    pub up: bool,
    /// Last rejection reason from the server, if any (shown in the web UI).
    pub error: Option<String>,
    pub counters: Counters,
}

/// One public port of a tunnel.
#[verifier::ext_equal]
pub struct BindingView {
    pub local_port: u16,
    pub remote_port: u16,
    pub public: Seq<char>,
}

impl View for TunnelBinding {
    type V = BindingView;

    open spec fn view(&self) -> BindingView {
        BindingView {
            local_port: self.local_port,
            remote_port: self.remote_port,
            public: self.public@,
        }
    }
}

/// The contents of a status.
#[verifier::ext_equal]
pub struct StatusView {
    pub proto: Proto,
    pub local_addr: SocketAddr,
    pub remote_port: Option<u16>,
    pub local_ports: Option<Seq<char>>,
    pub encrypted: bool,
    pub udp_mtu: Option<u16>,
    pub udp_source_pool: Option<(u32, u8)>,
    pub proxy_protocol: ProxyProtocol,
    pub enabled: bool,
    pub public_addr: Option<Seq<char>>,
    pub bindings: Seq<BindingView>,
    pub up: bool,
    pub error: Option<Seq<char>>,
    pub counters: Counters,
}

/// The contents of bindings.
pub open spec fn binding_views(bindings: Seq<TunnelBinding>) -> Seq<BindingView> {
    Seq::new(bindings.len(), |i: int| bindings[i]@)
}

impl View for TunnelStatus {
    type V = StatusView;

    open spec fn view(&self) -> StatusView {
        StatusView {
            proto: self.proto,
            local_addr: self.local_addr,
            remote_port: self.remote_port,
            local_ports: option_view(self.local_ports),
            encrypted: self.encrypted,
            udp_mtu: self.udp_mtu,
            udp_source_pool: pool_view(self.udp_source_pool),
            proxy_protocol: self.proxy_protocol,
            enabled: self.enabled,
            public_addr: option_view(self.public_addr),
            bindings: binding_views(self.bindings@),
            up: self.up,
            error: option_view(self.error),
            counters: self.counters,
        }
    }
}

/// The status of a tunnel that was not registered yet.
pub open spec fn fresh_status(t: TunnelView) -> StatusView {
    StatusView {
        proto: t.protocol,
        local_addr: t.local_addr,
        remote_port: t.remote_port,
        local_ports: t.local_ports,
        encrypted: t.encrypted,
        udp_mtu: t.udp_mtu,
        udp_source_pool: t.udp_source_pool,
        proxy_protocol: t.proxy_protocol,
        enabled: t.enabled,
        public_addr: None,
        bindings: Seq::empty(),
        up: false,
        error: None,
        counters: Counters { bytes_in: 0, bytes_out: 0, active: 0 },
    }
}

/// The status of a tunnel that was not registered yet.
pub fn status_from(t: &TunnelConfig) -> (r: TunnelStatus)
    ensures
        r@ == fresh_status(t@),
        r.udp_source_pool == t.udp_source_pool,
{
    let r = TunnelStatus {
        proto: t.protocol,
        local_addr: t.local_addr,
        remote_port: t.remote_port,
        local_ports: clone_option(&t.local_ports),
        encrypted: t.encrypted,
        udp_mtu: t.udp_mtu,
        udp_source_pool: t.udp_source_pool,
        proxy_protocol: t.proxy_protocol,
        enabled: t.enabled,
        public_addr: None,
        bindings: Vec::new(),
        up: false,
        error: None,
        counters: Counters::default(),
    };
    assert(r@ =~= fresh_status(t@));
    r
}

// ---------------------------------------------------------------------------
// Messages
// ---------------------------------------------------------------------------

/// The contents of a message to the server.
#[allow(inconsistent_fields)]
#[verifier::ext_equal]
pub enum MessageView {
    Hello { token: Seq<char> },
    DataHello { token: Option<Seq<char>>, id: u128, data_auth: Option<Seq<char>> },
    Register {
        name: Seq<char>,
        proto: Proto,
        remote_port: Option<u16>,
        local_ports: Option<Seq<char>>,
        encrypted: bool,
        udp_mtu: Option<u16>,
    },
    Unregister { name: Seq<char> },
    Heartbeat,
}

impl View for ClientMessage {
    type V = MessageView;

    open spec fn view(&self) -> MessageView {
        match self {
            ClientMessage::Hello { token } => MessageView::Hello { token: token@ },
            ClientMessage::DataHello { token, id, data_auth } => MessageView::DataHello {
                token: option_view(*token),
                id: *id,
                data_auth: option_view(*data_auth),
            },
            ClientMessage::Register {
                name,
                proto,
                remote_port,
                local_ports,
                encrypted,
                udp_mtu,
            } => MessageView::Register {
                name: name@,
                proto: *proto,
                remote_port: *remote_port,
                local_ports: option_view(*local_ports),
                encrypted: *encrypted,
                udp_mtu: *udp_mtu,
            },
            ClientMessage::Unregister { name } => MessageView::Unregister { name: name@ },
            ClientMessage::Heartbeat => MessageView::Heartbeat,
        }
    }
}

/// The contents of messages.
pub open spec fn message_views(messages: Seq<ClientMessage>) -> Seq<MessageView> {
    Seq::new(messages.len(), |i: int| messages[i]@)
}

/// The request to register a tunnel.
pub open spec fn registration(t: TunnelView) -> MessageView {
    MessageView::Register {
        name: t.name,
        proto: t.protocol,
        remote_port: t.remote_port,
        local_ports: t.local_ports,
        encrypted: t.encrypted,
        udp_mtu: t.udp_mtu,
    }
}

fn register_message(t: &TunnelConfig) -> (r: ClientMessage)
    ensures
        r@ == registration(t@),
{
    ClientMessage::Register {
        name: t.name.clone(),
        proto: t.protocol,
        remote_port: t.remote_port,
        local_ports: clone_option(&t.local_ports),
        encrypted: t.encrypted,
        udp_mtu: t.udp_mtu,
    }
}

/// The requests to register the tunnels that are enabled, in order.
pub open spec fn registrations(tunnels: Seq<TunnelView>) -> Seq<MessageView>
    decreases tunnels.len(),
{
    if tunnels.len() == 0 {
        Seq::empty()
    } else {
        let front = registrations(tunnels.drop_last());
        if tunnels.last().enabled {
            front.push(registration(tunnels.last()))
        } else {
            front
        }
    }
}

/// The requests to remove the tunnels that are enabled, in order.
pub open spec fn removals(tunnels: Seq<TunnelView>) -> Seq<MessageView>
    decreases tunnels.len(),
{
    if tunnels.len() == 0 {
        Seq::empty()
    } else {
        let front = removals(tunnels.drop_last());
        if tunnels.last().enabled {
            front.push(MessageView::Unregister { name: tunnels.last().name })
        } else {
            front
        }
    }
}

// ---------------------------------------------------------------------------
// Client state
// ---------------------------------------------------------------------------

/// The contents of a config file.
#[verifier::ext_equal]
pub struct FileView {
    pub server_addr: Option<Seq<char>>,
    pub server_fingerprint: Option<Seq<char>>,
    pub web_bind: Option<Seq<char>>,
    pub public_addr: Option<Seq<char>>,
    pub tunnels_paused: bool,
    pub secret: Option<Seq<char>>,
    pub log_mode: LogMode,
    pub log_level: Seq<char>,
    pub log_directory: Seq<char>,
    pub log_max_files: usize,
    pub tunnels: Seq<TunnelView>,
}

impl View for ClientFile {
    type V = FileView;

    open spec fn view(&self) -> FileView {
        FileView {
            server_addr: option_view(self.server_addr),
            server_fingerprint: option_view(self.server_fingerprint),
            web_bind: option_view(self.web_bind),
            public_addr: option_view(self.public_addr),
            tunnels_paused: self.tunnels_paused,
            secret: option_view(self.secret),
            log_mode: self.logging.mode,
            log_level: self.logging.level@,
            log_directory: self.logging.directory@,
            log_max_files: self.logging.max_files,
            tunnels: tunnel_views(self.tunnels@),
        }
    }
}

/// The state of a client.
#[verifier::ext_equal]
pub struct ClientState {
    pub server_addr: Seq<char>,
    pub secret: Seq<char>,
    /// Public host shown for tunnel endpoints.
    pub public_addr: Option<Seq<char>>,
    /// What is written back to disk.
    pub file: FileView,
    /// The tunnels, by name.
    pub status: Map<Seq<char>, StatusView>,
    pub connected: bool,
    /// Allowed public-port range advertised by the server (0 = not yet known).
    pub min_port: u16,
    pub max_port: u16,
}

spec fn status_entries(m: Map<Seq<char>, TunnelStatus>) -> Map<Seq<char>, StatusView> {
    Map::new(|name: Seq<char>| m.contains_key(name), |name: Seq<char>| m[name]@)
}

spec fn status_pools_wf(m: Map<Seq<char>, TunnelStatus>) -> bool {
    forall|name: Seq<char>| #[trigger]
        m.contains_key(name) ==> pool_wf(m[name].udp_source_pool)
}

/// The tunnel client.
pub struct Client {
    server_addr: String,
    secret: String,
    public_addr: Option<String>,
    file: ClientFile,
    status: DashMap<String, TunnelStatus, RandomState>,
    connected: bool,
    min_port: u16,
    max_port: u16,
}

impl View for Client {
    type V = ClientState;

    closed spec fn view(&self) -> ClientState {
        ClientState {
            server_addr: self.server_addr@,
            secret: self.secret@,
            public_addr: option_view(self.public_addr),
            file: self.file@,
            status: status_entries(status_map(self.status)),
            connected: self.connected,
            min_port: self.min_port,
            max_port: self.max_port,
        }
    }
}

/// The statuses with that of a tunnel: one that is there keeps everything but whether it is
/// enabled.
pub open spec fn with_status(status: Map<Seq<char>, StatusView>, t: TunnelView) -> Map<
    Seq<char>,
    StatusView,
> {
    if status.contains_key(t.name) {
        status.insert(t.name, StatusView { enabled: t.enabled, ..status[t.name] })
    } else {
        status.insert(t.name, fresh_status(t))
    }
}

/// The statuses with those of the enabled tunnels.
pub open spec fn with_enabled_status(
    status: Map<Seq<char>, StatusView>,
    tunnels: Seq<TunnelView>,
) -> Map<Seq<char>, StatusView>
    decreases tunnels.len(),
{
    if tunnels.len() == 0 {
        status
    } else {
        let front = with_enabled_status(status, tunnels.drop_last());
        if tunnels.last().enabled {
            with_status(front, tunnels.last())
        } else {
            front
        }
    }
}

/// The statuses of a client that starts with the given tunnels.
pub open spec fn initial_status(tunnels: Seq<TunnelView>) -> Map<Seq<char>, StatusView>
    decreases tunnels.len(),
{
    if tunnels.len() == 0 {
        Map::empty()
    } else {
        initial_status(tunnels.drop_last()).insert(
            tunnels.last().name,
            fresh_status(tunnels.last()),
        )
    }
}

/// A client that is not connected yet.
pub open spec fn fresh_client(settings: ClientSettings) -> ClientState {
    ClientState {
        server_addr: settings.server_addr@,
        secret: settings.secret@,
        public_addr: option_view(settings.public_addr),
        file: settings.file@,
        status: initial_status(settings.file@.tunnels),
        connected: false,
        min_port: 0,
        max_port: 0,
    }
}

/// The statuses with every tunnel down.
pub open spec fn all_down(status: Map<Seq<char>, StatusView>) -> Map<Seq<char>, StatusView> {
    Map::new(
        |name: Seq<char>| status.contains_key(name),
        |name: Seq<char>| StatusView { up: false, ..status[name] },
    )
}

/// The statuses with a tunnel down.
pub open spec fn one_down(status: Map<Seq<char>, StatusView>, name: Seq<char>) -> Map<
    Seq<char>,
    StatusView,
> {
    if status.contains_key(name) {
        status.insert(name, StatusView { up: false, ..status[name] })
    } else {
        status
    }
}

impl Client {
    /// Whether every source pool is one.
    pub closed spec fn wf(&self) -> bool {
        pools_wf(self.file.tunnels@) && status_pools_wf(status_map(self.status))
    }

    /// A client that is not connected yet.
    pub fn new(settings: ClientSettings) -> (r: Client)
        requires
            pools_wf(settings.file.tunnels@),
        ensures
            r.wf(),
            r@ == fresh_client(settings),
    {
        let file = settings.file;
        let ghost tunnels = tunnel_views(file.tunnels@);
        let mut status = new_status();
        let mut i: usize = 0;
        proof {
            assert(tunnels.take(0) =~= Seq::empty());
            assert(status_entries(status_map(status)) =~= initial_status(tunnels.take(0)));
        }
        while i < file.tunnels.len()
            invariant
                i <= file.tunnels@.len(),
                pools_wf(file.tunnels@),
                tunnels == tunnel_views(file.tunnels@),
                status_pools_wf(status_map(status)),
                status_entries(status_map(status)) == initial_status(tunnels.take(i as int)),
            decreases file.tunnels@.len() - i,
        {
            let t = &file.tunnels[i];
            let ghost before = status_map(status);
            let fresh = status_from(t);
            let ghost view = fresh@;
            insert_status(&mut status, t.name.clone(), fresh);
            i += 1;
            proof {
                let now = tunnels.take(i as int);
                assert(now.drop_last() =~= tunnels.take(i as int - 1));
                assert(now.last() == t@);
                assert(status_entries(status_map(status)) =~= status_entries(before).insert(
                    t@.name,
                    view,
                ));
            }
        }
        assert(tunnels.take(i as int) =~= tunnels);
        Client {
            server_addr: settings.server_addr,
            secret: settings.secret,
            public_addr: settings.public_addr,
            file,
            status,
            connected: false,
            min_port: 0,
            max_port: 0,
        }
    }

    /// What is written back to disk.
    pub fn file(&self) -> (r: &ClientFile)
        ensures
            r@ == self@.file,
    {
        &self.file
    }

    /// The status of a tunnel is there from now on.
    fn ensure_status(&mut self, t: &TunnelConfig)
        requires
            old(self).wf(),
            pool_wf(t.udp_source_pool),
        ensures
            final(self).wf(),
            final(self)@ == (ClientState {
                status: with_status(old(self)@.status, t@),
                ..old(self)@
            }),
            final(self).file == old(self).file,
    {
        let ghost before = status_map(self.status);
        let ghost state = self@;
        let status = match remove_status(&mut self.status, &t.name) {
            Some(s) => {
                let mut s = s;
                s.enabled = t.enabled;
                s
            },
            None => status_from(t),
        };
        insert_status(&mut self.status, t.name.clone(), status);
        proof {
            assert(status_entries(status_map(self.status)) =~= with_status(state.status, t@));
        }
    }

    /// A tunnel is down from now on.
    fn set_down(&mut self, name: &str)
        requires
            old(self).wf(),
        ensures
            final(self).wf(),
            final(self)@ == (ClientState {
                status: one_down(old(self)@.status, name@),
                ..old(self)@
            }),
            final(self).file == old(self).file,
    {
        let ghost state = self@;
        match remove_status(&mut self.status, name) {
            Some(s) => {
                let mut s = s;
                s.up = false;
                insert_status(&mut self.status, name.to_string(), s);
                assert(status_entries(status_map(self.status)) =~= one_down(state.status, name@));
            },
            None => {
                assert(status_entries(status_map(self.status)) =~= state.status);
            },
        }
    }

    /// Every tunnel is down from now on.
    fn set_all_down(&mut self)
        requires
            old(self).wf(),
        ensures
            final(self).wf(),
            final(self)@ == (ClientState { status: all_down(old(self)@.status), ..old(self)@ }),
            final(self).file == old(self).file,
    {
        let names = list_names(&self.status);
        let ghost state = self@;
        let ghost m = status_map(self.status);
        let mut i: usize = 0;
        while i < names.len()
            invariant
                i <= names@.len(),
                lists_names(m, names@),
                state.status == status_entries(m),
                self.wf(),
                self.file == old(self).file,
                self@ == (ClientState { status: self@.status, ..state }),
                forall|name: Seq<char>| #[trigger]
                    self@.status.contains_key(name) <==> state.status.contains_key(name),
                forall|j: int|
                    #![trigger names@[j]]
                    0 <= j < i ==> self@.status[names@[j]@] == (StatusView {
                        up: false,
                        ..state.status[names@[j]@]
                    }),
                forall|j: int|
                    #![trigger names@[j]]
                    i <= j < names@.len() ==> self@.status[names@[j]@] == state.status[names@[j]@],
            decreases names@.len() - i,
        {
            self.set_down(&names[i]);
            i += 1;
        }
        proof {
            assert forall|name: Seq<char>| #[trigger] state.status.contains_key(name) implies
                self@.status[name] == all_down(state.status)[name] by {
                assert(m.contains_key(name));
                let j = choose|j: int| 0 <= j < names@.len() && (#[trigger] names@[j])@ == name;
                assert(self@.status[names@[j]@] == (StatusView {
                    up: false,
                    ..state.status[names@[j]@]
                }));
            }
            assert(self@.status =~= all_down(state.status));
        }
    }
}

// ---------------------------------------------------------------------------
// Commands (the single owner of config write-back)
// ---------------------------------------------------------------------------

/// Mutations requested by the web UI.
pub enum Command {
    Add(TunnelConfig),
    Remove(String),
    SetEnabled(String, bool),
    /// Hold back all tunnels, or let go.
    SetPaused(bool),
}

/// The tunnels without those of a name.
pub open spec fn without_name(tunnels: Seq<TunnelView>, name: Seq<char>) -> Seq<TunnelView>
    decreases tunnels.len(),
{
    if tunnels.len() == 0 {
        Seq::empty()
    } else {
        let front = without_name(tunnels.drop_last(), name);
        if tunnels.last().name == name {
            front
        } else {
            front.push(tunnels.last())
        }
    }
}

/// The first tunnel with a name.
pub open spec fn first_named(tunnels: Seq<TunnelView>, name: Seq<char>) -> Option<int>
    decreases tunnels.len(),
{
    if tunnels.len() == 0 {
        None
    } else {
        match first_named(tunnels.drop_last(), name) {
            Some(i) => Some(i),
            None => if tunnels.last().name == name {
                Some(tunnels.len() - 1)
            } else {
                None
            },
        }
    }
}

/// The tunnels with the first one of a name enabled, or disabled.
pub open spec fn with_enabled(tunnels: Seq<TunnelView>, name: Seq<char>, enabled: bool) -> Seq<
    TunnelView,
> {
    match first_named(tunnels, name) {
        Some(i) => tunnels.update(i, TunnelView { enabled, ..tunnels[i] }),
        None => tunnels,
    }
}

/// The state with other tunnels in the config file.
pub open spec fn with_tunnels(s: ClientState, tunnels: Seq<TunnelView>) -> ClientState {
    ClientState { file: FileView { tunnels, ..s.file }, ..s }
}

/// The state after a command.
pub open spec fn after_command(s: ClientState, command: Command) -> ClientState {
    match command {
        Command::Add(t) => ClientState {
            status: with_status(s.status, t@),
            ..with_tunnels(s, without_name(s.file.tunnels, t@.name).push(t@))
        },
        Command::Remove(name) => ClientState {
            status: s.status.remove(name@),
            ..with_tunnels(s, without_name(s.file.tunnels, name@))
        },
        Command::SetEnabled(name, enabled) => {
            let tunnels = with_enabled(s.file.tunnels, name@, enabled);
            match first_named(s.file.tunnels, name@) {
                None => s,
                Some(i) => ClientState {
                    status: if enabled {
                        with_status(s.status, tunnels[i])
                    } else {
                        one_down(with_status(s.status, tunnels[i]), name@)
                    },
                    ..with_tunnels(s, tunnels)
                },
            }
        },
        Command::SetPaused(paused) => if paused == s.file.tunnels_paused {
            s
        } else {
            ClientState {
                file: FileView { tunnels_paused: paused, ..s.file },
                status: if paused {
                    all_down(s.status)
                } else {
                    with_enabled_status(s.status, s.file.tunnels)
                },
                ..s
            }
        },
    }
}

/// What a command sends to the server, if there is a connection.
pub open spec fn command_messages(s: ClientState, command: Command) -> Seq<MessageView> {
    match command {
        Command::Add(t) => if t@.enabled && !s.file.tunnels_paused {
            seq![registration(t@)]
        } else {
            Seq::empty()
        },
        Command::Remove(name) => seq![MessageView::Unregister { name: name@ }],
        Command::SetEnabled(name, enabled) => match first_named(s.file.tunnels, name@) {
            None => Seq::empty(),
            Some(i) => if !enabled {
                seq![MessageView::Unregister { name: name@ }]
            } else if s.file.tunnels_paused {
                Seq::empty()
            } else {
                seq![registration(TunnelView { enabled, ..s.file.tunnels[i] })]
            },
        },
        Command::SetPaused(paused) => if paused == s.file.tunnels_paused {
            Seq::empty()
        } else if paused {
            removals(s.file.tunnels)
        } else {
            registrations(s.file.tunnels)
        },
    }
}

/// While tunnels are paused no command registers one.
pub proof fn law_paused_registers_nothing(s: ClientState, command: Command, i: int)
    requires
        after_command(s, command).file.tunnels_paused,
        0 <= i < command_messages(s, command).len(),
    ensures
        !(command_messages(s, command)[i] is Register),
{
    if command is SetPaused {
        lemma_removals(s.file.tunnels, i);
    }
}

proof fn lemma_removals(tunnels: Seq<TunnelView>, i: int)
    requires
        0 <= i < removals(tunnels).len(),
    ensures
        removals(tunnels)[i] is Unregister,
    decreases tunnels.len(),
{
    if tunnels.len() > 0 {
        if i < removals(tunnels.drop_last()).len() {
            lemma_removals(tunnels.drop_last(), i);
        }
    }
}

/// Pausing and unpausing leaves the tunnels as they are, enabled or not, and unpausing registers
/// exactly those that are enabled.
pub proof fn law_unpause_restores_enabled(s: ClientState)
    requires
        !s.file.tunnels_paused,
    ensures
        ({
            let held = after_command(s, Command::SetPaused(true));
            let back = after_command(held, Command::SetPaused(false));
            &&& held.file == (FileView { tunnels_paused: true, ..s.file })
            &&& back.file == s.file
            &&& command_messages(held, Command::SetPaused(false)) == registrations(s.file.tunnels)
        }),
{
}

/// A tunnel is among the registrations of a list exactly if it is enabled.
pub proof fn law_registrations_are_enabled(tunnels: Seq<TunnelView>, message: MessageView)
    ensures
        registrations(tunnels).contains(message) <==> exists|i: int|
            0 <= i < tunnels.len() && (#[trigger] tunnels[i]).enabled && registration(tunnels[i])
                == message,
    decreases tunnels.len(),
{
    let all = registrations(tunnels);
    if tunnels.len() > 0 {
        let front = tunnels.drop_last();
        law_registrations_are_enabled(front, message);
        let last = tunnels.last();
        assert(tunnels[tunnels.len() - 1] == last);
        if registrations(front).contains(message) {
            let k = choose|k: int|
                0 <= k < registrations(front).len() && registrations(front)[k] == message;
            assert(all[k] == message);
            let i = choose|i: int|
                0 <= i < front.len() && (#[trigger] front[i]).enabled && registration(front[i])
                    == message;
            assert(tunnels[i] == front[i]);
        }
        if all.contains(message) {
            let k = choose|k: int| 0 <= k < all.len() && all[k] == message;
            if k < registrations(front).len() {
                assert(registrations(front)[k] == message);
            }
        }
        if exists|i: int|
            0 <= i < tunnels.len() && (#[trigger] tunnels[i]).enabled && registration(tunnels[i])
                == message {
            let i = choose|i: int|
                0 <= i < tunnels.len() && (#[trigger] tunnels[i]).enabled && registration(
                    tunnels[i],
                ) == message;
            if i < front.len() {
                assert(front[i] == tunnels[i]);
            } else {
                assert(all.last() == message);
            }
        }
    }
}

/// A tunnel that was added is there once, and a tunnel that was removed is there no more.
pub proof fn law_added_once_removed_gone(s: ClientState, t: TunnelConfig, name: String)
    ensures
        ({
            let added = after_command(s, Command::Add(t)).file.tunnels;
            &&& added.last() == t@
            &&& forall|i: int|
                0 <= i < added.len() - 1 ==> (#[trigger] added[i]).name != t@.name
        }),
        ({
            let left = after_command(s, Command::Remove(name)).file.tunnels;
            forall|i: int| 0 <= i < left.len() ==> (#[trigger] left[i]).name != name@
        }),
{
    lemma_without_name(s.file.tunnels, t@.name);
    lemma_without_name(s.file.tunnels, name@);
}

proof fn lemma_without_name(tunnels: Seq<TunnelView>, name: Seq<char>)
    ensures
        forall|i: int|
            0 <= i < without_name(tunnels, name).len() ==> (#[trigger] without_name(
                tunnels,
                name,
            )[i]).name != name,
    decreases tunnels.len(),
{
    if tunnels.len() > 0 {
        lemma_without_name(tunnels.drop_last(), name);
    }
}

proof fn lemma_first_named(tunnels: Seq<TunnelView>, name: Seq<char>)
    ensures
        match first_named(tunnels, name) {
            Some(i) => 0 <= i < tunnels.len() && tunnels[i].name == name && forall|j: int|
                0 <= j < i ==> (#[trigger] tunnels[j]).name != name,
            None => forall|j: int| 0 <= j < tunnels.len() ==> (#[trigger] tunnels[j]).name != name,
        },
    decreases tunnels.len(),
{
    if tunnels.len() > 0 {
        let front = tunnels.drop_last();
        lemma_first_named(front, name);
        match first_named(front, name) {
            Some(i) => {
                assert(tunnels[i] == front[i]);
                assert forall|j: int| 0 <= j < i implies (#[trigger] tunnels[j]).name != name by {
                    assert(front[j] == tunnels[j]);
                }
            },
            None => {
                assert forall|j: int| 0 <= j < front.len() implies (#[trigger] tunnels[j]).name
                    != name by {
                    assert(front[j] == tunnels[j]);
                }
            },
        }
    }
}

/// The first tunnel of a name is the only candidate.
proof fn lemma_first_named_is(tunnels: Seq<TunnelView>, name: Seq<char>, i: int)
    requires
        0 <= i < tunnels.len(),
        tunnels[i].name == name,
        forall|j: int| 0 <= j < i ==> (#[trigger] tunnels[j]).name != name,
    ensures
        first_named(tunnels, name) == Some(i),
{
    lemma_first_named(tunnels, name);
    match first_named(tunnels, name) {
        Some(k) => {
            assert(tunnels[k].name == name);
            if i < k {
                assert(tunnels[i].name != name);
            }
        },
        None => {
            assert(tunnels[i].name != name);
        },
    }
}

/// The position of the first tunnel with a name.
fn find_tunnel(tunnels: &Vec<TunnelConfig>, name: &str) -> (r: Option<usize>)
    ensures
        match r {
            Some(i) => i < tunnels@.len() && first_named(tunnel_views(tunnels@), name@) == Some(
                i as int,
            ),
            None => first_named(tunnel_views(tunnels@), name@) is None,
        },
{
    let mut i: usize = 0;
    let ghost views = tunnel_views(tunnels@);
    while i < tunnels.len()
        invariant
            i <= tunnels@.len(),
            views == tunnel_views(tunnels@),
            forall|j: int| 0 <= j < i ==> (#[trigger] views[j]).name != name@,
        decreases tunnels@.len() - i,
    {
        if str_eq(&tunnels[i].name, name) {
            proof {
                lemma_first_named_is(views, name@, i as int);
            }
            return Some(i);
        }
        i += 1;
    }
    proof {
        lemma_first_named(views, name@);
    }
    None
}

/// The tunnels without those of a name.
fn drop_named(tunnels: &Vec<TunnelConfig>, name: &str) -> (r: Vec<TunnelConfig>)
    requires
        pools_wf(tunnels@),
    ensures
        pools_wf(r@),
        tunnel_views(r@) == without_name(tunnel_views(tunnels@), name@),
{
    let mut kept: Vec<TunnelConfig> = Vec::new();
    let mut i: usize = 0;
    let ghost views = tunnel_views(tunnels@);
    proof {
        assert(views.take(0) =~= Seq::empty());
        assert(tunnel_views(kept@) =~= without_name(views.take(0), name@));
    }
    while i < tunnels.len()
        invariant
            i <= tunnels@.len(),
            pools_wf(tunnels@),
            pools_wf(kept@),
            views == tunnel_views(tunnels@),
            tunnel_views(kept@) == without_name(views.take(i as int), name@),
        decreases tunnels@.len() - i,
    {
        let ghost before = kept@;
        proof {
            let now = views.take(i as int + 1);
            assert(now.drop_last() =~= views.take(i as int));
            assert(now.last() == tunnels@[i as int]@);
        }
        if !str_eq(&tunnels[i].name, name) {
            let t = tunnels[i].clone();
            let ghost view = t@;
            kept.push(t);
            assert(tunnel_views(kept@) =~= tunnel_views(before).push(view));
        }
        i += 1;
    }
    assert(views.take(i as int) =~= views);
    kept
}

impl Client {
    /// Registration of the enabled tunnels: their statuses are there from now on, and the requests
    /// come back.
    fn register_enabled(&mut self) -> (r: Vec<ClientMessage>)
        requires
            old(self).wf(),
        ensures
            final(self).wf(),
            final(self)@ == (ClientState {
                status: with_enabled_status(old(self)@.status, old(self)@.file.tunnels),
                ..old(self)@
            }),
            message_views(r@) == registrations(old(self)@.file.tunnels),
    {
        let ghost state = self@;
        let ghost views = self@.file.tunnels;
        let mut out: Vec<ClientMessage> = Vec::new();
        let mut i: usize = 0;
        proof {
            assert(views.take(0) =~= Seq::empty());
            assert(message_views(out@) =~= registrations(views.take(0)));
        }
        while i < self.file.tunnels.len()
            invariant
                i <= self.file.tunnels@.len(),
                views == state.file.tunnels,
                views == tunnel_views(self.file.tunnels@),
                self.wf(),
                self@ == (ClientState {
                    status: with_enabled_status(state.status, views.take(i as int)),
                    ..state
                }),
                message_views(out@) == registrations(views.take(i as int)),
            decreases self.file.tunnels@.len() - i,
        {
            let t = self.file.tunnels[i].clone();
            proof {
                let now = views.take(i as int + 1);
                assert(now.drop_last() =~= views.take(i as int));
                assert(now.last() == t@);
            }
            if t.enabled {
                self.ensure_status(&t);
                let message = register_message(&t);
                let ghost before = message_views(out@);
                out.push(message);
                assert(message_views(out@) =~= before.push(registration(t@)));
            }
            i += 1;
        }
        assert(views.take(i as int) =~= views);
        out
    }

    /// The requests to remove the enabled tunnels.
    fn unregister_enabled(&self) -> (r: Vec<ClientMessage>)
        ensures
            message_views(r@) == removals(self@.file.tunnels),
    {
        let ghost views = self@.file.tunnels;
        let mut out: Vec<ClientMessage> = Vec::new();
        let mut i: usize = 0;
        proof {
            assert(views.take(0) =~= Seq::empty());
            assert(message_views(out@) =~= removals(views.take(0)));
        }
        while i < self.file.tunnels.len()
            invariant
                i <= self.file.tunnels@.len(),
                views == tunnel_views(self.file.tunnels@),
                message_views(out@) == removals(views.take(i as int)),
            decreases self.file.tunnels@.len() - i,
        {
            let t = &self.file.tunnels[i];
            proof {
                let now = views.take(i as int + 1);
                assert(now.drop_last() =~= views.take(i as int));
                assert(now.last() == t@);
            }
            if t.enabled {
                let message = ClientMessage::Unregister { name: t.name.clone() };
                let ghost before = message_views(out@);
                let ghost view = message@;
                out.push(message);
                assert(message_views(out@) =~= before.push(view));
            }
            i += 1;
        }
        assert(views.take(i as int) =~= views);
        out
    }

    /// Carry out a command. The config file may have changed and is to be written back; the
    /// messages are to be sent, if there is a connection.
    pub fn on_command(&mut self, command: Command) -> (r: Vec<ClientMessage>)
        requires
            old(self).wf(),
            command matches Command::Add(t) ==> pool_wf(t.udp_source_pool),
        ensures
            final(self).wf(),
            final(self)@ == after_command(old(self)@, command),
            message_views(r@) == command_messages(old(self)@, command),
    {
        match command {
            Command::Add(t) => self.add_tunnel(t),
            Command::Remove(name) => self.remove_tunnel(name),
            Command::SetEnabled(name, enabled) => self.set_enabled(name, enabled),
            Command::SetPaused(paused) => self.set_paused(paused),
        }
    }

    fn add_tunnel(&mut self, t: TunnelConfig) -> (r: Vec<ClientMessage>)
        requires
            old(self).wf(),
            pool_wf(t.udp_source_pool),
        ensures
            final(self).wf(),
            final(self)@ == after_command(old(self)@, Command::Add(t)),
            message_views(r@) == command_messages(old(self)@, Command::Add(t)),
    {
        let ghost before = self@;
        self.ensure_status(&t);
        let mut out: Vec<ClientMessage> = Vec::new();
        if t.enabled && !self.file.tunnels_paused {
            out.push(register_message(&t));
        }
        let mut tunnels = drop_named(&self.file.tunnels, &t.name);
        let ghost kept = tunnels@;
        let ghost view = t@;
        tunnels.push(t);
        proof {
            assert(tunnel_views(tunnels@) =~= tunnel_views(kept).push(view));
            assert(message_views(out@) =~= command_messages(before, Command::Add(t)));
        }
        self.file.tunnels = tunnels;
        assert(self@ =~= after_command(before, Command::Add(t)));
        out
    }

    fn remove_tunnel(&mut self, name: String) -> (r: Vec<ClientMessage>)
        requires
            old(self).wf(),
        ensures
            final(self).wf(),
            final(self)@ == after_command(old(self)@, Command::Remove(name)),
            message_views(r@) == command_messages(old(self)@, Command::Remove(name)),
    {
        let ghost before = self@;
        let tunnels = drop_named(&self.file.tunnels, &name);
        self.file.tunnels = tunnels;
        let _ = remove_status(&mut self.status, &name);
        proof {
            assert(status_entries(status_map(self.status)) =~= before.status.remove(name@));
            assert(self@ =~= after_command(before, Command::Remove(name)));
        }
        let mut out: Vec<ClientMessage> = Vec::new();
        let message = ClientMessage::Unregister { name: name.clone() };
        out.push(message);
        assert(message_views(out@) =~= command_messages(before, Command::Remove(name)));
        out
    }

    fn set_enabled(&mut self, name: String, enabled: bool) -> (r: Vec<ClientMessage>)
        requires
            old(self).wf(),
        ensures
            final(self).wf(),
            final(self)@ == after_command(old(self)@, Command::SetEnabled(name, enabled)),
            message_views(r@) == command_messages(old(self)@, Command::SetEnabled(name, enabled)),
    {
        let ghost before = self@;
        let ghost command = Command::SetEnabled(name, enabled);
        let mut out: Vec<ClientMessage> = Vec::new();
        let i: usize = match find_tunnel(&self.file.tunnels, &name) {
            Some(i) => i,
            None => {
                assert(message_views(out@) =~= command_messages(before, command));
                return out;
            },
        };
        let mut t = self.file.tunnels[i].clone();
        t.enabled = enabled;
        let ghost tunnels = self.file.tunnels@;
        let copy = t.clone();
        self.file.tunnels.set(i, copy);
        proof {
            assert(tunnel_views(self.file.tunnels@) =~= with_enabled(
                before.file.tunnels,
                name@,
                enabled,
            ));
            lemma_first_named(before.file.tunnels, name@);
        }
        self.ensure_status(&t);
        if enabled {
            if !self.file.tunnels_paused {
                out.push(register_message(&t));
            }
        } else {
            self.set_down(&name);
            out.push(ClientMessage::Unregister { name: name.clone() });
        }
        proof {
            assert(message_views(out@) =~= command_messages(before, command));
            assert(self@ =~= after_command(before, command));
        }
        out
    }

    fn set_paused(&mut self, paused: bool) -> (r: Vec<ClientMessage>)
        requires
            old(self).wf(),
        ensures
            final(self).wf(),
            final(self)@ == after_command(old(self)@, Command::SetPaused(paused)),
            message_views(r@) == command_messages(old(self)@, Command::SetPaused(paused)),
    {
        let ghost before = self@;
        if paused == self.file.tunnels_paused {
            let out: Vec<ClientMessage> = Vec::new();
            assert(message_views(out@) =~= Seq::empty());
            return out;
        }
        self.file.tunnels_paused = paused;
        let out = if paused {
            self.set_all_down();
            self.unregister_enabled()
        } else {
            self.register_enabled()
        };
        assert(self@ =~= after_command(before, Command::SetPaused(paused)));
        out
    }
}

// ---------------------------------------------------------------------------
// The control connection
// ---------------------------------------------------------------------------

/// The host of an endpoint: what precedes the last colon.
pub open spec fn host_text(addr: Seq<char>) -> Seq<char> {
    match split_last_colon(addr) {
        Some((host, _)) => host,
        None => addr,
    }
}

/// The host of an endpoint: what precedes the last colon.
pub fn host_of(addr: &str) -> (r: String)
    ensures
        r@ == host_text(addr@),
{
    let chars = chars_of(addr);
    match last_index_of(&chars, ':') {
        Some(i) => {
            proof {
                let k = choose|k: int|
                    0 <= k < chars@.len() && chars@[k] == ':' && forall|j: int|
                        k < j < chars@.len() ==> chars@[j] != ':';
                assert(chars@.contains(':')) by {
                    assert(chars@[i as int] == ':');
                }
                if k < i {
                    assert(chars@[i as int] != ':');
                }
                if i < k {
                    assert(chars@[k] != ':');
                }
                assert(chars@.subrange(0, i as int) =~= chars@.take(i as int));
            }
            string_of(slice_subrange(&chars, 0, i))
        },
        None => addr.to_string(),
    }
}

/// The public host of the endpoints of a client's tunnels.
pub open spec fn public_host(s: ClientState) -> Seq<char> {
    match s.public_addr {
        Some(host) => host,
        None => host_text(s.server_addr),
    }
}

/// Why a connection was not established.
#[derive(Debug)]
pub enum HandshakeError {
    /// The server refused the connection.
    Refused { message: String },
    /// The server did not answer with `Welcome`.
    Unexpected,
}

/// One of the UDP data channels of a tunnel, to be kept open.
pub enum ChannelStart {
    /// Over a TLS data connection that presents the token.
    Encrypted { local: SocketAddr, token: u128, source_pool: Option<UdpSourcePool> },
    /// Over authenticated UDP packets.
    Plain { local: SocketAddr, server: String, settings: PlainUdpSettings },
}

/// One of the UDP data channels of a tunnel.
#[verifier::ext_equal]
pub enum ChannelView {
    Encrypted { local: SocketAddr, token: u128, source_pool: Option<(u32, u8)> },
    Plain {
        local: SocketAddr,
        server: Seq<char>,
        token: u128,
        key: Seq<u8>,
        udp_mtu: u16,
        source_pool: Option<(u32, u8)>,
    },
}

impl View for ChannelStart {
    type V = ChannelView;

    open spec fn view(&self) -> ChannelView {
        match self {
            ChannelStart::Encrypted { local, token, source_pool } => ChannelView::Encrypted {
                local: *local,
                token: *token,
                source_pool: pool_view(*source_pool),
            },
            ChannelStart::Plain { local, server, settings } => ChannelView::Plain {
                local: *local,
                server: server@,
                token: settings.token,
                key: settings.key@,
                udp_mtu: settings.udp_mtu,
                source_pool: pool_view(settings.source_pool),
            },
        }
    }
}

impl ChannelStart {
    /// Whether the source pool is one.
    pub open spec fn wf(&self) -> bool {
        match self {
            ChannelStart::Encrypted { source_pool, .. } => pool_wf(*source_pool),
            ChannelStart::Plain { settings, .. } => pool_wf(settings.source_pool),
        }
    }
}

/// The contents of channels.
pub open spec fn channel_views(channels: Seq<ChannelStart>) -> Seq<ChannelView> {
    Seq::new(channels.len(), |i: int| channels[i]@)
}

/// The local endpoint behind a public port: the service of the tunnel, with the port that was
/// named for it, if one was.
pub open spec fn local_target(local_addr: SocketAddr, port: u16) -> SocketAddr {
    if port == 0 {
        local_addr
    } else {
        with_port(local_addr, port)
    }
}

fn target(local_addr: SocketAddr, port: u16) -> (r: SocketAddr)
    ensures
        r == local_target(local_addr, port),
{
    if port == 0 {
        local_addr
    } else {
        replace_port(local_addr, port)
    }
}

/// The channel of a public port that carries UDP. A plaintext channel needs a key.
pub open spec fn channel_of(
    s: StatusView,
    host: Seq<char>,
    encrypted: bool,
    b: AcceptedView,
) -> Option<ChannelView> {
    let local = local_target(s.local_addr, b.local_port);
    match (b.token, b.udp_auth_key) {
        (None, _) => None,
        (Some(token), _) if encrypted => Some(
            ChannelView::Encrypted { local, token, source_pool: s.udp_source_pool },
        ),
        (Some(token), None) => None,
        (Some(token), Some(key)) => match parsed_auth_key(key) {
            Err(_) => None,
            Ok(key) => Some(
                ChannelView::Plain {
                    local,
                    server: endpoint_text(host, b.remote_port),
                    token,
                    key,
                    udp_mtu: match b.udp_mtu {
                        Some(mtu) => mtu,
                        None => DEFAULT_UDP_MTU,
                    },
                    source_pool: s.udp_source_pool,
                },
            ),
        },
    }
}

/// The channels of public ports, in order.
pub open spec fn channels_of(
    s: StatusView,
    host: Seq<char>,
    encrypted: bool,
    list: Seq<AcceptedView>,
) -> Seq<ChannelView>
    decreases list.len(),
{
    if list.len() == 0 {
        Seq::empty()
    } else {
        let front = channels_of(s, host, encrypted, list.drop_last());
        match channel_of(s, host, encrypted, list.last()) {
            Some(c) => front.push(c),
            None => front,
        }
    }
}

/// The contents of accepted bindings.
pub open spec fn accepted_views(bindings: Seq<AcceptedBinding>) -> Seq<AcceptedView> {
    Seq::new(bindings.len(), |i: int| bindings[i]@)
}

/// The bindings of a granted tunnel. A server that does not list them grants one public port,
/// which leads to the local endpoint of the tunnel.
pub open spec fn granted_list(message: ServerMessage) -> Seq<AcceptedView> {
    match message {
        ServerMessage::Accepted {
            public_addr,
            remote_port,
            token,
            udp_auth_key,
            udp_mtu,
            bindings,
            ..
        } => if bindings@.len() == 0 {
            seq![
                AcceptedView {
                    local_port: 0,
                    remote_port,
                    public_addr: public_addr@,
                    token,
                    udp_auth_key: option_view(udp_auth_key),
                    udp_mtu,
                },
            ]
        } else {
            accepted_views(bindings@)
        },
        _ => Seq::empty(),
    }
}

/// The bindings of a status, for accepted bindings under a public host.
pub open spec fn public_bindings(host: Seq<char>, list: Seq<AcceptedView>) -> Seq<BindingView> {
    Seq::new(
        list.len(),
        |i: int|
            BindingView {
                local_port: list[i].local_port,
                remote_port: list[i].remote_port,
                public: endpoint_text(host, list[i].remote_port),
            },
    )
}

/// The status of a tunnel that the server granted.
pub open spec fn granted(
    s: StatusView,
    host: Seq<char>,
    remote_port: u16,
    list: Seq<AcceptedView>,
) -> StatusView {
    StatusView {
        public_addr: Some(endpoint_text(host, remote_port)),
        bindings: public_bindings(host, list),
        up: true,
        error: None,
        ..s
    }
}

/// What a message of the server asks for.
pub enum ClientAction {
    Nothing,
    /// Dial a data connection that starts with `first`, and the local service, which first gets
    /// `header`; then splice the two.
    Dial { first: ClientMessage, encrypted: bool, local: SocketAddr, header: Vec<u8> },
    /// Keep the data channels of a tunnel open.
    OpenChannels { channels: Vec<ChannelStart> },
    /// The server refused the connection for good: close it.
    Close { message: String },
}

/// The first frame of the data connection that `NewConn` asks for: the shared secret goes over
/// encrypted connections only.
pub open spec fn dialed_hello(
    secret: Seq<char>,
    id: u128,
    encrypted: bool,
    data_auth: Option<Seq<char>>,
) -> MessageView {
    MessageView::DataHello {
        token: if encrypted {
            Some(secret)
        } else {
            None
        },
        id,
        data_auth,
    }
}

/// What a message of the server asks for.
pub open spec fn asks(s: ClientState, message: ServerMessage, action: ClientAction) -> bool {
    match message {
        ServerMessage::Accepted { name, proto, encrypted, .. } => {
            if s.status.contains_key(name@) && proto.spec_has_udp() {
                action matches ClientAction::OpenChannels { channels } && channel_views(channels@)
                    == channels_of(
                    s.status[name@],
                    public_host(s),
                    encrypted,
                    granted_list(message),
                ) && forall|i: int| 0 <= i < channels@.len() ==> (#[trigger] channels@[i]).wf()
            } else {
                action is Nothing
            }
        },
        ServerMessage::NewConn {
            id,
            tunnel,
            local_port,
            src_addr,
            dst_addr,
            encrypted,
            data_auth,
        } => {
            if s.status.contains_key(tunnel@) {
                &&& action matches ClientAction::Dial {
                    first,
                    encrypted: tls,
                    local,
                    header: head,
                }
                &&& first@ == dialed_hello(s.secret, id, encrypted, option_view(data_auth))
                &&& tls == encrypted
                &&& local == local_target(
                    s.status[tunnel@].local_addr,
                    match local_port {
                        Some(port) => port,
                        None => 0,
                    },
                )
                &&& head@ == header(s.status[tunnel@].proxy_protocol, src_addr, dst_addr)
            } else {
                action is Nothing
            }
        },
        ServerMessage::Error { message, fatal } => if fatal {
            action matches ClientAction::Close { message: text } && text@ == message@
        } else {
            action is Nothing
        },
        _ => action is Nothing,
    }
}

/// The state after a message of the server.
pub open spec fn after_message(s: ClientState, message: ServerMessage) -> ClientState {
    match message {
        ServerMessage::Accepted { name, remote_port, .. } => if s.status.contains_key(
            name@,
        ) {
            ClientState {
                status: s.status.insert(
                    name@,
                    granted(
                        s.status[name@],
                        public_host(s),
                        remote_port,
                        granted_list(message),
                    ),
                ),
                ..s
            }
        } else {
            s
        },
        ServerMessage::Rejected { name, reason } => if s.status.contains_key(name@) {
            ClientState {
                status: s.status.insert(
                    name@,
                    StatusView { error: Some(reason@), up: false, ..s.status[name@] },
                ),
                ..s
            }
        } else {
            s
        },
        _ => s,
    }
}

/// What a client that was welcomed sends: the requests to register the tunnels that are enabled,
/// unless all of them are paused.
pub open spec fn welcome_messages(s: ClientState) -> Seq<MessageView> {
    if s.file.tunnels_paused {
        Seq::empty()
    } else {
        registrations(s.file.tunnels)
    }
}

/// The state of a client that was welcomed.
pub open spec fn after_welcome(s: ClientState, min_port: u16, max_port: u16) -> ClientState {
    ClientState {
        connected: true,
        min_port,
        max_port,
        status: if s.file.tunnels_paused {
            s.status
        } else {
            with_enabled_status(s.status, s.file.tunnels)
        },
        ..s
    }
}

/// The state of a client whose connection is gone.
pub open spec fn after_disconnect(s: ClientState) -> ClientState {
    ClientState { connected: false, status: all_down(s.status), ..s }
}

/// A client answers `NewConn` with the data connection that the relay waits for, so that an end
/// user's connection to a tunnel reaches the local service, which learns where the connection came
/// from and where it went to, if the tunnel passes that on.
pub proof fn law_user_conn_reaches_service(
    relay: ServerState,
    client: ClientState,
    conn: UserConn,
    id: u128,
    data_auth: Seq<char>,
    message: ServerMessage,
    action: ClientAction,
)
    requires
        client.secret == relay.secret,
        client.status.contains_key(conn.tunnel@),
        is_new_conn(message, conn, id, data_auth),
        asks(client, message, action),
    ensures
        action matches ClientAction::Dial { first, encrypted, local, header: head } && {
            &&& encrypted == conn.encrypted
            &&& head@ == header(
                client.status[conn.tunnel@].proxy_protocol,
                conn.src_addr,
                conn.dst_addr,
            )
            &&& local == local_target(client.status[conn.tunnel@].local_addr, conn.local_port)
            &&& conn.encrypted ==> tls_route(relay.secret, first) == (TlsRoute::Data { id })
                && data_route(with_conn(relay, conn, id, data_auth), id) is Splice
            &&& !conn.encrypted ==> plain_route(
                with_conn(relay, conn, id, data_auth).pending,
                first,
            ) == (PlainRoute::Splice { id })
        },
{
    match action {
        ClientAction::Dial { first, .. } => {
            assert(answers_new_conn(relay.secret, message, first));
            law_dialed_conn_is_spliced(relay, conn, id, data_auth, message, first);
        },
        _ => {},
    }
}

/// The shared secret is never sent over a plaintext connection.
pub proof fn law_secret_stays_encrypted(
    s: ClientState,
    message: ServerMessage,
    action: ClientAction,
)
    requires
        asks(s, message, action),
    ensures
        action matches ClientAction::Dial { first, encrypted, .. } ==> {
            &&& first@ matches MessageView::DataHello { token, .. }
            &&& token is Some <==> encrypted
        },
{
}

/// The first frame of a client's control connection.
pub open spec fn control_hello(s: ClientState) -> MessageView {
    MessageView::Hello { token: s.secret }
}

/// The first frame of the data connection of a client's encrypted UDP channel.
pub open spec fn channel_hello_of(s: ClientState, token: u128) -> MessageView {
    dialed_hello(s.secret, token, true, None)
}

/// What the answer to the first frame makes of a client, and what the client sends next.
pub open spec fn handshake(
    s: ClientState,
    message: ServerMessage,
    after: ClientState,
    r: Result<Vec<ClientMessage>, HandshakeError>,
) -> bool {
    match message {
        ServerMessage::Welcome { min_port, max_port } => {
            &&& r is Ok
            &&& message_views(r->Ok_0@) == welcome_messages(s)
            &&& after == after_welcome(s, min_port, max_port)
        },
        ServerMessage::Error { message: text, .. } => {
            &&& r matches Err(HandshakeError::Refused { message }) && message@ == text@
            &&& after == s
        },
        _ => r matches Err(HandshakeError::Unexpected) && after == s,
    }
}

impl Client {
    /// The first frame of the control connection.
    pub fn hello(&self) -> (r: ClientMessage)
        ensures
            r@ == control_hello(self@),
    {
        ClientMessage::Hello { token: self.secret.clone() }
    }

    /// The first frame of the data connection of an encrypted UDP channel.
    pub fn channel_hello(&self, token: u128) -> (r: ClientMessage)
        ensures
            r@ == channel_hello_of(self@, token),
    {
        ClientMessage::DataHello { token: Some(self.secret.clone()), id: token, data_auth: None }
    }

    /// The server answers the first frame. Once it welcomes the client, the enabled tunnels are
    /// registered, unless they are paused.
    pub fn on_welcome(&mut self, message: &ServerMessage) -> (r: Result<
        Vec<ClientMessage>,
        HandshakeError,
    >)
        requires
            old(self).wf(),
        ensures
            final(self).wf(),
            handshake(old(self)@, *message, final(self)@, r),
    {
        match message {
            ServerMessage::Welcome { min_port, max_port } => {
                self.min_port = *min_port;
                self.max_port = *max_port;
                self.connected = true;
                if self.file.tunnels_paused {
                    let none: Vec<ClientMessage> = Vec::new();
                    assert(message_views(none@) =~= Seq::empty());
                    return Ok(none);
                }
                Ok(self.register_enabled())
            },
            ServerMessage::Error { message: text, .. } => Err(
                HandshakeError::Refused { message: text.clone() },
            ),
            _ => Err(HandshakeError::Unexpected),
        }
    }

    /// The connection is gone: every tunnel is down.
    pub fn disconnected(&mut self)
        requires
            old(self).wf(),
        ensures
            final(self).wf(),
            final(self)@ == after_disconnect(old(self)@),
    {
        self.connected = false;
        self.set_all_down();
    }

    fn host(&self) -> (r: String)
        ensures
            r@ == public_host(self@),
    {
        match &self.public_addr {
            Some(host) => host.clone(),
            None => host_of(&self.server_addr),
        }
    }

    /// A message of the server arrives.
    pub fn on_message(&mut self, message: ServerMessage) -> (r: ClientAction)
        requires
            old(self).wf(),
        ensures
            final(self).wf(),
            final(self)@ == after_message(old(self)@, message),
            asks(old(self)@, message, r),
    {
        match message {
            ServerMessage::Accepted {
                name,
                proto,
                public_addr,
                remote_port,
                encrypted,
                token,
                udp_auth_key,
                udp_mtu,
                bindings,
            } => {
                let mut bindings = bindings;
                if bindings.len() == 0 {
                    bindings.push(
                        AcceptedBinding {
                            local_port: 0,
                            remote_port,
                            public_addr,
                            token,
                            udp_auth_key,
                            udp_mtu,
                        },
                    );
                    assert(accepted_views(bindings@) =~= granted_list(message));
                }
                self.accepted(&name, proto, remote_port, encrypted, &bindings)
            },
            ServerMessage::Rejected { name, reason } => {
                self.rejected(&name, reason);
                ClientAction::Nothing
            },
            ServerMessage::NewConn {
                id,
                tunnel,
                local_port,
                src_addr,
                dst_addr,
                encrypted,
                data_auth,
            } => self.new_conn(id, &tunnel, local_port, src_addr, dst_addr, encrypted, data_auth),
            ServerMessage::Error { message, fatal } => if fatal {
                ClientAction::Close { message }
            } else {
                ClientAction::Nothing
            },
            _ => ClientAction::Nothing,
        }
    }

    fn rejected(&mut self, name: &str, reason: String)
        requires
            old(self).wf(),
        ensures
            final(self).wf(),
            final(self)@ == (if old(self)@.status.contains_key(name@) {
                ClientState {
                    status: old(self)@.status.insert(
                        name@,
                        StatusView {
                            error: Some(reason@),
                            up: false,
                            ..old(self)@.status[name@]
                        },
                    ),
                    ..old(self)@
                }
            } else {
                old(self)@
            }),
    {
        let ghost state = self@;
        let ghost m = status_map(self.status);
        match remove_status(&mut self.status, name) {
            Some(s) => {
                let mut s = s;
                let ghost was = s@;
                s.error = Some(reason);
                s.up = false;
                insert_status(&mut self.status, name.to_string(), s);
                assert(status_entries(status_map(self.status)) =~= state.status.insert(
                    name@,
                    StatusView { error: Some(reason@), up: false, ..was },
                ));
            },
            None => {
                assert(status_entries(status_map(self.status)) =~= state.status);
            },
        }
    }

    fn new_conn(
        &mut self,
        id: u128,
        tunnel: &str,
        local_port: Option<u16>,
        src_addr: Option<SocketAddr>,
        dst_addr: Option<SocketAddr>,
        encrypted: bool,
        data_auth: Option<String>,
    ) -> (r: ClientAction)
        requires
            old(self).wf(),
        ensures
            final(self).wf(),
            final(self)@ == old(self)@,
            if old(self)@.status.contains_key(tunnel@) {
                let s = old(self)@.status[tunnel@];
                &&& r matches ClientAction::Dial { first, encrypted: tls, local, header: head }
                &&& first@ == dialed_hello(
                    old(self)@.secret,
                    id,
                    encrypted,
                    option_view(data_auth),
                )
                &&& tls == encrypted
                &&& local == local_target(
                    s.local_addr,
                    match local_port {
                        Some(port) => port,
                        None => 0,
                    },
                )
                &&& head@ == header(s.proxy_protocol, src_addr, dst_addr)
            } else {
                r is Nothing
            },
    {
        let ghost state = self@;
        let ghost m = status_map(self.status);
        let status = match remove_status(&mut self.status, tunnel) {
            Some(s) => s,
            None => {
                assert(status_entries(status_map(self.status)) =~= state.status);
                return ClientAction::Nothing;
            },
        };
        let local_addr = status.local_addr;
        let mode = status.proxy_protocol;
        insert_status(&mut self.status, tunnel.to_string(), status);
        proof {
            assert(status_entries(status_map(self.status)) =~= state.status);
        }
        let port: u16 = match local_port {
            Some(port) => port,
            None => 0,
        };
        let token = if encrypted {
            Some(self.secret.clone())
        } else {
            None
        };
        ClientAction::Dial {
            first: ClientMessage::DataHello { token, id, data_auth },
            encrypted,
            local: target(local_addr, port),
            header: proxy_header(mode, src_addr, dst_addr),
        }
    }

    fn accepted(
        &mut self,
        name: &str,
        proto: Proto,
        remote_port: u16,
        encrypted: bool,
        bindings: &Vec<AcceptedBinding>,
    ) -> (r: ClientAction)
        requires
            old(self).wf(),
        ensures
            final(self).wf(),
            if old(self)@.status.contains_key(name@) {
                let s = old(self)@.status[name@];
                let host = public_host(old(self)@);
                let list = accepted_views(bindings@);
                &&& final(self)@ == (ClientState {
                    status: old(self)@.status.insert(name@, granted(s, host, remote_port, list)),
                    ..old(self)@
                })
                &&& if proto.spec_has_udp() {
                    r matches ClientAction::OpenChannels { channels } && channel_views(channels@)
                        == channels_of(s, host, encrypted, list) && forall|i: int|
                        0 <= i < channels@.len() ==> (#[trigger] channels@[i]).wf()
                } else {
                    r is Nothing
                }
            } else {
                final(self)@ == old(self)@ && r is Nothing
            },
    {
        let ghost state = self@;
        let host = self.host();
        let mut s = match remove_status(&mut self.status, name) {
            Some(s) => s,
            None => {
                assert(status_entries(status_map(self.status)) =~= state.status);
                return ClientAction::Nothing;
            },
        };
        let ghost was = s@;
        let ghost list = accepted_views(bindings@);
        let r = if proto.has_udp() {
            ClientAction::OpenChannels { channels: channels(&s, &host, encrypted, bindings) }
        } else {
            ClientAction::Nothing
        };
        s.public_addr = Some(endpoint_string(&host, remote_port));
        s.bindings = bindings_of(&host, bindings);
        s.error = None;
        s.up = true;
        proof {
            assert(s@ =~= granted(was, host@, remote_port, list));
        }
        insert_status(&mut self.status, name.to_string(), s);
        proof {
            assert(status_entries(status_map(self.status)) =~= state.status.insert(
                name@,
                granted(was, host@, remote_port, list),
            ));
        }
        r
    }
}

fn bindings_of(host: &str, bindings: &Vec<AcceptedBinding>) -> (r: Vec<TunnelBinding>)
    ensures
        binding_views(r@) == public_bindings(host@, accepted_views(bindings@)),
{
    let ghost list = accepted_views(bindings@);
    let mut out: Vec<TunnelBinding> = Vec::new();
    let mut i: usize = 0;
    while i < bindings.len()
        invariant
            i <= bindings@.len(),
            list == accepted_views(bindings@),
            out@.len() == i,
            forall|j: int|
                0 <= j < i ==> (#[trigger] out@[j])@ == public_bindings(host@, list)[j],
        decreases bindings@.len() - i,
    {
        let b = &bindings[i];
        out.push(
            TunnelBinding {
                local_port: b.local_port,
                remote_port: b.remote_port,
                public: endpoint_string(host, b.remote_port),
            },
        );
        i += 1;
    }
    assert(binding_views(out@) =~= public_bindings(host@, list));
    out
}

fn channel(s: &TunnelStatus, host: &str, encrypted: bool, b: &AcceptedBinding) -> (r: Option<
    ChannelStart,
>)
    requires
        pool_wf(s.udp_source_pool),
    ensures
        match r {
            Some(c) => channel_of(s@, host@, encrypted, b@) == Some(c@) && c.wf(),
            None => channel_of(s@, host@, encrypted, b@) is None,
        },
{
    let local = target(s.local_addr, b.local_port);
    let token: u128 = match b.token {
        Some(token) => token,
        None => {
            return None;
        },
    };
    if encrypted {
        return Some(
            ChannelStart::Encrypted { local, token, source_pool: s.udp_source_pool },
        );
    }
    let key = match &b.udp_auth_key {
        Some(text) => match decode_udp_auth_key(text) {
            Ok(key) => key,
            Err(_) => {
                return None;
            },
        },
        None => {
            return None;
        },
    };
    let udp_mtu: u16 = match b.udp_mtu {
        Some(mtu) => mtu,
        None => DEFAULT_UDP_MTU,
    };
    Some(
        ChannelStart::Plain {
            local,
            server: endpoint_string(host, b.remote_port),
            settings: PlainUdpSettings { token, key, udp_mtu, source_pool: s.udp_source_pool },
        },
    )
}

fn channels(
    s: &TunnelStatus,
    host: &str,
    encrypted: bool,
    bindings: &Vec<AcceptedBinding>,
) -> (r: Vec<ChannelStart>)
    requires
        pool_wf(s.udp_source_pool),
    ensures
        channel_views(r@) == channels_of(s@, host@, encrypted, accepted_views(bindings@)),
        forall|i: int| 0 <= i < r@.len() ==> (#[trigger] r@[i]).wf(),
{
    let ghost list = accepted_views(bindings@);
    let mut out: Vec<ChannelStart> = Vec::new();
    let mut i: usize = 0;
    proof {
        assert(list.take(0) =~= Seq::empty());
        assert(channel_views(out@) =~= channels_of(s@, host@, encrypted, list.take(0)));
    }
    while i < bindings.len()
        invariant
            i <= bindings@.len(),
            pool_wf(s.udp_source_pool),
            list == accepted_views(bindings@),
            channel_views(out@) == channels_of(s@, host@, encrypted, list.take(i as int)),
            forall|j: int| 0 <= j < out@.len() ==> (#[trigger] out@[j]).wf(),
        decreases bindings@.len() - i,
    {
        let ghost before = channel_views(out@);
        proof {
            let now = list.take(i as int + 1);
            assert(now.drop_last() =~= list.take(i as int));
            assert(now.last() == bindings@[i as int]@);
        }
        match channel(s, host, encrypted, &bindings[i]) {
            Some(c) => {
                let ghost view = c@;
                out.push(c);
                assert(channel_views(out@) =~= before.push(view));
            },
            None => {},
        }
        i += 1;
    }
    assert(list.take(i as int) =~= list);
    out
}

proof fn lemma_channels_of(
    s: StatusView,
    host: Seq<char>,
    encrypted: bool,
    list: Seq<AcceptedView>,
)
    requires
        forall|i: int|
            0 <= i < list.len() ==> (#[trigger] channel_of(s, host, encrypted, list[i])) is Some,
    ensures
        channels_of(s, host, encrypted, list).len() == list.len(),
        forall|i: int|
            #![trigger channels_of(s, host, encrypted, list)[i]]
            0 <= i < list.len() ==> Some(channels_of(s, host, encrypted, list)[i]) == channel_of(
                s,
                host,
                encrypted,
                list[i],
            ),
    decreases list.len(),
{
    if list.len() > 0 {
        let front = list.drop_last();
        assert forall|i: int| 0 <= i < front.len() implies (#[trigger] channel_of(
            s,
            host,
            encrypted,
            front[i],
        )) is Some by {
            assert(channel_of(s, host, encrypted, list[i]) is Some);
        }
        lemma_channels_of(s, host, encrypted, front);
        assert(channel_of(s, host, encrypted, list[list.len() - 1]) is Some);
    }
}

/// The two ends of a UDP data channel agree: for every public port that the relay serves, the
/// client opens a channel with the token, the key and the packet size that the relay serves it
/// with, to that public port, with the source pool of the tunnel.
pub proof fn law_channel_ends_agree(
    bind_addr: Seq<char>,
    reg: RegistrationView,
    grants: Seq<Grant>,
    start: Start,
    client: ClientState,
    message: ServerMessage,
    action: ClientAction,
    i: int,
)
    requires
        0 <= i < reg.requests.len(),
        reg.proto.spec_has_udp(),
        client.status.contains_key(reg.name),
        is_acceptance(message, bind_addr, reg, grants),
        start_of(reg, grants, i, start),
        asks(client, message, action),
    ensures
        action matches ClientAction::OpenChannels { channels } && channels@.len()
            == reg.requests.len() && match (start.udp, channels@[i]@) {
            (
                Some(UdpStart::Encrypted { token }),
                ChannelView::Encrypted { local, token: dialed, source_pool },
            ) => dialed == token && local == local_target(
                client.status[reg.name].local_addr,
                reg.requests[i].local_port,
            ) && source_pool == client.status[reg.name].udp_source_pool,
            (
                Some(UdpStart::Plain { token, key, udp_mtu }),
                ChannelView::Plain { local, server, token: t, key: k, udp_mtu: m, source_pool },
            ) => t == token && k == key@ && m == udp_mtu && local == local_target(
                client.status[reg.name].local_addr,
                reg.requests[i].local_port,
            ) && source_pool == client.status[reg.name].udp_source_pool && server
                == endpoint_text(public_host(client), start.remote_port),
            _ => false,
        },
{
    let list = granted_list(message);
    let s = client.status[reg.name];
    let host = public_host(client);
    match message {
        ServerMessage::Accepted { bindings, .. } => {
            assert(list == accepted_views(bindings@));
            assert forall|k: int| 0 <= k < list.len() implies list[k] == accepted_binding(
                bind_addr,
                reg,
                grants,
                k,
            ) by {
                assert(bindings@[k]@ == accepted_binding(bind_addr, reg, grants, k));
            }
        },
        _ => {},
    }
    let none = Seq::<char>::empty();
    assert forall|k: int| 0 <= k < list.len() implies (#[trigger] channel_of(
        s,
        host,
        reg.encrypted,
        list[k],
    )) is Some && (!reg.encrypted ==> parsed_auth_key(base64url(grants[k].key@)) == Ok::<
        _,
        ProtocolError,
    >(grants[k].key@)) by {
        let key = grants[k].key@;
        assert(list[k] == accepted_binding(bind_addr, reg, grants, k));
        assert(key.len() == 32);
        law_auth_key_roundtrip(key, none, none);
        assert(none + base64url(key) + none =~= base64url(key));
    }
    lemma_channels_of(s, host, reg.encrypted, list);
    match action {
        ClientAction::OpenChannels { channels } => {
            assert(channel_views(channels@)[i] == channels@[i]@);
            assert(channels_of(s, host, reg.encrypted, list)[i] == channels@[i]@);
            assert(channel_of(s, host, reg.encrypted, list[i]) is Some);
        },
        _ => {},
    }
}

// ---------------------------------------------------------------------------
// Traffic
// ---------------------------------------------------------------------------

/// The statuses with other counters for a tunnel, if it is there.
pub open spec fn with_counters(
    status: Map<Seq<char>, StatusView>,
    name: Seq<char>,
    counters: Counters,
) -> Map<Seq<char>, StatusView> {
    if status.contains_key(name) {
        status.insert(name, StatusView { counters, ..status[name] })
    } else {
        status
    }
}

/// Counters after a connection opened.
pub open spec fn after_open(c: Counters) -> Counters {
    Counters { active: ((c.active + 1) % 0x1_0000_0000) as u32, ..c }
}

/// Counters after a spliced connection ended, with the bytes that went each way if it ended in
/// order.
pub open spec fn after_splice(c: Counters, copied: Option<(u64, u64)>) -> Counters {
    Counters {
        bytes_in: match copied {
            Some((into_local, _)) => counted(c.bytes_in, into_local as nat),
            None => c.bytes_in,
        },
        bytes_out: match copied {
            Some((_, out_remote)) => counted(c.bytes_out, out_remote as nat),
            None => c.bytes_out,
        },
        active: ((c.active + 0xffff_ffff) % 0x1_0000_0000) as u32,
    }
}

impl Client {
    /// The traffic of a tunnel.
    pub fn counters(&mut self, name: &str) -> (r: Option<Counters>)
        requires
            old(self).wf(),
        ensures
            final(self).wf(),
            final(self)@ == old(self)@,
            r == (if old(self)@.status.contains_key(name@) {
                Some(old(self)@.status[name@].counters)
            } else {
                None
            }),
    {
        let ghost state = self@;
        let ghost m = status_map(self.status);
        match remove_status(&mut self.status, name) {
            Some(s) => {
                let counters = s.counters;
                insert_status(&mut self.status, name.to_string(), s);
                assert(status_entries(status_map(self.status)) =~= state.status);
                Some(counters)
            },
            None => {
                assert(status_entries(status_map(self.status)) =~= state.status);
                None
            },
        }
    }

    /// Store the traffic of a tunnel, if it is still there.
    pub fn set_counters(&mut self, name: &str, counters: Counters)
        requires
            old(self).wf(),
        ensures
            final(self).wf(),
            final(self)@ == (ClientState {
                status: with_counters(old(self)@.status, name@, counters),
                ..old(self)@
            }),
    {
        let ghost state = self@;
        let ghost m = status_map(self.status);
        match remove_status(&mut self.status, name) {
            Some(s) => {
                let mut s = s;
                s.counters = counters;
                insert_status(&mut self.status, name.to_string(), s);
                assert(status_entries(status_map(self.status)) =~= with_counters(
                    state.status,
                    name@,
                    counters,
                ));
            },
            None => {
                assert(status_entries(status_map(self.status)) =~= state.status);
            },
        }
    }

    /// A connection to the local service of a tunnel opened.
    pub fn conn_opened(&mut self, name: &str)
        requires
            old(self).wf(),
        ensures
            final(self).wf(),
            final(self)@ == (ClientState {
                status: with_counters(
                    old(self)@.status,
                    name@,
                    after_open(old(self)@.status[name@].counters),
                ),
                ..old(self)@
            }),
    {
        match self.counters(name) {
            Some(c) => {
                let mut c = c;
                c.opened();
                self.set_counters(name, c);
            },
            None => {},
        }
    }

    /// A connection to the local service of a tunnel closed.
    pub fn conn_closed(&mut self, name: &str, copied: Option<(u64, u64)>)
        requires
            old(self).wf(),
        ensures
            final(self).wf(),
            final(self)@ == (ClientState {
                status: with_counters(
                    old(self)@.status,
                    name@,
                    after_splice(old(self)@.status[name@].counters, copied),
                ),
                ..old(self)@
            }),
    {
        match self.counters(name) {
            Some(c) => {
                let mut c = c;
                if let Some((into_local, out_remote)) = copied {
                    c.add_in(into_local);
                    c.add_out(out_remote);
                }
                c.closed();
                self.set_counters(name, c);
            },
            None => {},
        }
    }

    /// The command that enables a tunnel if it is disabled, and disables it if it is enabled. A
    /// tunnel without a status counts as disabled.
    pub fn toggle(&mut self, name: String) -> (r: Command)
        requires
            old(self).wf(),
        ensures
            final(self).wf(),
            final(self)@ == old(self)@,
            toggles(old(self)@, name@, r),
    {
        let ghost state = self@;
        let enabled = match remove_status(&mut self.status, &name) {
            Some(s) => {
                let enabled = s.enabled;
                insert_status(&mut self.status, name.clone(), s);
                enabled
            },
            None => false,
        };
        assert(status_entries(status_map(self.status)) =~= state.status);
        Command::SetEnabled(name, !enabled)
    }

    /// Whether there is a connection, and the public-port range that the server advertised.
    pub fn connection(&self) -> (r: (bool, u16, u16))
        ensures
            r == (self@.connected, self@.min_port, self@.max_port),
    {
        (self.connected, self.min_port, self.max_port)
    }

    /// The endpoint of the server.
    pub fn server_addr(&self) -> (r: &str)
        ensures
            r@ == self@.server_addr,
    {
        self.server_addr.as_str()
    }
}

// ---------------------------------------------------------------------------
// What is shown
// ---------------------------------------------------------------------------

/// A tunnel as the dashboard and the web UI show it.
pub struct TunnelRow {
    pub name: String,
    pub proto: Proto,
    pub local_addr: SocketAddr,
    pub remote_port: Option<u16>,
    pub local_ports: Option<String>,
    pub encrypted: bool,
    pub udp_mtu: Option<u16>,
    pub udp_source_pool: Option<UdpSourcePool>,
    pub proxy_protocol: ProxyProtocol,
    pub enabled: bool,
    pub public_addr: Option<String>,
    pub bindings: Vec<TunnelBinding>,
    pub up: bool,
    pub error: Option<String>,
    pub counters: Counters,
    /// Whether there are latencies to show: those of plaintext UDP.
    pub diagnosed: bool,
}

impl TunnelRow {
    /// What the row says about its tunnel.
    pub open spec fn status(&self) -> StatusView {
        StatusView {
            proto: self.proto,
            local_addr: self.local_addr,
            remote_port: self.remote_port,
            local_ports: option_view(self.local_ports),
            encrypted: self.encrypted,
            udp_mtu: self.udp_mtu,
            udp_source_pool: pool_view(self.udp_source_pool),
            proxy_protocol: self.proxy_protocol,
            enabled: self.enabled,
            public_addr: option_view(self.public_addr),
            bindings: binding_views(self.bindings@),
            up: self.up,
            error: option_view(self.error),
            counters: self.counters,
        }
    }
}

/// Whether a command enables a tunnel that is disabled, or disables one that is enabled.
pub open spec fn toggles(s: ClientState, name: Seq<char>, command: Command) -> bool {
    command matches Command::SetEnabled(n, enabled) && n@ == name && enabled == !(
    s.status.contains_key(name) && s.status[name].enabled)
}

/// Whether a row shows a tunnel as it is.
pub open spec fn shows(status: Map<Seq<char>, StatusView>, row: TunnelRow) -> bool {
    &&& status.contains_key(row.name@)
    &&& row.status() == status[row.name@]
    &&& row.diagnosed == (row.proto.spec_has_udp() && !row.encrypted)
}

fn copy_bindings(bindings: &Vec<TunnelBinding>) -> (r: Vec<TunnelBinding>)
    ensures
        binding_views(r@) == binding_views(bindings@),
{
    let mut out: Vec<TunnelBinding> = Vec::new();
    let mut i: usize = 0;
    while i < bindings.len()
        invariant
            i <= bindings@.len(),
            out@.len() == i,
            forall|j: int| 0 <= j < i ==> (#[trigger] out@[j])@ == bindings@[j]@,
        decreases bindings@.len() - i,
    {
        let b = &bindings[i];
        out.push(
            TunnelBinding {
                local_port: b.local_port,
                remote_port: b.remote_port,
                public: b.public.clone(),
            },
        );
        i += 1;
    }
    assert(binding_views(out@) =~= binding_views(bindings@));
    out
}

impl Client {
    fn row(&mut self, name: &str) -> (r: Option<TunnelRow>)
        requires
            old(self).wf(),
        ensures
            final(self).wf(),
            final(self)@ == old(self)@,
            match r {
                Some(row) => row.name@ == name@ && shows(old(self)@.status, row),
                None => !old(self)@.status.contains_key(name@),
            },
    {
        let ghost state = self@;
        let ghost m = status_map(self.status);
        let s = match remove_status(&mut self.status, name) {
            Some(s) => s,
            None => {
                assert(status_entries(status_map(self.status)) =~= state.status);
                return None;
            },
        };
        let row = TunnelRow {
            name: name.to_string(),
            proto: s.proto,
            local_addr: s.local_addr,
            remote_port: s.remote_port,
            local_ports: clone_option(&s.local_ports),
            encrypted: s.encrypted,
            udp_mtu: s.udp_mtu,
            udp_source_pool: s.udp_source_pool,
            proxy_protocol: s.proxy_protocol,
            enabled: s.enabled,
            public_addr: clone_option(&s.public_addr),
            bindings: copy_bindings(&s.bindings),
            up: s.up,
            error: clone_option(&s.error),
            counters: s.counters,
            diagnosed: s.proto.has_udp() && !s.encrypted,
        };
        insert_status(&mut self.status, name.to_string(), s);
        assert(status_entries(status_map(self.status)) =~= state.status);
        Some(row)
    }

    /// Every tunnel as it is, by name.
    pub fn rows(&mut self) -> (r: Vec<TunnelRow>)
        requires
            old(self).wf(),
        ensures
            final(self).wf(),
            final(self)@ == old(self)@,
            forall|i: int| 0 <= i < r@.len() ==> shows(old(self)@.status, #[trigger] r@[i]),
            forall|i: int, j: int|
                0 <= i < j < r@.len() ==> precedes(
                    (#[trigger] r@[i]).name@,
                    (#[trigger] r@[j]).name@,
                ),
            forall|name: Seq<char>| #[trigger]
                old(self)@.status.contains_key(name) ==> exists|i: int|
                    0 <= i < r@.len() && (#[trigger] r@[i]).name@ == name,
    {
        let ghost state = self@;
        let ghost m = status_map(self.status);
        let list = list_names(&self.status);
        let names = sort_names(&list);
        let mut out: Vec<TunnelRow> = Vec::new();
        let mut i: usize = 0;
        while i < names.len()
            invariant
                i <= names@.len(),
                self.wf(),
                self@ == state,
                state.status == status_entries(m),
                lists_names(m, list@),
                forall|n: Seq<char>|
                    #![trigger among(names@, n)]
                    among(names@, n) <==> among(list@, n),
                out@.len() == i,
                forall|j: int|
                    0 <= j < i ==> shows(state.status, #[trigger] out@[j]) && out@[j].name@
                        == names@[j]@,
            decreases names@.len() - i,
        {
            let ghost text = names@[i as int]@;
            proof {
                assert(among(names@, text));
                let j = choose|j: int| 0 <= j < list@.len() && (#[trigger] list@[j])@ == text;
                assert(m.contains_key(list@[j]@));
            }
            match self.row(&names[i]) {
                Some(row) => {
                    out.push(row);
                },
                None => {
                    assert(false);
                },
            }
            i += 1;
        }
        proof {
            assert forall|name: Seq<char>| #[trigger]
                state.status.contains_key(name) implies exists|k: int|
                0 <= k < out@.len() && (#[trigger] out@[k]).name@ == name by {
                assert(m.contains_key(name));
                let j = choose|j: int| 0 <= j < list@.len() && (#[trigger] list@[j])@ == name;
                assert(among(list@, name));
                assert(among(names@, name));
                let k = choose|k: int| 0 <= k < names@.len() && (#[trigger] names@[k])@ == name;
                assert(out@[k].name@ == name);
            }
            assert forall|a: int, b: int| 0 <= a < b < out@.len() implies precedes(
                (#[trigger] out@[a]).name@,
                (#[trigger] out@[b]).name@,
            ) by {
                assert(precedes(names@[a]@, names@[b]@));
            }
        }
        out
    }
}

// ---------------------------------------------------------------------------
// Onboarding
// ---------------------------------------------------------------------------

/// Whether settings are those that connection info, a config file and arguments make.
pub open spec fn joins(
    info: ConnectionInfo,
    file: ClientFile,
    config_path: String,
    web_bind: Option<String>,
    public_addr: Option<String>,
    r: ClientSettings,
) -> bool {
    &&& r.server_addr@ == endpoint_text(info.host@, info.port)
    &&& r.server_fingerprint@ == info.fingerprint@
    &&& r.secret@ == info.secret@
    &&& r.web_bind@ == first_text(web_bind, file.web_bind, DEFAULT_WEB_BIND@)
    &&& option_view(r.public_addr) == either_text(public_addr, file.public_addr)
    &&& option_view(r.config_path) == Some(config_path@)
    &&& r.file@ == (FileView {
        server_addr: Some(endpoint_text(info.host@, info.port)),
        server_fingerprint: Some(info.fingerprint@),
        secret: Some(info.secret@),
        web_bind: Some(first_text(web_bind, file.web_bind, DEFAULT_WEB_BIND@)),
        public_addr: either_text(public_addr, file.public_addr),
        ..file@
    })
}

/// Turn a connection code into client settings, preserving any existing tunnels: what the code
/// says is stored in the config file, and so are the arguments.
pub fn settings_from_code(
    info: ConnectionInfo,
    file: ClientFile,
    config_path: String,
    web_bind: Option<String>,
    public_addr: Option<String>,
) -> (r: ClientSettings)
    ensures
        joins(info, file, config_path, web_bind, public_addr, r),
        r.file.tunnels == file.tunnels,
{
    let mut file = file;
    let server_addr = info.server_addr();
    let web = pick_text(&web_bind, &file.web_bind, DEFAULT_WEB_BIND);
    let public = pick_option(&public_addr, &file.public_addr);
    file.server_addr = Some(server_addr.clone());
    file.server_fingerprint = Some(info.fingerprint.clone());
    file.secret = Some(info.secret.clone());
    file.web_bind = Some(web.clone());
    file.public_addr = clone_option(&public);
    ClientSettings {
        server_addr,
        server_fingerprint: info.fingerprint,
        web_bind: web,
        public_addr: public,
        secret: info.secret,
        config_path: Some(config_path),
        file,
    }
}

// ---------------------------------------------------------------------------
// What the model says of the client
// ---------------------------------------------------------------------------

/// The request for a tunnel asks for that tunnel: its name, its protocol, its public port, its
/// local ports, its encryption and its packet size.
pub proof fn law_registration_carries_tunnel(t: TunnelView)
    ensures
        registration(t) matches MessageView::Register {
            name,
            proto,
            remote_port,
            local_ports,
            encrypted,
            udp_mtu,
        } && {
            &&& name == t.name
            &&& proto == t.protocol
            &&& remote_port == t.remote_port
            &&& local_ports == t.local_ports
            &&& encrypted == t.encrypted
            &&& udp_mtu == t.udp_mtu
        },
{
}

/// Registrations and removals are those of the enabled tunnels, one for each, in their order.
pub proof fn law_requests_of_enabled(tunnels: Seq<TunnelView>)
    ensures
        registrations(tunnels) == tunnels.filter(|t: TunnelView| t.enabled).map_values(
            |t: TunnelView|
                (MessageView::Register {
                    name: t.name,
                    proto: t.protocol,
                    remote_port: t.remote_port,
                    local_ports: t.local_ports,
                    encrypted: t.encrypted,
                    udp_mtu: t.udp_mtu,
                }),
        ),
        removals(tunnels) == tunnels.filter(|t: TunnelView| t.enabled).map_values(
            |t: TunnelView| (MessageView::Unregister { name: t.name }),
        ),
    decreases tunnels.len(),
{
    reveal(Seq::filter);
    let on = |t: TunnelView| t.enabled;
    let register = |t: TunnelView|
        (MessageView::Register {
            name: t.name,
            proto: t.protocol,
            remote_port: t.remote_port,
            local_ports: t.local_ports,
            encrypted: t.encrypted,
            udp_mtu: t.udp_mtu,
        });
    let unregister = |t: TunnelView| (MessageView::Unregister { name: t.name });
    if tunnels.len() > 0 {
        law_requests_of_enabled(tunnels.drop_last());
    }
    assert(registrations(tunnels) =~= tunnels.filter(on).map_values(register));
    assert(removals(tunnels) =~= tunnels.filter(on).map_values(unregister));
}

proof fn lemma_push_contains<A>(s: Seq<A>, a: A, x: A)
    ensures
        s.push(a).contains(x) <==> s.contains(x) || x == a,
{
    let all = s.push(a);
    assert(all[s.len() as int] == a);
    if s.contains(x) {
        let i = choose|i: int| 0 <= i < s.len() && s[i] == x;
        assert(all[i] == x);
    }
    if all.contains(x) {
        let i = choose|i: int| 0 <= i < all.len() && all[i] == x;
        if i < s.len() {
            assert(s[i] == x);
        }
    }
}

/// Pausing asks the relay to remove a name exactly if some enabled tunnel of the config file has
/// it, and asks nothing else. Letting go asks for a tunnel exactly if it is enabled.
pub proof fn law_pause_takes_enabled_down(s: ClientState, message: MessageView)
    ensures
        !s.file.tunnels_paused ==> (command_messages(s, Command::SetPaused(true)).contains(message)
            <==> (message matches MessageView::Unregister { name } && exists|i: int|
            0 <= i < s.file.tunnels.len() && (#[trigger] s.file.tunnels[i]).enabled
                && s.file.tunnels[i].name == name)),
        s.file.tunnels_paused ==> (command_messages(s, Command::SetPaused(false)).contains(message)
            <==> (message matches MessageView::Register {
            name,
            proto,
            remote_port,
            local_ports,
            encrypted,
            udp_mtu,
        } && exists|i: int|
            {
                &&& 0 <= i < s.file.tunnels.len()
                &&& (#[trigger] s.file.tunnels[i]).enabled
                &&& s.file.tunnels[i].name == name
                &&& s.file.tunnels[i].protocol == proto
                &&& s.file.tunnels[i].remote_port == remote_port
                &&& s.file.tunnels[i].local_ports == local_ports
                &&& s.file.tunnels[i].encrypted == encrypted
                &&& s.file.tunnels[i].udp_mtu == udp_mtu
            })),
        command_messages(s, Command::SetPaused(s.file.tunnels_paused)).len() == 0,
{
    lemma_removals_contain(s.file.tunnels, message);
    law_registrations_are_enabled(s.file.tunnels, message);
}

proof fn lemma_removals_contain(tunnels: Seq<TunnelView>, message: MessageView)
    ensures
        removals(tunnels).contains(message) <==> (message matches MessageView::Unregister { name }
            && exists|i: int|
            0 <= i < tunnels.len() && (#[trigger] tunnels[i]).enabled && tunnels[i].name == name),
    decreases tunnels.len(),
{
    if tunnels.len() > 0 {
        let front = tunnels.drop_last();
        let last = tunnels.last();
        lemma_removals_contain(front, message);
        lemma_push_contains(
            removals(front),
            MessageView::Unregister { name: last.name },
            message,
        );
        assert(tunnels[tunnels.len() - 1] == last);
        if let MessageView::Unregister { name } = message {
            if exists|i: int|
                0 <= i < front.len() && (#[trigger] front[i]).enabled && front[i].name == name {
                let i = choose|i: int|
                    0 <= i < front.len() && (#[trigger] front[i]).enabled && front[i].name == name;
                assert(tunnels[i] == front[i]);
            }
            if exists|i: int|
                0 <= i < tunnels.len() && (#[trigger] tunnels[i]).enabled && tunnels[i].name
                    == name {
                let i = choose|i: int|
                    0 <= i < tunnels.len() && (#[trigger] tunnels[i]).enabled && tunnels[i].name
                        == name;
                if i < front.len() {
                    assert(front[i] == tunnels[i]);
                }
            }
        }
    }
}

/// A client that is welcomed asks for its enabled tunnels, or for none while they are paused. It
/// is connected from then on and knows the range of the server.
pub proof fn law_welcome_registers_enabled(s: ClientState, min_port: u16, max_port: u16)
    ensures
        s.file.tunnels_paused ==> welcome_messages(s).len() == 0,
        !s.file.tunnels_paused ==> welcome_messages(s) == s.file.tunnels.filter(
            |t: TunnelView| t.enabled,
        ).map_values(
            |t: TunnelView|
                (MessageView::Register {
                    name: t.name,
                    proto: t.protocol,
                    remote_port: t.remote_port,
                    local_ports: t.local_ports,
                    encrypted: t.encrypted,
                    udp_mtu: t.udp_mtu,
                }),
        ),
        ({
            let after = after_welcome(s, min_port, max_port);
            &&& after.connected
            &&& after.min_port == min_port
            &&& after.max_port == max_port
            &&& after.file == s.file
            &&& after.secret == s.secret
            &&& after.server_addr == s.server_addr
            &&& after.public_addr == s.public_addr
        }),
{
    law_requests_of_enabled(s.file.tunnels);
}

/// A connection that is lost takes every tunnel down and changes nothing else.
pub proof fn law_disconnect_takes_all_down(s: ClientState)
    ensures
        ({
            let after = after_disconnect(s);
            &&& !after.connected
            &&& after.status.dom() == s.status.dom()
            &&& forall|name: Seq<char>| #[trigger]
                s.status.contains_key(name) ==> !after.status[name].up && after.status[name]
                    == (StatusView { up: after.status[name].up, ..s.status[name] })
            &&& after == (ClientState {
                connected: after.connected,
                status: after.status,
                ..s
            })
        }),
{
    assert(after_disconnect(s).status.dom() =~= s.status.dom());
}

/// A tunnel that was never registered shows what its config says, and that it is down.
pub proof fn law_fresh_status_shows_config(t: TunnelView)
    ensures
        ({
            let s = fresh_status(t);
            &&& s.proto == t.protocol
            &&& s.local_addr == t.local_addr
            &&& s.remote_port == t.remote_port
            &&& s.local_ports == t.local_ports
            &&& s.encrypted == t.encrypted
            &&& s.udp_mtu == t.udp_mtu
            &&& s.udp_source_pool == t.udp_source_pool
            &&& s.proxy_protocol == t.proxy_protocol
            &&& s.enabled == t.enabled
            &&& s.public_addr is None
            &&& s.bindings.len() == 0
            &&& !s.up
            &&& s.error is None
            &&& s.counters.bytes_in == 0
            &&& s.counters.bytes_out == 0
            &&& s.counters.active == 0
        }),
{
}

/// Whether a status belongs to a tunnel: where its traffic goes and how it is carried.
pub open spec fn status_of(s: StatusView, t: TunnelView) -> bool {
    &&& s.proto == t.protocol
    &&& s.local_addr == t.local_addr
    &&& s.remote_port == t.remote_port
    &&& s.local_ports == t.local_ports
    &&& s.encrypted == t.encrypted
    &&& s.udp_mtu == t.udp_mtu
    &&& s.udp_source_pool == t.udp_source_pool
    &&& s.proxy_protocol == t.proxy_protocol
}

/// A client starts with a status for each tunnel of its config file, which shows the tunnel as it
/// is configured and down. Of several tunnels with one name the last counts.
pub proof fn law_initial_status(tunnels: Seq<TunnelView>, i: int)
    requires
        0 <= i < tunnels.len(),
        forall|j: int| i < j < tunnels.len() ==> (#[trigger] tunnels[j]).name != tunnels[i].name,
    ensures
        initial_status(tunnels).contains_key(tunnels[i].name),
        status_of(initial_status(tunnels)[tunnels[i].name], tunnels[i]),
        initial_status(tunnels)[tunnels[i].name].enabled == tunnels[i].enabled,
        !initial_status(tunnels)[tunnels[i].name].up,
        initial_status(tunnels)[tunnels[i].name].error is None,
    decreases tunnels.len(),
{
    let front = tunnels.drop_last();
    let last = tunnels.len() - 1;
    if i < last {
        assert(tunnels[last].name != tunnels[i].name);
        assert forall|j: int| i < j < front.len() implies (#[trigger] front[j]).name
            != front[i].name by {
            assert(tunnels[j].name != tunnels[i].name);
        }
        law_initial_status(front, i);
    }
}

/// A client starts with no other status.
pub proof fn law_initial_status_names(tunnels: Seq<TunnelView>, name: Seq<char>)
    requires
        initial_status(tunnels).contains_key(name),
    ensures
        exists|i: int| 0 <= i < tunnels.len() && (#[trigger] tunnels[i]).name == name,
    decreases tunnels.len(),
{
    let front = tunnels.drop_last();
    assert(tunnels[tunnels.len() - 1] == tunnels.last());
    if tunnels.last().name != name {
        law_initial_status_names(front, name);
        let i = choose|i: int| 0 <= i < front.len() && (#[trigger] front[i]).name == name;
        assert(tunnels[i].name == name);
    }
}

/// Whether two states differ at the most in the tunnels of the config file and in the status of
/// one tunnel.
pub open spec fn differs_in_tunnel(s: ClientState, after: ClientState, name: Seq<char>) -> bool {
    &&& after == (ClientState { file: after.file, status: after.status, ..s })
    &&& after.file == (FileView { tunnels: after.file.tunnels, ..s.file })
    &&& forall|n: Seq<char>|
        n != name ==> (#[trigger] after.status.contains_key(n) <==> s.status.contains_key(n))
    &&& forall|n: Seq<char>|
        n != name && #[trigger] s.status.contains_key(n) ==> after.status[n] == s.status[n]
}

proof fn lemma_without_name_filters(tunnels: Seq<TunnelView>, name: Seq<char>)
    ensures
        without_name(tunnels, name) == tunnels.filter(|t: TunnelView| t.name != name),
    decreases tunnels.len(),
{
    reveal(Seq::filter);
    let other = |t: TunnelView| t.name != name;
    if tunnels.len() > 0 {
        lemma_without_name_filters(tunnels.drop_last(), name);
    }
    assert(without_name(tunnels, name) =~= tunnels.filter(other));
}

/// Adding a tunnel puts it at the end of the config file in place of those with its name. The other
/// tunnels and settings stay as they are. The tunnel has a status from then on, and the relay is
/// asked for it at once if it is enabled and tunnels are not paused.
pub proof fn law_add_tunnel(s: ClientState, t: TunnelConfig)
    ensures
        ({
            let after = after_command(s, Command::Add(t));
            let sent = command_messages(s, Command::Add(t));
            &&& differs_in_tunnel(s, after, t@.name)
            &&& after.file.tunnels == s.file.tunnels.filter(
                |u: TunnelView| u.name != t@.name,
            ).push(t@)
            &&& after.status.contains_key(t@.name)
            &&& after.status[t@.name].enabled == t@.enabled
            &&& !s.status.contains_key(t@.name) ==> status_of(after.status[t@.name], t@)
                && !after.status[t@.name].up && after.status[t@.name].error is None
            &&& s.status.contains_key(t@.name) ==> after.status[t@.name] == (StatusView {
                enabled: t@.enabled,
                ..s.status[t@.name]
            })
            &&& t@.enabled && !s.file.tunnels_paused ==> sent.len() == 1 && sent[0] == (
            MessageView::Register {
                name: t@.name,
                proto: t@.protocol,
                remote_port: t@.remote_port,
                local_ports: t@.local_ports,
                encrypted: t@.encrypted,
                udp_mtu: t@.udp_mtu,
            })
            &&& !(t@.enabled && !s.file.tunnels_paused) ==> sent.len() == 0
        }),
{
    lemma_without_name_filters(s.file.tunnels, t@.name);
}

/// Removing a tunnel takes those with its name out of the config file, forgets its status and asks
/// the relay to remove it. Nothing else changes.
pub proof fn law_remove_tunnel(s: ClientState, name: String)
    ensures
        ({
            let after = after_command(s, Command::Remove(name));
            let sent = command_messages(s, Command::Remove(name));
            &&& differs_in_tunnel(s, after, name@)
            &&& after.file.tunnels == s.file.tunnels.filter(|u: TunnelView| u.name != name@)
            &&& !after.status.contains_key(name@)
            &&& sent.len() == 1
            &&& sent[0] == (MessageView::Unregister { name: name@ })
        }),
{
    lemma_without_name_filters(s.file.tunnels, name@);
}

/// Enabling or disabling a tunnel changes that mark on the first tunnel with the name and on its
/// status, and nothing else but that a disabled tunnel is down. The relay is asked to remove a
/// tunnel that is disabled, and for one that is enabled, unless tunnels are paused. A name without
/// a tunnel changes nothing.
pub proof fn law_set_enabled(s: ClientState, name: String, enabled: bool, i: int)
    requires
        0 <= i < s.file.tunnels.len(),
        s.file.tunnels[i].name == name@,
        forall|j: int| 0 <= j < i ==> (#[trigger] s.file.tunnels[j]).name != name@,
    ensures
        ({
            let after = after_command(s, Command::SetEnabled(name, enabled));
            let sent = command_messages(s, Command::SetEnabled(name, enabled));
            let t = s.file.tunnels[i];
            &&& differs_in_tunnel(s, after, name@)
            &&& after.file.tunnels.len() == s.file.tunnels.len()
            &&& after.file.tunnels[i] == (TunnelView { enabled, ..t })
            &&& forall|j: int|
                0 <= j < s.file.tunnels.len() && j != i ==> (#[trigger] after.file.tunnels[j])
                    == s.file.tunnels[j]
            &&& after.status.contains_key(name@)
            &&& after.status[name@].enabled == enabled
            &&& !enabled ==> !after.status[name@].up
            &&& !s.status.contains_key(name@) ==> status_of(after.status[name@], t)
                && !after.status[name@].up
            &&& s.status.contains_key(name@) ==> after.status[name@] == (StatusView {
                enabled,
                up: enabled && s.status[name@].up,
                ..s.status[name@]
            })
            &&& !enabled ==> sent.len() == 1 && sent[0] == (MessageView::Unregister {
                name: name@,
            })
            &&& enabled && s.file.tunnels_paused ==> sent.len() == 0
            &&& enabled && !s.file.tunnels_paused ==> sent.len() == 1 && sent[0] == (
            MessageView::Register {
                name: name@,
                proto: t.protocol,
                remote_port: t.remote_port,
                local_ports: t.local_ports,
                encrypted: t.encrypted,
                udp_mtu: t.udp_mtu,
            })
        }),
{
    lemma_first_named_is(s.file.tunnels, name@, i);
}

/// A name that no tunnel has cannot be enabled or disabled.
pub proof fn law_set_enabled_unknown(s: ClientState, name: String, enabled: bool)
    requires
        forall|j: int|
            0 <= j < s.file.tunnels.len() ==> (#[trigger] s.file.tunnels[j]).name != name@,
    ensures
        after_command(s, Command::SetEnabled(name, enabled)) == s,
        command_messages(s, Command::SetEnabled(name, enabled)).len() == 0,
{
    lemma_first_named(s.file.tunnels, name@);
}

/// Pausing keeps the config file but for the mark, and takes every tunnel down; their statuses stay
/// otherwise as they are. Letting go keeps it too, and leaves the statuses as they are but for
/// those of enabled tunnels, which are there and enabled. To pause what is paused changes nothing.
pub proof fn law_pause_keeps_tunnels(s: ClientState, paused: bool, name: Seq<char>)
    ensures
        ({
            let after = after_command(s, Command::SetPaused(paused));
            &&& after.file == (FileView { tunnels_paused: paused, ..s.file })
            &&& after == (ClientState { file: after.file, status: after.status, ..s })
            &&& paused == s.file.tunnels_paused ==> after == s
            &&& paused && !s.file.tunnels_paused ==> {
                &&& after.status.contains_key(name) <==> s.status.contains_key(name)
                &&& s.status.contains_key(name) ==> after.status[name] == (StatusView {
                    up: false,
                    ..s.status[name]
                })
            }
            &&& !paused && s.file.tunnels_paused ==> {
                &&& s.status.contains_key(name) ==> after.status.contains_key(name)
                    && after.status[name] == (StatusView {
                    enabled: after.status[name].enabled,
                    ..s.status[name]
                })
                &&& (exists|i: int|
                    0 <= i < s.file.tunnels.len() && (#[trigger] s.file.tunnels[i]).enabled
                        && s.file.tunnels[i].name == name) ==> after.status.contains_key(name)
                    && after.status[name].enabled
                &&& (forall|i: int|
                    0 <= i < s.file.tunnels.len() && (#[trigger] s.file.tunnels[i]).name == name
                        ==> !s.file.tunnels[i].enabled) ==> (after.status.contains_key(name)
                    <==> s.status.contains_key(name)) && (s.status.contains_key(name)
                    ==> after.status[name] == s.status[name])
            }
        }),
{
    law_enabled_have_status(s.status, s.file.tunnels, name);
    assert(s.file =~= FileView { tunnels_paused: s.file.tunnels_paused, ..s.file });
}

/// When the enabled tunnels are registered, each of them has a status that says so. A status that
/// was there keeps the rest, and other statuses stay as they are.
pub proof fn law_enabled_have_status(
    status: Map<Seq<char>, StatusView>,
    tunnels: Seq<TunnelView>,
    name: Seq<char>,
)
    ensures
        ({
            let after = with_enabled_status(status, tunnels);
            &&& status.contains_key(name) ==> after.contains_key(name) && after[name]
                == (StatusView { enabled: after[name].enabled, ..status[name] })
            &&& (exists|i: int|
                0 <= i < tunnels.len() && (#[trigger] tunnels[i]).enabled && tunnels[i].name
                    == name) ==> after.contains_key(name) && after[name].enabled
            &&& (forall|i: int|
                0 <= i < tunnels.len() && (#[trigger] tunnels[i]).name == name
                    ==> !tunnels[i].enabled) ==> (after.contains_key(name)
                <==> status.contains_key(name)) && (status.contains_key(name) ==> after[name]
                == status[name])
            &&& !status.contains_key(name) && after.contains_key(name) ==> exists|i: int|
                {
                    &&& 0 <= i < tunnels.len()
                    &&& (#[trigger] tunnels[i]).enabled
                    &&& tunnels[i].name == name
                    &&& status_of(after[name], tunnels[i])
                    &&& !after[name].up
                }
        }),
    decreases tunnels.len(),
{
    if tunnels.len() > 0 {
        let front = tunnels.drop_last();
        let last = tunnels.last();
        let before = with_enabled_status(status, front);
        let after = with_enabled_status(status, tunnels);
        law_enabled_have_status(status, front, name);
        assert(tunnels[tunnels.len() - 1] == last);
        if exists|i: int|
            0 <= i < tunnels.len() && (#[trigger] tunnels[i]).enabled && tunnels[i].name == name {
            let i = choose|i: int|
                0 <= i < tunnels.len() && (#[trigger] tunnels[i]).enabled && tunnels[i].name
                    == name;
            if i < front.len() {
                assert(front[i] == tunnels[i]);
            }
        }
        if forall|i: int|
            0 <= i < tunnels.len() && (#[trigger] tunnels[i]).name == name ==> !tunnels[i].enabled {
            assert forall|i: int| 0 <= i < front.len() && (#[trigger] front[i]).name
                == name implies !front[i].enabled by {
                assert(tunnels[i] == front[i]);
            }
        }
        if !status.contains_key(name) && after.contains_key(name) {
            if before.contains_key(name) {
                let i = choose|i: int|
                    {
                        &&& 0 <= i < front.len()
                        &&& (#[trigger] front[i]).enabled
                        &&& front[i].name == name
                        &&& status_of(before[name], front[i])
                        &&& !before[name].up
                    };
                assert(tunnels[i] == front[i]);
                assert(status_of(after[name], tunnels[i]));
            } else {
                assert(last.enabled && last.name == name);
                assert(status_of(after[name], last));
            }
        }
    }
}

/// A granted tunnel is up and shows the public endpoints that were granted, each under the public
/// host of the client and with the local port behind it. A refused tunnel is down and shows the
/// reason. No other tunnel changes, and neither do the settings.
pub proof fn law_answers_show_in_status(s: ClientState, message: ServerMessage, other: Seq<char>)
    ensures
        ({
            let after = after_message(s, message);
            &&& after == (ClientState { status: after.status, ..s })
            &&& after.status.dom() == s.status.dom()
            &&& message matches ServerMessage::Accepted { name, remote_port, bindings, .. }
                ==> s.status.contains_key(name@) ==> {
                let now = after.status[name@];
                &&& now.up
                &&& now.error is None
                &&& now.public_addr == Some(endpoint_text(public_host(s), remote_port))
                &&& now == (StatusView {
                    up: now.up,
                    error: now.error,
                    public_addr: now.public_addr,
                    bindings: now.bindings,
                    ..s.status[name@]
                })
                &&& bindings@.len() > 0 ==> now.bindings.len() == bindings@.len()
                    && forall|i: int|
                    0 <= i < bindings@.len() ==> (#[trigger] now.bindings[i]).local_port
                        == bindings@[i].local_port && now.bindings[i].remote_port
                        == bindings@[i].remote_port && now.bindings[i].public == endpoint_text(
                        public_host(s),
                        bindings@[i].remote_port,
                    )
                &&& bindings@.len() == 0 ==> now.bindings.len() == 1
                    && now.bindings[0].remote_port == remote_port && now.bindings[0].local_port == 0
                    && now.bindings[0].public == endpoint_text(public_host(s), remote_port)
            }
            &&& message matches ServerMessage::Rejected { name, reason } ==> s.status.contains_key(
                name@,
            ) ==> after.status[name@] == (StatusView {
                up: false,
                error: Some(reason@),
                ..s.status[name@]
            })
            &&& s.status.contains_key(other) && !(message matches ServerMessage::Accepted {
                name,
                ..
            } && name@ == other) && !(message matches ServerMessage::Rejected { name, .. } && name@
                == other) ==> after.status[other] == s.status[other]
        }),
{
    assert(after_message(s, message).status.dom() =~= s.status.dom());
}

/// The public host of the endpoints is the one that was set, and else the host of the server.
pub proof fn law_public_host(s: ClientState, host: Seq<char>, port: Seq<char>)
    requires
        !port.contains(':'),
    ensures
        s.public_addr matches Some(shown) ==> public_host(s) == shown,
        s.public_addr is None && s.server_addr == host + ":"@ + port ==> public_host(s) == host,
        s.public_addr is None && s.server_addr == port ==> public_host(s) == port,
{
    law_split_last_colon(host, port);
}

/// The local endpoint behind a public port keeps the address of the tunnel's service. The port is
/// the one that was named for it, if one was, and else that of the service.
pub proof fn law_local_target(local: SocketAddr, port: u16)
    ensures
        local_target(local, 0) == local,
        local_target(local, port).spec_ip() == local.spec_ip(),
        port != 0 ==> local_target(local, port).spec_port() == port,
{
}

/// The data channel of a public port leads to the local port behind it, presents the token that was
/// handed out and draws on the source pool of the tunnel. A plaintext channel goes to that public
/// port, with the key and the packet size that came with it. A token and, for plaintext, a valid
/// key are all it takes.
pub proof fn law_channel_of_binding(
    s: StatusView,
    host: Seq<char>,
    encrypted: bool,
    b: AcceptedView,
)
    ensures
        channel_of(s, host, encrypted, b) is Some <==> b.token is Some && (encrypted || (
        b.udp_auth_key is Some && parsed_auth_key(b.udp_auth_key->0) is Ok)),
        channel_of(s, host, encrypted, b) matches Some(c) ==> match c {
            ChannelView::Encrypted { local, token, source_pool } => {
                &&& encrypted
                &&& Some(token) == b.token
                &&& source_pool == s.udp_source_pool
                &&& local == local_target(s.local_addr, b.local_port)
            },
            ChannelView::Plain { local, server, token, key, udp_mtu, source_pool } => {
                &&& !encrypted
                &&& Some(token) == b.token
                &&& source_pool == s.udp_source_pool
                &&& local == local_target(s.local_addr, b.local_port)
                &&& server == endpoint_text(host, b.remote_port)
                &&& parsed_auth_key(b.udp_auth_key->0) == Ok::<_, ProtocolError>(key)
                &&& b.udp_mtu matches Some(mtu) ==> udp_mtu == mtu
                &&& b.udp_mtu is None ==> udp_mtu == 1200
            },
        },
{
}

/// A granted tunnel that carries UDP gets the data channels of all its public ports, in order, and
/// of no others.
pub proof fn law_channels_of_bindings(
    s: StatusView,
    host: Seq<char>,
    encrypted: bool,
    list: Seq<AcceptedView>,
)
    ensures
        channels_of(s, host, encrypted, list) == list.filter_map(
            |b: AcceptedView| channel_of(s, host, encrypted, b),
        ),
    decreases list.len(),
{
    reveal(Seq::filter_map);
    let f = |b: AcceptedView| channel_of(s, host, encrypted, b);
    if list.len() > 0 {
        law_channels_of_bindings(s, host, encrypted, list.drop_last());
    }
    assert(channels_of(s, host, encrypted, list) =~= list.filter_map(f));
}

/// Every data channel that a client opens for a granted tunnel, plaintext or encrypted, draws on
/// the source pool that was configured for the tunnel, and leads to the address of its service.
pub proof fn law_channels_use_pool(
    s: ClientState,
    message: ServerMessage,
    action: ClientAction,
    k: int,
)
    requires
        asks(s, message, action),
        action matches ClientAction::OpenChannels { channels } && 0 <= k < channels@.len(),
    ensures
        message matches ServerMessage::Accepted { name, .. } && s.status.contains_key(name@) && {
            let status = s.status[name@];
            match (action->channels)@[k]@ {
                ChannelView::Encrypted { source_pool, local, .. } => {
                    source_pool == status.udp_source_pool && local.spec_ip()
                        == status.local_addr.spec_ip()
                },
                ChannelView::Plain { source_pool, local, .. } => {
                    source_pool == status.udp_source_pool && local.spec_ip()
                        == status.local_addr.spec_ip()
                },
            }
        },
{
    match message {
        ServerMessage::Accepted { name, encrypted, .. } => {
            let list = granted_list(message);
            let status = s.status[name@];
            lemma_channels_from(status, public_host(s), encrypted, list, k);
            let channels = action->channels;
            assert(channel_views(channels@)[k] == channels@[k]@);
        },
        _ => {},
    }
}

proof fn lemma_channels_from(
    s: StatusView,
    host: Seq<char>,
    encrypted: bool,
    list: Seq<AcceptedView>,
    k: int,
)
    requires
        0 <= k < channels_of(s, host, encrypted, list).len(),
    ensures
        exists|i: int|
            0 <= i < list.len() && #[trigger] channel_of(s, host, encrypted, list[i]) == Some(
                channels_of(s, host, encrypted, list)[k],
            ),
    decreases list.len(),
{
    let front = list.drop_last();
    let before = channels_of(s, host, encrypted, front);
    if k < before.len() {
        lemma_channels_from(s, host, encrypted, front, k);
        let i = choose|i: int|
            0 <= i < front.len() && #[trigger] channel_of(s, host, encrypted, front[i]) == Some(
                before[k],
            );
        assert(channel_of(s, host, encrypted, list[i]) == Some(before[k]));
    } else {
        assert(channel_of(s, host, encrypted, list[list.len() - 1]) is Some);
    }
}

/// What the client does about a message. A granted tunnel with UDP opens channels, an announced
/// connection of a known tunnel is dialed, a fatal error closes the connection, and nothing else
/// asks for anything.
pub proof fn law_messages_ask_for(s: ClientState, message: ServerMessage, action: ClientAction)
    requires
        asks(s, message, action),
    ensures
        action is OpenChannels <==> (message matches ServerMessage::Accepted { name, proto, .. }
            && s.status.contains_key(name@) && proto != Proto::Tcp),
        action is Dial <==> (message matches ServerMessage::NewConn { tunnel, .. }
            && s.status.contains_key(tunnel@)),
        action is Close <==> (message matches ServerMessage::Error { fatal, .. } && fatal),
        message matches ServerMessage::Error { message: text, fatal } ==> fatal
            ==> action->message@ == text@,
        message matches ServerMessage::NewConn {
            id,
            tunnel,
            local_port,
            src_addr,
            dst_addr,
            encrypted,
            data_auth,
        } ==> s.status.contains_key(tunnel@) ==> (action matches ClientAction::Dial {
            first,
            encrypted: tls,
            local,
            header: head,
        } && {
            &&& tls == encrypted
            &&& first@ matches MessageView::DataHello { token, id: dialed, data_auth: auth } && {
                &&& dialed == id
                &&& token == (if encrypted {
                    Some(s.secret)
                } else {
                    None
                })
                &&& auth == option_view(data_auth)
            }
            &&& local.spec_ip() == s.status[tunnel@].local_addr.spec_ip()
            &&& local_port is None ==> local == s.status[tunnel@].local_addr
            &&& local_port matches Some(port) ==> port != 0 ==> local.spec_port() == port
            &&& head@ == header(s.status[tunnel@].proxy_protocol, src_addr, dst_addr)
        }),
{
}

/// Counting the traffic of a tunnel changes the counters of that tunnel and nothing else.
pub proof fn law_counters_of_one_tunnel(
    status: Map<Seq<char>, StatusView>,
    name: Seq<char>,
    counters: Counters,
    other: Seq<char>,
)
    ensures
        ({
            let after = with_counters(status, name, counters);
            &&& after.contains_key(other) <==> status.contains_key(other)
            &&& status.contains_key(other) && other != name ==> after[other] == status[other]
            &&& status.contains_key(name) ==> after[name] == (StatusView {
                counters,
                ..status[name]
            })
        }),
{
}

/// A connection that ended in order adds the bytes that went each way, one that did not adds none,
/// and either is no longer active. Counters do not wrap round before they are full.
pub proof fn law_splice_counts(c: Counters, into_local: u64, out_remote: u64)
    ensures
        c.bytes_in + into_local <= u64::MAX ==> after_splice(
            c,
            Some((into_local, out_remote)),
        ).bytes_in == c.bytes_in + into_local,
        c.bytes_out + out_remote <= u64::MAX ==> after_splice(
            c,
            Some((into_local, out_remote)),
        ).bytes_out == c.bytes_out + out_remote,
        after_splice(c, None).bytes_in == c.bytes_in,
        after_splice(c, None).bytes_out == c.bytes_out,
        c.active > 0 ==> after_splice(c, Some((into_local, out_remote))).active == c.active - 1,
        c.active > 0 ==> after_splice(c, None).active == c.active - 1,
{
}

/// A tunnel that a client asks for and the relay grants gets a public port for each port of its
/// local port selection, or one if it has none, and the i-th binding leads to the i-th selected
/// port. The client then shows these bindings under its public host.
pub proof fn law_tunnel_gets_its_ports(
    client: ClientState,
    t: TunnelView,
    request: ClientMessage,
    relay: ServerState,
    session: u128,
    ports: Seq<u16>,
    relay_after: ServerState,
    ports_after: Seq<u16>,
    reg: Registration,
    bound: nat,
    grants: Seq<Grant>,
    answer: ServerMessage,
)
    requires
        request@ == registration(t),
        control_step(
            relay,
            session,
            ports,
            request,
            relay_after,
            ports_after,
            ControlStep::Register { outcome: Ok(reg) },
        ),
        is_acceptance(answer, relay.bind_addr, RegistrationView { bound, ..reg@ }, grants),
        client.status.contains_key(t.name),
    ensures
        answer matches ServerMessage::Accepted { name, proto, encrypted, bindings, .. } && {
            let status = after_message(client, answer).status[t.name];
            &&& name@ == t.name
            &&& proto == t.protocol
            &&& encrypted == t.encrypted
            &&& t.local_ports is None ==> bindings@.len() == 1 && bindings@[0].local_port == 0
            &&& t.local_ports matches Some(text) ==> (parsed_local_ports(text) matches Ok(
                (selected, range),
            ) && {
                &&& bindings@.len() == selected.len()
                &&& forall|i: int|
                    0 <= i < selected.len() ==> (#[trigger] bindings@[i]).local_port == selected[i]
            })
            &&& t.remote_port matches Some(first) ==> first != 0 ==> bindings@[0].remote_port
                == first
            &&& forall|i: int|
                0 <= i < bindings@.len() ==> relay.min_port <= (#[trigger] bindings@[i]).remote_port
                    <= relay.max_port
            &&& status.up
            &&& status.bindings.len() == bindings@.len()
            &&& forall|i: int|
                0 <= i < bindings@.len() ==> (#[trigger] status.bindings[i]).local_port
                    == bindings@[i].local_port && status.bindings[i].remote_port
                    == bindings@[i].remote_port && status.bindings[i].public == public_host(client)
                    + ":"@ + dec(bindings@[i].remote_port as nat)
        },
{
    let step = ControlStep::Register { outcome: Ok(reg) };
    let v = RegistrationView { bound, ..reg@ };
    law_control_frames(relay, session, ports, request, relay_after, ports_after, step);
    match request {
        ClientMessage::Register {
            name,
            proto,
            remote_port,
            local_ports,
            encrypted,
            udp_mtu,
        } => {
            let wanted = RegisterRequest {
                name,
                proto,
                remote_port,
                local_ports,
                encrypted,
                udp_mtu,
            };
            law_request_gets_its_ports(relay.ports(), wanted, reg@.requests);
        },
        _ => {},
    }
    match answer {
        ServerMessage::Accepted { bindings, .. } => {
            assert forall|i: int| 0 <= i < bindings@.len() implies (
            #[trigger] bindings@[i]).local_port == reg@.requests[i].local_port
                && bindings@[i].remote_port == reg@.requests[i].remote_port by {
                assert(bindings@[i]@ == accepted_binding(relay.bind_addr, v, grants, i));
            }
            assert(accepted_views(bindings@).len() == bindings@.len());
            let status = after_message(client, answer).status[t.name];
            assert forall|i: int| 0 <= i < bindings@.len() implies (
            #[trigger] status.bindings[i]).local_port == bindings@[i].local_port
                && status.bindings[i].remote_port == bindings@[i].remote_port
                && status.bindings[i].public == public_host(client) + ":"@ + dec(
                bindings@[i].remote_port as nat,
            ) by {
                assert(accepted_views(bindings@)[i] == bindings@[i]@);
            }
        },
        _ => {},
    }
}

/// A client that joins by the connection code of a server knows what it needs to connect: the host
/// and port of that server, the fingerprint of its certificate and its secret. They are kept in the
/// config file, and the tunnels of the file stay as they are.
pub proof fn law_joined_client_connects(
    server: ServerSettings,
    fingerprint: Seq<char>,
    info: ConnectionInfo,
    file: ClientFile,
    config_path: String,
    web_bind: Option<String>,
    public_addr: Option<String>,
    r: ClientSettings,
)
    requires
        invites(server, fingerprint, info),
        joins(info, file, config_path, web_bind, public_addr, r),
    ensures
        server.public_host matches Some(host) && r.server_addr@ == host@ + ":"@ + dec(
            server.control_port as nat,
        ),
        r.secret@ == server.secret@,
        r.server_fingerprint@ == fingerprint,
        r.file@.server_addr == Some(r.server_addr@),
        r.file@.server_fingerprint == Some(fingerprint),
        r.file@.secret == Some(server.secret@),
        r.file@.web_bind == Some(r.web_bind@),
        r.file@.public_addr == option_view(r.public_addr),
        r.file@.tunnels == file@.tunnels,
        r.file@.tunnels_paused == file@.tunnels_paused,
        r.file@.log_mode == file@.log_mode,
        r.file@.log_level == file@.log_level,
        r.file@.log_directory == file@.log_directory,
        r.file@.log_max_files == file@.log_max_files,
        option_view(r.config_path) == Some(config_path@),
        web_bind matches Some(bind) ==> r.web_bind@ == bind@,
        web_bind is None ==> (file.web_bind matches Some(bind) ==> r.web_bind@ == bind@),
        public_addr matches Some(host) ==> option_view(r.public_addr) == Some(host@),
        public_addr is None ==> option_view(r.public_addr) == file@.public_addr,
{
}

/// A server that lists no bindings grants one public port, which leads to the local endpoint of the
/// tunnel itself and carries the token, key and packet size of the answer.
pub proof fn law_single_grant(message: ServerMessage, s: StatusView)
    requires
        message matches ServerMessage::Accepted { bindings, .. } && bindings@.len() == 0,
    ensures
        granted_list(message).len() == 1,
        message matches ServerMessage::Accepted {
            remote_port,
            token,
            udp_auth_key,
            udp_mtu,
            ..
        } && {
            let b = granted_list(message)[0];
            &&& b.remote_port == remote_port
            &&& b.token == token
            &&& b.udp_auth_key == option_view(udp_auth_key)
            &&& b.udp_mtu == udp_mtu
            &&& local_target(s.local_addr, b.local_port) == s.local_addr
        },
{
}

/// A server that lists bindings grants exactly those, in order.
pub proof fn law_listed_grants(message: ServerMessage, i: int)
    requires
        message matches ServerMessage::Accepted { bindings, .. } && 0 <= i < bindings@.len(),
    ensures
        message matches ServerMessage::Accepted { bindings, .. } && granted_list(message).len()
            == bindings@.len() && {
            let b = granted_list(message)[i];
            &&& b.local_port == bindings@[i].local_port
            &&& b.remote_port == bindings@[i].remote_port
            &&& b.token == bindings@[i].token
            &&& b.udp_auth_key == option_view(bindings@[i].udp_auth_key)
            &&& b.udp_mtu == bindings@[i].udp_mtu
        },
{
}

/// A row shows its tunnel as it is, and latencies for the tunnels that have them: those with
/// plaintext UDP.
pub proof fn law_rows_show_status(status: Map<Seq<char>, StatusView>, row: TunnelRow)
    requires
        shows(status, row),
    ensures
        status.contains_key(row.name@),
        row.proto == status[row.name@].proto,
        row.local_addr == status[row.name@].local_addr,
        row.remote_port == status[row.name@].remote_port,
        option_view(row.local_ports) == status[row.name@].local_ports,
        row.encrypted == status[row.name@].encrypted,
        row.udp_mtu == status[row.name@].udp_mtu,
        pool_view(row.udp_source_pool) == status[row.name@].udp_source_pool,
        row.proxy_protocol == status[row.name@].proxy_protocol,
        row.enabled == status[row.name@].enabled,
        option_view(row.public_addr) == status[row.name@].public_addr,
        binding_views(row.bindings@) == status[row.name@].bindings,
        row.up == status[row.name@].up,
        option_view(row.error) == status[row.name@].error,
        row.counters == status[row.name@].counters,
        row.diagnosed <==> status[row.name@].proto != Proto::Tcp && !status[row.name@].encrypted,
{
}

/// The first tunnel of a name comes before all others of that name, and there is one unless no
/// tunnel has the name.
pub proof fn law_first_of_name(tunnels: Seq<TunnelView>, name: Seq<char>)
    ensures
        first_named(tunnels, name) matches Some(i) ==> {
            &&& 0 <= i < tunnels.len()
            &&& tunnels[i].name == name
            &&& forall|j: int| 0 <= j < i ==> (#[trigger] tunnels[j]).name != name
        },
        first_named(tunnels, name) is None ==> forall|j: int|
            0 <= j < tunnels.len() ==> (#[trigger] tunnels[j]).name != name,
    decreases tunnels.len(),
{
    if tunnels.len() > 0 {
        let front = tunnels.drop_last();
        law_first_of_name(front, name);
        assert forall|j: int| 0 <= j < front.len() implies front[j] == #[trigger] tunnels[j] by {}
        if first_named(front, name) is None {
            assert forall|j: int| 0 <= j < front.len() implies (#[trigger] tunnels[j]).name
                != name by {
                assert(front[j].name != name);
            }
        } else {
            let i = first_named(front, name)->0;
            assert(tunnels[i] == front[i]);
            assert forall|j: int| 0 <= j < i implies (#[trigger] tunnels[j]).name != name by {
                assert(front[j].name != name);
            }
        }
    }
}

/// The handshake: a client gets its control connection exactly when its secret is that of the
/// server. It then learns the public-port range of the server and registers its enabled tunnels,
/// unless they are paused. Otherwise it is told why, and nothing changes.
pub proof fn law_handshake(
    server: ServerState,
    client: ClientState,
    first: ClientMessage,
    answer: ServerMessage,
    after: ClientState,
    r: Result<Vec<ClientMessage>, HandshakeError>,
)
    requires
        first@ == control_hello(client),
        tls_route(server.secret, first) is Control ==> answer == welcome_of(server),
        tls_route(server.secret, first) is AuthFailed ==> refuses_auth(answer),
        handshake(client, answer, after, r),
    ensures
        tls_route(server.secret, first) is Control <==> client.secret == server.secret,
        client.secret == server.secret ==> {
            &&& after.connected
            &&& after.min_port == server.min_port
            &&& after.max_port == server.max_port
            &&& after.file == client.file
            &&& r matches Ok(messages) && message_views(messages@) == (
            if client.file.tunnels_paused {
                Seq::empty()
            } else {
                client.file.tunnels.filter(|t: TunnelView| t.enabled).map_values(
                    |t: TunnelView| registration(t),
                )
            })
        },
        client.secret != server.secret ==> {
            &&& after == client
            &&& r matches Err(HandshakeError::Refused { message }) && message@
                == "authentication failed"@
        },
{
    lemma_registrations_filter(client.file.tunnels);
}

proof fn lemma_registrations_filter(tunnels: Seq<TunnelView>)
    ensures
        registrations(tunnels) == tunnels.filter(|t: TunnelView| t.enabled).map_values(
            |t: TunnelView| registration(t),
        ),
    decreases tunnels.len(),
{
    let on = |t: TunnelView| t.enabled;
    let register = |t: TunnelView| registration(t);
    reveal(Seq::filter);
    if tunnels.len() > 0 {
        lemma_registrations_filter(tunnels.drop_last());
        let front = tunnels.drop_last().filter(on);
        if tunnels.last().enabled {
            assert(tunnels.filter(on) == front.push(tunnels.last()));
            assert(front.push(tunnels.last()).map_values(register) =~= front.map_values(
                register,
            ).push(registration(tunnels.last())));
        }
    } else {
        assert(tunnels.filter(on).map_values(register) =~= Seq::empty());
    }
}

/// A client that joined by the connection code of a server may connect to it: it knows where the
/// server is, and the server takes its first frame.
pub proof fn law_joined_client_is_let_in(
    settings: ServerSettings,
    fingerprint: Seq<char>,
    info: ConnectionInfo,
    file: ClientFile,
    config_path: String,
    web_bind: Option<String>,
    public_addr: Option<String>,
    joined: ClientSettings,
    first: ClientMessage,
)
    requires
        invites(settings, fingerprint, info),
        joins(info, file, config_path, web_bind, public_addr, joined),
        first@ == control_hello(fresh_client(joined)),
    ensures
        tls_route(fresh_server(settings).secret, first) is Control,
        settings.public_host matches Some(host) && fresh_client(joined).server_addr
            == endpoint_text(host@, settings.control_port),
        joined.server_fingerprint@ == fingerprint,
        fresh_client(joined).file.tunnels == file@.tunnels,
        !fresh_client(joined).connected,
        fresh_server(settings).min_port == settings.min_port,
        fresh_server(settings).max_port == settings.max_port,
        fresh_server(settings).tunnels.dom() == Set::<u16>::empty(),
{
}

/// The data connection of an encrypted UDP channel reaches the tunnel whose token it names, as long
/// as that tunnel waits for one.
pub proof fn law_channel_reaches_tunnel(
    server: ServerState,
    client: ClientState,
    token: u128,
    first: ClientMessage,
)
    requires
        client.secret == server.secret,
        first@ == channel_hello_of(client, token),
        server.udp_pending.contains_key(token),
        !server.pending.contains_key(token),
    ensures
        tls_route(server.secret, first) == (TlsRoute::Data { id: token }),
        data_route(server, token) == (DataRoute::Channel { pending: server.udp_pending[token] }),
{
}

/// A connection that opened and closed leaves the number of connections as it was, and while it is
/// open it counts as one more.
pub proof fn law_connections_counted(c: Counters, copied: Option<(u64, u64)>)
    ensures
        after_splice(after_open(c), copied).active == c.active,
        c.active < u32::MAX ==> after_open(c).active == c.active + 1,
        after_open(c).bytes_in == c.bytes_in,
        after_open(c).bytes_out == c.bytes_out,
{
}

/// Toggling a tunnel turns it over: it is disabled where it was enabled, and enabled where it was
/// not.
pub proof fn law_toggle_turns_over(s: ClientState, name: Seq<char>, i: int, command: Command)
    requires
        toggles(s, name, command),
        0 <= i < s.file.tunnels.len(),
        s.file.tunnels[i].name == name,
        forall|j: int| 0 <= j < i ==> (#[trigger] s.file.tunnels[j]).name != name,
        s.status.contains_key(name),
    ensures
        ({
            let after = after_command(s, command);
            &&& after.status.contains_key(name)
            &&& after.status[name].enabled == !s.status[name].enabled
            &&& after.file.tunnels[i].enabled == !s.status[name].enabled
            &&& after.file.tunnels.len() == s.file.tunnels.len()
        }),
{
    law_first_of_name(s.file.tunnels, name);
    let k = first_named(s.file.tunnels, name);
    if k is Some {
        if k->0 < i {
            assert(s.file.tunnels[k->0].name != name);
        }
        assert(k->0 == i);
    } else {
        assert(s.file.tunnels[i].name != name);
    }
}

}
