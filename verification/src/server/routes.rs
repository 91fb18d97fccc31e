//! Which inbound connections the relay lets in, and what each of them is for.

use crate::addr::SocketAddr;
use crate::auth::verify_token;
use crate::config::{option_view, parsed_local_ports, udp_mtu_error, MtuError};
use crate::crypto::{base64url, is_uuid_v4};
use crate::crypto::{random_key, random_uuid};
use crate::maps::{get_conn, insert_conn, insert_udp, remove_conn, remove_udp};
use crate::protocol::{encode_udp_auth_key, ClientMessage, Proto, ServerMessage};
use crate::server::{
    ConnEntry, PendingConn, PendingUdp, RegisterRequest, Registration, RegistrationView, Server,
    ServerState, Session, TunnelEntry,
};
use crate::server::{
    allocates, grants, is_rejection, kept_ports, law_request_gets_its_ports, lists_named, refuses,
    requests_port, with_ports, without_named, without_udp, AllocError, BindingRequest,
};
use vstd::prelude::*;

verus! {

/// The first byte of a TLS handshake.
pub const TLS_HANDSHAKE: u8 = 0x16;

/// What the first byte of a connection announces.
#[derive(Debug, Clone, Copy, PartialEq, Eq, Structural)]
pub enum Inbound {
    /// The connection closed before its first byte.
    Closed,
    /// A plaintext data connection.
    Plain,
    Tls,
}

/// What the first byte of a connection, if there is one, makes of it.
pub open spec fn inbound(first: Option<u8>) -> Inbound {
    match first {
        None => Inbound::Closed,
        Some(byte) => if byte == TLS_HANDSHAKE {
            Inbound::Tls
        } else {
            Inbound::Plain
        },
    }
}

/// A connection starts TLS with a handshake record and is plaintext otherwise.
pub proof fn law_connections_told_apart(byte: u8)
    ensures
        inbound(Some(byte)) is Tls <==> byte == 22,
        inbound(Some(byte)) is Plain <==> byte != 22,
        inbound(None) is Closed,
{
}

/// Tell connections apart by their first byte, if there is one.
pub fn classify_inbound(first: Option<u8>) -> (r: Inbound)
    ensures
        r == inbound(first),
{
    match first {
        None => Inbound::Closed,
        Some(byte) => if byte == TLS_HANDSHAKE {
            Inbound::Tls
        } else {
            Inbound::Plain
        },
    }
}

// ---------------------------------------------------------------------------
// The first frame of a TLS connection
// ---------------------------------------------------------------------------

/// What the first frame of a TLS connection makes of it.
#[derive(Debug, Clone, Copy, PartialEq, Eq, Structural)]
pub enum TlsRoute {
    /// A control connection.
    Control,
    /// A data connection.
    Data { id: u128 },
    /// The shared token is wrong: answer with `auth_error` and close.
    AuthFailed,
    /// The frame is no first frame.
    Unexpected,
}

/// The text of a token that may be missing.
pub open spec fn token_text(token: Option<String>) -> Seq<char> {
    match token {
        Some(t) => t@,
        None => Seq::empty(),
    }
}

/// What the first frame of a TLS connection makes of it, for a shared secret.
pub open spec fn tls_route(secret: Seq<char>, first: ClientMessage) -> TlsRoute {
    match first {
        ClientMessage::Hello { token } => if token@ == secret {
            TlsRoute::Control
        } else {
            TlsRoute::AuthFailed
        },
        ClientMessage::DataHello { token, id, .. } => if token_text(token) == secret {
            TlsRoute::Data { id }
        } else {
            TlsRoute::AuthFailed
        },
        _ => TlsRoute::Unexpected,
    }
}

/// A TLS connection is let in only on the shared secret.
pub proof fn law_tls_needs_secret(secret: Seq<char>, first: ClientMessage)
    requires
        tls_route(secret, first) is Control || tls_route(secret, first) is Data,
    ensures
        match first {
            ClientMessage::Hello { token } => token@ == secret,
            ClientMessage::DataHello { token, .. } => token_text(token) == secret,
            _ => false,
        },
{
}

/// Whether a message is the answer to a wrong token.
pub open spec fn refuses_auth(message: ServerMessage) -> bool {
    message matches ServerMessage::Error { message: text, fatal } && text@
        == "authentication failed"@ && fatal
}

/// The answer to a wrong token.
pub fn auth_error() -> (r: ServerMessage)
    ensures
        refuses_auth(r),
{
    ServerMessage::Error { message: "authentication failed".to_string(), fatal: true }
}

// ---------------------------------------------------------------------------
// Data connections
// ---------------------------------------------------------------------------

/// What the first frame of a plaintext connection makes of it.
#[derive(Debug, Clone, Copy, PartialEq, Eq, Structural)]
pub enum PlainRoute {
    /// The data connection of the public connection with this id, which waits no longer.
    Splice { id: u128 },
    /// The connection did not start with `DataHello`.
    NotDataHello,
    /// The shared token was sent in the clear.
    SharedToken,
    /// There is nothing to authenticate the connection with.
    MissingAuth,
    /// No public connection waits under the id.
    UnknownId { id: u128 },
    /// The public connection waits for an encrypted data connection.
    EncryptedId { id: u128 },
    AuthFailed { id: u128 },
}

/// What the first frame of a plaintext connection makes of it.
pub open spec fn plain_route(pending: Map<u128, ConnEntry>, first: ClientMessage) -> PlainRoute {
    match first {
        ClientMessage::DataHello { token, id, data_auth } => {
            if token is Some {
                PlainRoute::SharedToken
            } else {
                match data_auth {
                    None => PlainRoute::MissingAuth,
                    Some(auth) => if !pending.contains_key(id) {
                        PlainRoute::UnknownId { id }
                    } else if pending[id].encrypted {
                        PlainRoute::EncryptedId { id }
                    } else if pending[id].data_auth != auth@ {
                        PlainRoute::AuthFailed { id }
                    } else {
                        PlainRoute::Splice { id }
                    },
                }
            }
        },
        _ => PlainRoute::NotDataHello,
    }
}

/// What a TLS data connection is for.
#[derive(Debug, Clone, Copy, PartialEq, Eq, Structural)]
pub enum DataRoute {
    /// The data connection of the public connection with the id, which waits no longer.
    Splice,
    /// The public connection waits for a plaintext data connection; it goes on waiting.
    PlaintextId,
    /// The data channel of an encrypted UDP tunnel.
    Channel { pending: PendingUdp },
    /// Nothing waits under the id.
    Unknown,
}

/// What a TLS data connection is for.
pub open spec fn data_route(s: ServerState, id: u128) -> DataRoute {
    if s.pending.contains_key(id) {
        if s.pending[id].encrypted {
            DataRoute::Splice
        } else {
            DataRoute::PlaintextId
        }
    } else if s.udp_pending.contains_key(id) {
        DataRoute::Channel { pending: s.udp_pending[id] }
    } else {
        DataRoute::Unknown
    }
}

/// A plaintext connection is spliced only if it presents the capability that was handed out for
/// the id, and never for a tunnel that is encrypted.
pub proof fn law_plain_needs_capability(
    pending: Map<u128, ConnEntry>,
    first: ClientMessage,
    id: u128,
)
    requires
        plain_route(pending, first) == (PlainRoute::Splice { id }),
    ensures
        pending.contains_key(id),
        !pending[id].encrypted,
        first matches ClientMessage::DataHello { token, id: dialed, data_auth } && token is None
            && dialed == id && option_view(data_auth) == Some(pending[id].data_auth),
{
}

/// A public connection that was just accepted.
pub struct UserConn {
    /// The name of the tunnel.
    pub tunnel: String,
    /// The local port behind the public port; 0 if the client did not name one.
    pub local_port: u16,
    pub encrypted: bool,
    /// Where the connection comes from.
    pub src_addr: Option<SocketAddr>,
    /// The public address it came to.
    pub dst_addr: Option<SocketAddr>,
}

/// The message that asks the client for a data connection.
pub open spec fn is_new_conn(
    message: ServerMessage,
    conn: UserConn,
    id: u128,
    data_auth: Seq<char>,
) -> bool {
    message matches ServerMessage::NewConn {
        id: asked,
        tunnel,
        local_port,
        src_addr,
        dst_addr,
        encrypted,
        data_auth: auth,
    } && {
        &&& asked == id
        &&& tunnel@ == conn.tunnel@
        &&& local_port == (if conn.local_port == 0 {
            None
        } else {
            Some(conn.local_port)
        })
        &&& src_addr == conn.src_addr
        &&& dst_addr == conn.dst_addr
        &&& encrypted == conn.encrypted
        &&& option_view(auth) == (if conn.encrypted {
            None
        } else {
            Some(data_auth)
        })
    }
}

/// The state after a public connection was accepted.
pub open spec fn with_conn(
    s: ServerState,
    conn: UserConn,
    id: u128,
    data_auth: Seq<char>,
) -> ServerState {
    ServerState {
        pending: s.pending.insert(id, ConnEntry { data_auth, encrypted: conn.encrypted }),
        ..s
    }
}

/// Whether a public connection was accepted under an id and a capability.
pub open spec fn accepts(
    before: ServerState,
    after: ServerState,
    conn: UserConn,
    id: u128,
    data_auth: Seq<char>,
    message: ServerMessage,
) -> bool {
    &&& is_new_conn(message, conn, id, data_auth)
    &&& after == with_conn(before, conn, id, data_auth)
}

/// The data connection that a client dials for `NewConn`.
pub open spec fn answers_new_conn(
    secret: Seq<char>,
    message: ServerMessage,
    first: ClientMessage,
) -> bool {
    &&& message matches ServerMessage::NewConn { id, encrypted, data_auth, .. }
    &&& first matches ClientMessage::DataHello { token, id: dialed, data_auth: auth }
    &&& {
        &&& dialed == id
        &&& option_view(token) == (if encrypted {
            Some(secret)
        } else {
            None
        })
        &&& option_view(auth) == option_view(data_auth)
    }
}

/// A data connection dialed for a public connection is spliced to it: the id, the shared secret
/// (encrypted) or the capability (plaintext) that the client sends back are what the relay waits
/// for.
pub proof fn law_dialed_conn_is_spliced(
    s: ServerState,
    conn: UserConn,
    id: u128,
    data_auth: Seq<char>,
    message: ServerMessage,
    first: ClientMessage,
)
    requires
        is_new_conn(message, conn, id, data_auth),
        answers_new_conn(s.secret, message, first),
    ensures
        conn.encrypted ==> tls_route(s.secret, first) == (TlsRoute::Data { id }) && data_route(
            with_conn(s, conn, id, data_auth),
            id,
        ) is Splice,
        !conn.encrypted ==> plain_route(with_conn(s, conn, id, data_auth).pending, first) == (
        PlainRoute::Splice { id }),
{
}

/// A public connection whose data connection does not come leaves nothing behind.
pub proof fn law_dropped_conn_leaves_no_trace(
    s: ServerState,
    conn: UserConn,
    id: u128,
    data_auth: Seq<char>,
)
    requires
        !s.pending.contains_key(id),
    ensures
        with_conn(s, conn, id, data_auth).pending.remove(id) == s.pending,
{
    assert(with_conn(s, conn, id, data_auth).pending.remove(id) =~= s.pending);
}

/// While a tunnel is alive its data channel can be dialed again: once the channel closed, the
/// token opens it as before.
pub proof fn law_channel_can_be_redialed(s: ServerState, id: u128)
    requires
        data_route(s, id) is Channel,
    ensures
        s.udp_pending.remove(id).insert(id, data_route(s, id)->pending) == s.udp_pending,
{
    assert(s.udp_pending.remove(id).insert(id, s.udp_pending[id]) =~= s.udp_pending);
}

// ---------------------------------------------------------------------------
// Control connections
// ---------------------------------------------------------------------------

/// What came of a frame on a control connection.
pub enum ControlStep {
    /// A registration whose sockets are to be bound, or the refusal to send.
    Register { outcome: Result<Registration, ServerMessage> },
    /// A tunnel is gone; its public ports.
    Unregistered { ports: Vec<u16> },
    /// A sign of life.
    Alive,
    /// The frame does not belong on a control connection: close it.
    Unexpected,
}

/// What `begin_register` makes of a request.
pub open spec fn registers(
    before: ServerState,
    after: ServerState,
    session: u128,
    request: RegisterRequest,
    outcome: Result<Registration, ServerMessage>,
) -> bool {
    match outcome {
        Ok(reg) => {
            &&& grants(before.ports(), request, reg@.requests)
            &&& reg@ == (RegistrationView {
                session,
                name: request.name@,
                proto: request.proto,
                encrypted: request.encrypted,
                udp_mtu: crate::config::spec_resolved_udp_mtu(request.proto, request.udp_mtu),
                requests: reg@.requests,
                bound: 0,
            })
            &&& after == (ServerState {
                tunnels: with_ports(
                    before.tunnels,
                    reg@.requests,
                    TunnelEntry { name: request.name@, session },
                ),
                ..before
            })
        },
        Err(message) => {
            &&& after == before
            &&& exists|reason: Seq<char>| #[trigger]
                is_rejection(message, request.name@, reason) && refuses(
                    before.ports(),
                    request,
                    reason,
                )
        },
    }
}

/// What a frame of a control connection does, for the session `id` with the public ports `ports`.
pub open spec fn control_step(
    s: ServerState,
    id: u128,
    ports: Seq<u16>,
    message: ClientMessage,
    after: ServerState,
    ports_after: Seq<u16>,
    step: ControlStep,
) -> bool {
    match message {
        ClientMessage::Register {
            name,
            proto,
            remote_port,
            local_ports,
            encrypted,
            udp_mtu,
        } => {
            let request = RegisterRequest {
                name,
                proto,
                remote_port,
                local_ports,
                encrypted,
                udp_mtu,
            };
            &&& step matches ControlStep::Register { outcome } && registers(
                s,
                after,
                id,
                request,
                outcome,
            )
            &&& ports_after == ports
        },
        ClientMessage::Unregister { name } => {
            &&& step matches ControlStep::Unregistered { ports: freed } && {
                &&& lists_named(s.tunnels, id, name@, freed@)
                &&& after == (ServerState {
                    tunnels: without_named(s.tunnels, id, name@),
                    udp_pending: without_udp(s.udp_pending, id, freed@),
                    ..s
                })
                &&& ports_after == kept_ports(ports, freed@)
            }
        },
        ClientMessage::Heartbeat => step is Alive && after == s && ports_after == ports,
        _ => step is Unexpected && after == s && ports_after == ports,
    }
}

/// The state after a public connection waits no longer.
pub open spec fn without_conn(s: ServerState, id: u128) -> ServerState {
    ServerState { pending: s.pending.remove(id), ..s }
}

/// The state after the first frame of a plaintext connection.
pub open spec fn after_plain_route(s: ServerState, route: PlainRoute) -> ServerState {
    match route {
        PlainRoute::Splice { id } => without_conn(s, id),
        _ => s,
    }
}

/// The state after a TLS data connection.
pub open spec fn after_data_route(s: ServerState, id: u128, route: DataRoute) -> ServerState {
    match route {
        DataRoute::Splice => without_conn(s, id),
        DataRoute::Channel { .. } => ServerState { udp_pending: s.udp_pending.remove(id), ..s },
        _ => s,
    }
}

/// The state after the data channel of a UDP tunnel closed.
pub open spec fn after_channel_closed(
    s: ServerState,
    id: u128,
    pending: PendingUdp,
    cancelled: bool,
) -> ServerState {
    if cancelled {
        s
    } else {
        ServerState { udp_pending: s.udp_pending.insert(id, pending), ..s }
    }
}

/// The answer to a client that may connect.
pub open spec fn welcome_of(s: ServerState) -> ServerMessage {
    ServerMessage::Welcome { min_port: s.min_port, max_port: s.max_port }
}

impl Server {
    /// The first frame after a successful `Hello`: the allowed public-port range.
    pub fn welcome(&self) -> (r: ServerMessage)
        ensures
            r == welcome_of(self@),
    {
        ServerMessage::Welcome {
            min_port: self.settings.min_port,
            max_port: self.settings.max_port,
        }
    }

    /// Decide what the first frame of a TLS connection makes of it.
    pub fn route_tls(&self, first: &ClientMessage) -> (r: TlsRoute)
        ensures
            r == tls_route(self@.secret, *first),
    {
        match first {
            ClientMessage::Hello { token } => {
                if verify_token(&self.settings.secret, token) {
                    TlsRoute::Control
                } else {
                    TlsRoute::AuthFailed
                }
            },
            ClientMessage::DataHello { token, id, .. } => {
                let ok = match token {
                    Some(t) => verify_token(&self.settings.secret, t),
                    None => {
                        proof {
                            reveal_strlit("");
                            assert(""@ =~= Seq::<char>::empty());
                        }
                        verify_token(&self.settings.secret, "")
                    },
                };
                if ok {
                    TlsRoute::Data { id: *id }
                } else {
                    TlsRoute::AuthFailed
                }
            },
            _ => TlsRoute::Unexpected,
        }
    }

    /// Decide what the first frame of a plaintext connection makes of it. The public connection
    /// that it is spliced to waits no longer.
    pub fn route_plain(&mut self, first: &ClientMessage) -> (r: PlainRoute)
        ensures
            r == plain_route(old(self)@.pending, *first),
            final(self)@ == after_plain_route(old(self)@, r),
    {
        match first {
            ClientMessage::DataHello { token, id, data_auth } => {
                if token.is_some() {
                    return PlainRoute::SharedToken;
                }
                let auth = match data_auth {
                    Some(auth) => auth,
                    None => {
                        return PlainRoute::MissingAuth;
                    },
                };
                let id: u128 = *id;
                match get_conn(&self.pending, id) {
                    None => PlainRoute::UnknownId { id },
                    Some(entry) => {
                        if entry.encrypted {
                            PlainRoute::EncryptedId { id }
                        } else if !verify_token(&entry.data_auth, auth) {
                            PlainRoute::AuthFailed { id }
                        } else {
                            let _ = self.drop_conn(id);
                            PlainRoute::Splice { id }
                        }
                    },
                }
            },
            _ => PlainRoute::NotDataHello,
        }
    }

    /// Decide what a TLS data connection is for. What it is for waits no longer.
    pub fn route_data(&mut self, id: u128) -> (r: DataRoute)
        ensures
            r == data_route(old(self)@, id),
            final(self)@ == after_data_route(old(self)@, id, r),
    {
        match get_conn(&self.pending, id) {
            Some(entry) => {
                if !entry.encrypted {
                    return DataRoute::PlaintextId;
                }
                let _ = self.drop_conn(id);
                DataRoute::Splice
            },
            None => {
                let ghost before = self@;
                match remove_udp(&mut self.udp_pending, id) {
                    Some(pending) => DataRoute::Channel { pending },
                    None => {
                        assert(before.udp_pending.remove(id) =~= before.udp_pending);
                        DataRoute::Unknown
                    },
                }
            },
        }
    }

    /// The data channel of a UDP tunnel closed. Unless the tunnel was removed meanwhile, its
    /// token stays valid, so that the client can dial the channel again.
    pub fn channel_closed(&mut self, id: u128, pending: PendingUdp, cancelled: bool)
        ensures
            final(self)@ == after_channel_closed(old(self)@, id, pending, cancelled),
    {
        if !cancelled {
            insert_udp(&mut self.udp_pending, id, pending);
        }
    }

    /// Accept a public connection under a given id and capability. It waits for its data
    /// connection; the message asks the client for it.
    pub fn accept_user_conn_with(&mut self, conn: UserConn, id: u128, data_auth: String) -> (r:
        ServerMessage)
        ensures
            is_new_conn(r, conn, id, data_auth@),
            final(self)@ == with_conn(old(self)@, conn, id, data_auth@),
    {
        let ghost before = self@;
        let ghost auth_text = data_auth@;
        let auth = if conn.encrypted {
            None
        } else {
            Some(data_auth.clone())
        };
        insert_conn(
            &mut self.pending,
            id,
            PendingConn { data_auth, encrypted: conn.encrypted },
        );
        assert(self@ =~= with_conn(before, conn, id, auth_text));
        ServerMessage::NewConn {
            id,
            tunnel: conn.tunnel,
            local_port: if conn.local_port == 0 {
                None
            } else {
                Some(conn.local_port)
            },
            src_addr: conn.src_addr,
            dst_addr: conn.dst_addr,
            encrypted: conn.encrypted,
            data_auth: auth,
        }
    }

    /// Accept a public connection under a random id and capability. It waits for its data
    /// connection; the message asks the client for it.
    pub fn accept_user_conn(&mut self, conn: UserConn) -> (r: (u128, ServerMessage))
        ensures
            is_uuid_v4(r.0),
            exists|key: Seq<u8>|
                key.len() == 32 && #[trigger] accepts(
                    old(self)@,
                    final(self)@,
                    conn,
                    r.0,
                    base64url(key),
                    r.1,
                ),
    {
        let id = random_uuid();
        let key = random_key();
        let ghost before = self@;
        let message = self.accept_user_conn_with(conn, id, encode_udp_auth_key(&key));
        let r = (id, message);
        assert(key@.len() == 32 && accepts(before, self@, conn, r.0, base64url(key@), r.1));
        r
    }

    /// A public connection waits no longer: its client is gone, its tunnel was removed, or the
    /// data connection did not come in time. The result says whether it was still waiting.
    pub fn drop_conn(&mut self, id: u128) -> (r: bool)
        ensures
            r == old(self)@.pending.contains_key(id),
            final(self)@ == without_conn(old(self)@, id),
    {
        let ghost before = self@;
        let r = remove_conn(&mut self.pending, id);
        assert(self@ =~= ServerState { pending: before.pending.remove(id), ..before });
        r
    }

    /// Handle a frame of a control connection.
    pub fn on_control(&mut self, session: &mut Session, message: ClientMessage) -> (r: ControlStep)
        ensures
            control_step(
                old(self)@,
                old(session).id,
                old(session).ports@,
                message,
                final(self)@,
                final(session).ports@,
                r,
            ),
            final(session).id == old(session).id,
            final(session).udp_tokens@ == old(session).udp_tokens@,
            !(message is Unregister) ==> *final(session) == *old(session),
    {
        match message {
            ClientMessage::Register {
                name,
                proto,
                remote_port,
                local_ports,
                encrypted,
                udp_mtu,
            } => {
                let request = RegisterRequest {
                    name,
                    proto,
                    remote_port,
                    local_ports,
                    encrypted,
                    udp_mtu,
                };
                ControlStep::Register { outcome: self.begin_register(session.id, request) }
            },
            ClientMessage::Unregister { name } => {
                let ports = self.unregister(session, &name);
                ControlStep::Unregistered { ports }
            },
            ClientMessage::Heartbeat => ControlStep::Alive,
            _ => ControlStep::Unexpected,
        }
    }
}

// ---------------------------------------------------------------------------
// What the model says of connections
// ---------------------------------------------------------------------------

/// The shared secret opens a control connection, and a data connection for the id that it names. A
/// wrong one opens neither, and nothing else is a first frame.
pub proof fn law_tls_routes(secret: Seq<char>, first: ClientMessage)
    ensures
        match first {
            ClientMessage::Hello { token } => {
                &&& tls_route(secret, first) is Control <==> token@ == secret
                &&& tls_route(secret, first) is AuthFailed <==> token@ != secret
            },
            ClientMessage::DataHello { token, id, .. } => {
                &&& option_view(token) == Some(secret) ==> tls_route(secret, first) == (
                TlsRoute::Data { id })
                &&& token matches Some(t) ==> t@ != secret ==> tls_route(secret, first)
                    is AuthFailed
                &&& token is None && secret.len() > 0 ==> tls_route(secret, first) is AuthFailed
            },
            _ => tls_route(secret, first) is Unexpected,
        },
{
    if let ClientMessage::DataHello { token, .. } = first {
        if token is None && secret.len() > 0 {
            assert(token_text(token).len() != secret.len());
        }
    }
}

/// A plaintext connection is spliced to the public connection that waits under its id exactly if it
/// sends no shared secret, that connection waits for plaintext, and the capability is the one that
/// was handed out. What is refused goes on waiting, and so does every other connection.
pub proof fn law_plain_routes(s: ServerState, first: ClientMessage, other: u128)
    ensures
        ({
            let route = plain_route(s.pending, first);
            let after = after_plain_route(s, route);
            &&& first matches ClientMessage::DataHello { token, id, data_auth } ==> (route == (
            PlainRoute::Splice { id }) <==> {
                &&& token is None
                &&& s.pending.contains_key(id)
                &&& !s.pending[id].encrypted
                &&& option_view(data_auth) == Some(s.pending[id].data_auth)
            })
            &&& route is Splice ==> first is DataHello
            &&& route matches PlainRoute::Splice { id } ==> !after.pending.contains_key(id) && after
                == (ServerState { pending: after.pending, ..s }) && (other != id ==> (
            after.pending.contains_key(other) <==> s.pending.contains_key(other))
                && after.pending[other] == s.pending[other])
            &&& !(route is Splice) ==> after == s
        }),
{
}

/// A TLS data connection is spliced to the encrypted public connection that waits under its id, or
/// opens the data channel of the UDP tunnel that waits there. What it is for waits no longer, and
/// everything else goes on waiting.
pub proof fn law_data_routes(s: ServerState, id: u128, other: u128)
    ensures
        ({
            let route = data_route(s, id);
            let after = after_data_route(s, id, route);
            &&& route is Splice <==> s.pending.contains_key(id) && s.pending[id].encrypted
            &&& route is Channel <==> !s.pending.contains_key(id) && s.udp_pending.contains_key(id)
            &&& route matches DataRoute::Channel { pending } ==> pending == s.udp_pending[id]
            &&& route is Unknown <==> !s.pending.contains_key(id) && !s.udp_pending.contains_key(id)
            &&& route is Splice ==> !after.pending.contains_key(id) && after.udp_pending
                == s.udp_pending
            &&& route is Channel ==> !after.udp_pending.contains_key(id) && after.pending
                == s.pending
            &&& route is Unknown || route is PlaintextId ==> after == s
            &&& after.tunnels == s.tunnels
            &&& other != id ==> (after.pending.contains_key(other) <==> s.pending.contains_key(
                other,
            )) && (after.udp_pending.contains_key(other) <==> s.udp_pending.contains_key(other))
        }),
{
}

/// A data channel that closed can be opened again with its token, unless its tunnel was removed.
pub proof fn law_closed_channel_waits(s: ServerState, id: u128, pending: PendingUdp, other: u128)
    ensures
        after_channel_closed(s, id, pending, true) == s,
        !s.pending.contains_key(id) ==> data_route(after_channel_closed(s, id, pending, false), id)
            == (DataRoute::Channel { pending }),
        other != id ==> (after_channel_closed(s, id, pending, false).udp_pending.contains_key(other)
            <==> s.udp_pending.contains_key(other)),
        after_channel_closed(s, id, pending, false).tunnels == s.tunnels,
        after_channel_closed(s, id, pending, false).pending == s.pending,
{
}

/// The client is told everything about a public connection, encrypted or not: its id, its tunnel,
/// the local port that it is for, where it comes from and the public address it came to, and how
/// its data connection is to be made. Only a plaintext one comes with a capability.
pub proof fn law_announcement_tells_all(
    message: ServerMessage,
    conn: UserConn,
    id: u128,
    data_auth: Seq<char>,
)
    requires
        is_new_conn(message, conn, id, data_auth),
    ensures
        message matches ServerMessage::NewConn {
            id: asked,
            tunnel,
            local_port,
            src_addr,
            dst_addr,
            encrypted,
            data_auth: auth,
        } && {
            &&& asked == id
            &&& tunnel@ == conn.tunnel@
            &&& conn.local_port == 0 ==> local_port is None
            &&& conn.local_port != 0 ==> local_port == Some(conn.local_port)
            &&& (src_addr, dst_addr) == (conn.src_addr, conn.dst_addr)
            &&& encrypted == conn.encrypted
            &&& conn.encrypted ==> auth is None
            &&& !conn.encrypted ==> (auth matches Some(text) && text@ == data_auth)
        },
{
}

/// A public connection that was accepted waits under its id for a data connection of its kind, and
/// nothing else changes.
pub proof fn law_accepted_conn_waits(
    s: ServerState,
    conn: UserConn,
    id: u128,
    data_auth: Seq<char>,
    other: u128,
)
    ensures
        ({
            let after = with_conn(s, conn, id, data_auth);
            &&& after == (ServerState { pending: after.pending, ..s })
            &&& after.pending.contains_key(id)
            &&& after.pending[id].encrypted == conn.encrypted
            &&& after.pending[id].data_auth == data_auth
            &&& other != id ==> (after.pending.contains_key(other) <==> s.pending.contains_key(
                other,
            )) && after.pending[other] == s.pending[other]
            &&& without_conn(after, id).pending == s.pending.remove(id)
            &&& !without_conn(after, id).pending.contains_key(id)
        }),
{
    let after = with_conn(s, conn, id, data_auth);
    assert(without_conn(after, id).pending =~= s.pending.remove(id));
}

/// A request of a client is registered as it was made: with its name, its protocol and its
/// encryption, for the session it came from, with a public port for each local port that it
/// selects. One that is refused is refused under its name and changes nothing. A request to remove
/// a tunnel frees what the session holds under that name. A heartbeat changes nothing.
pub proof fn law_control_frames(
    s: ServerState,
    id: u128,
    ports: Seq<u16>,
    message: ClientMessage,
    after: ServerState,
    ports_after: Seq<u16>,
    step: ControlStep,
)
    requires
        control_step(s, id, ports, message, after, ports_after, step),
    ensures
        message matches ClientMessage::Register {
            name,
            proto,
            remote_port,
            local_ports,
            encrypted,
            udp_mtu,
        } ==> (step matches ControlStep::Register { outcome } && match outcome {
            Ok(reg) => {
                &&& reg@.name == name@
                &&& reg@.proto == proto
                &&& reg@.encrypted == encrypted
                &&& reg@.session == id
                &&& reg@.bound == 0
                &&& proto == Proto::Tcp ==> reg@.udp_mtu is None
                &&& proto != Proto::Tcp && udp_mtu is Some ==> reg@.udp_mtu == udp_mtu
                &&& proto != Proto::Tcp && udp_mtu is None ==> reg@.udp_mtu == Some(1200u16)
                &&& local_ports is None ==> reg@.requests.len() == 1 && reg@.requests[0].local_port
                    == 0
                &&& local_ports matches Some(text) ==> (parsed_local_ports(text@) matches Ok(
                    (list, range),
                ) && reg@.requests.len() == list.len() && forall|i: int|
                    0 <= i < list.len() ==> (#[trigger] reg@.requests[i]).local_port == list[i])
                &&& remote_port matches Some(first) ==> first != 0 ==> reg@.requests[0].remote_port
                    == first
                &&& after == (ServerState { tunnels: after.tunnels, ..s })
                &&& forall|i: int|
                    0 <= i < reg@.requests.len() ==> {
                        let port = (#[trigger] reg@.requests[i]).remote_port;
                        &&& !s.tunnels.contains_key(port)
                        &&& after.tunnels.contains_key(port)
                        &&& after.tunnels[port].name == name@
                        &&& after.tunnels[port].session == id
                    }
            },
            Err(answer) => after == s && (answer matches ServerMessage::Rejected { name: n, .. } && n@
                == name@),
        }),
        message matches ClientMessage::Unregister { name } ==> (step matches ControlStep::Unregistered {
            ports: freed,
        } && forall|port: u16|
            #![trigger after.tunnels.contains_key(port)]
            after.tunnels.contains_key(port) <==> s.tunnels.contains_key(port) && !(
            s.tunnels[port].session == id && s.tunnels[port].name == name@)),
        message is Heartbeat ==> step is Alive,
        !(message is Register) && !(message is Unregister) ==> after == s && ports_after == ports,
        !(message is Unregister) ==> ports_after == ports,
        after.pending == s.pending,
        after.secret == s.secret,
        after.min_port == s.min_port,
        after.max_port == s.max_port,
{
    match message {
        ClientMessage::Register {
            name,
            proto,
            remote_port,
            local_ports,
            encrypted,
            udp_mtu,
        } => {
            let request = RegisterRequest {
                name,
                proto,
                remote_port,
                local_ports,
                encrypted,
                udp_mtu,
            };
            match step {
                ControlStep::Register { outcome: Ok(reg) } => {
                    law_request_gets_its_ports(s.ports(), request, reg@.requests);
                    assert forall|i: int| 0 <= i < reg@.requests.len() implies {
                        let port = (#[trigger] reg@.requests[i]).remote_port;
                        &&& !s.tunnels.contains_key(port)
                        &&& after.tunnels.contains_key(port)
                        &&& after.tunnels[port].name == name@
                        &&& after.tunnels[port].session == id
                    } by {
                        let port = reg@.requests[i].remote_port;
                        assert(!s.ports().taken.contains(port));
                        assert(requests_port(reg@.requests, port));
                    }
                },
                _ => {},
            }
        },
        _ => {},
    }
}

/// A request that is refused changes nothing, and the answer names the tunnel and gives the reason:
/// a packet size that its protocol does not have or that is out of range, a port selection that
/// cannot be read, or else why no public ports could be had.
pub proof fn law_refused_request_is_told(
    before: ServerState,
    after: ServerState,
    session: u128,
    request: RegisterRequest,
    answer: ServerMessage,
)
    requires
        registers(before, after, session, request, Err::<Registration, _>(answer)),
    ensures
        after == before,
        answer matches ServerMessage::Rejected { name, reason } && name@ == request.name@ && {
            let size_refused = request.udp_mtu matches Some(mtu) && (request.proto == Proto::Tcp
                || !(256 <= mtu <= 65_507));
            let selection = if request.local_ports is None {
                Ok((seq![0u16], false))
            } else {
                parsed_local_ports(request.local_ports->0@)
            };
            &&& size_refused ==> exists|e: MtuError| reason@ == #[trigger] e.text()
            &&& !size_refused ==> match selection {
                Err(e) => reason@ == e.text(),
                Ok((ports, range)) => exists|e: AllocError|
                    reason@ == #[trigger] e.text() && allocates(
                        before.ports(),
                        ports,
                        range,
                        request.remote_port,
                        Err::<Seq<BindingRequest>, _>(e),
                    ),
            }
        },
{
    if let ServerMessage::Rejected { name, reason } = answer {
        let said = choose|said: Seq<char>| #[trigger]
            is_rejection(answer, request.name@, said) && refuses(before.ports(), request, said);
        assert(reason@ == said);
        if let Some(e) = udp_mtu_error(request.proto, request.udp_mtu) {
            assert(reason@ == e.text());
        }
    }
}

}
