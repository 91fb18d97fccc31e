//! The concurrent maps that server and client keep their state in.

use crate::client::TunnelStatus;
use crate::server::{PendingConn, PendingUdp, TunnelHandle};
use crate::udp_client::{FlowEntry, FlowKey};
use dashmap::DashMap;
use std::collections::hash_map::RandomState;
use vstd::prelude::*;

verus! {

/// The concurrent map of the `dashmap` crate.
#[verifier::external_type_specification]
#[verifier::external_body]
#[verifier::reject_recursive_types(K)]
#[verifier::reject_recursive_types(V)]
#[verifier::reject_recursive_types(S)]
pub struct ExDashMap<K, V, S>(DashMap<K, V, S>);

// ---------------------------------------------------------------------------
// Flows of a UDP channel
// ---------------------------------------------------------------------------

/// The flows that a map holds.
pub uninterp spec fn flow_map(m: DashMap<FlowKey, FlowEntry, RandomState>) -> Map<
    FlowKey,
    FlowEntry,
>;

/// No flow at all.
pub open spec fn no_flows() -> Map<FlowKey, FlowEntry> {
    Map::empty()
}

/// Whether a map holds `n` flows.
pub open spec fn counts_flows(m: Map<FlowKey, FlowEntry>, n: usize) -> bool {
    m.dom().finite() && n == m.dom().len()
}

/// Whether a list holds every entry of a map exactly once.
pub open spec fn lists_flows(
    m: Map<FlowKey, FlowEntry>,
    list: Seq<(FlowKey, FlowEntry)>,
) -> bool {
    &&& forall|i: int|
        0 <= i < list.len() ==> m.contains_key((#[trigger] list[i]).0) && m[list[i].0] == list[i].1
    &&& forall|key: FlowKey| #[trigger]
        m.contains_key(key) ==> exists|i: int|
            0 <= i < list.len() && (#[trigger] list[i]).0 == key
    &&& forall|i: int, j: int|
        0 <= i < j < list.len() ==> (#[trigger] list[i]).0 != (#[trigger] list[j]).0
}

/// `DashMap::new`: an empty map.
#[verifier::external_body]
pub(crate) fn new_flows() -> (r: DashMap<FlowKey, FlowEntry, RandomState>)
    ensures
        flow_map(r) == no_flows(),
{
    DashMap::new()
}

/// `DashMap::get`: the entry of a key, if there is one.
#[verifier::external_body]
pub(crate) fn get_flow(m: &DashMap<FlowKey, FlowEntry, RandomState>, key: FlowKey) -> (r: Option<
    FlowEntry,
>)
    ensures
        r == (if flow_map(*m).contains_key(key) {
            Some(flow_map(*m)[key])
        } else {
            None
        }),
{
    m.get(&key).map(|e| *e.value())
}

/// `DashMap::insert` adds an entry, in place of the one with the same key.
#[verifier::external_body]
pub(crate) fn insert_flow(
    m: &mut DashMap<FlowKey, FlowEntry, RandomState>,
    key: FlowKey,
    entry: FlowEntry,
)
    ensures
        flow_map(*final(m)) == flow_map(*old(m)).insert(key, entry),
{
    m.insert(key, entry);
}

/// `DashMap::remove` takes out the entry of a key, if there is one.
#[verifier::external_body]
pub(crate) fn remove_flow(m: &mut DashMap<FlowKey, FlowEntry, RandomState>, key: FlowKey) -> (r:
    Option<FlowEntry>)
    ensures
        flow_map(*final(m)) == flow_map(*old(m)).remove(key),
        r == (if flow_map(*old(m)).contains_key(key) {
            Some(flow_map(*old(m))[key])
        } else {
            None
        }),
{
    m.remove(&key).map(|e| e.1)
}

/// `DashMap::len`: the number of entries.
#[verifier::external_body]
pub(crate) fn count_flows(m: &DashMap<FlowKey, FlowEntry, RandomState>) -> (r: usize)
    ensures
        counts_flows(flow_map(*m), r),
{
    m.len()
}

/// `DashMap::iter`: every entry once, in an order that is left open.
#[verifier::external_body]
pub(crate) fn list_flows(m: &DashMap<FlowKey, FlowEntry, RandomState>) -> (r: Vec<
    (FlowKey, FlowEntry),
>)
    ensures
        lists_flows(flow_map(*m), r@),
{
    m.iter().map(|e| (*e.key(), *e.value())).collect()
}

// ---------------------------------------------------------------------------
// Public ports of a server
// ---------------------------------------------------------------------------

/// The tunnels that a map holds, by their public ports.
pub uninterp spec fn tunnel_map(m: DashMap<u16, TunnelHandle, RandomState>) -> Map<
    u16,
    TunnelHandle,
>;

/// No tunnel at all.
pub open spec fn no_tunnels() -> Map<u16, TunnelHandle> {
    Map::empty()
}

/// Whether a list holds every entry of a map exactly once: its port, the name of its tunnel and
/// its session.
pub open spec fn lists_tunnels(
    m: Map<u16, TunnelHandle>,
    list: Seq<(u16, String, u128)>,
) -> bool {
    &&& forall|i: int|
        0 <= i < list.len() ==> m.contains_key((#[trigger] list[i]).0) && m[list[i].0].name@
            == list[i].1@ && m[list[i].0].session == list[i].2
    &&& forall|port: u16| #[trigger]
        m.contains_key(port) ==> exists|i: int|
            0 <= i < list.len() && (#[trigger] list[i]).0 == port
    &&& forall|i: int, j: int|
        0 <= i < j < list.len() ==> (#[trigger] list[i]).0 != (#[trigger] list[j]).0
}

/// `DashMap::new`: an empty map.
#[verifier::external_body]
pub(crate) fn new_tunnels() -> (r: DashMap<u16, TunnelHandle, RandomState>)
    ensures
        tunnel_map(r) == no_tunnels(),
{
    DashMap::new()
}

/// `DashMap::contains_key`: whether a port has an entry.
#[verifier::external_body]
pub(crate) fn has_tunnel(m: &DashMap<u16, TunnelHandle, RandomState>, port: u16) -> (r: bool)
    ensures
        r == tunnel_map(*m).contains_key(port),
{
    m.contains_key(&port)
}

/// `DashMap::insert` adds an entry, in place of the one with the same port.
#[verifier::external_body]
pub(crate) fn insert_tunnel(
    m: &mut DashMap<u16, TunnelHandle, RandomState>,
    port: u16,
    handle: TunnelHandle,
)
    ensures
        tunnel_map(*final(m)) == tunnel_map(*old(m)).insert(port, handle),
{
    m.insert(port, handle);
}

/// `DashMap::remove` takes out the entry of a port; the result says whether there was one.
#[verifier::external_body]
pub(crate) fn remove_tunnel(m: &mut DashMap<u16, TunnelHandle, RandomState>, port: u16) -> (r: bool)
    ensures
        tunnel_map(*final(m)) == tunnel_map(*old(m)).remove(port),
        r == tunnel_map(*old(m)).contains_key(port),
{
    m.remove(&port).is_some()
}

/// `DashMap::iter`: every entry once, in an order that is left open.
#[verifier::external_body]
pub(crate) fn list_tunnels(m: &DashMap<u16, TunnelHandle, RandomState>) -> (r: Vec<
    (u16, String, u128),
>)
    ensures
        lists_tunnels(tunnel_map(*m), r@),
{
    m.iter().map(|e| (*e.key(), e.value().name.clone(), e.value().session)).collect()
}

// ---------------------------------------------------------------------------
// Public connections that wait for their data connection
// ---------------------------------------------------------------------------

/// The waiting connections that a map holds, by their ids.
pub uninterp spec fn conn_map(m: DashMap<u128, PendingConn, RandomState>) -> Map<
    u128,
    PendingConn,
>;

/// No connection at all.
pub open spec fn no_conns() -> Map<u128, PendingConn> {
    Map::empty()
}

/// `DashMap::new`: an empty map.
#[verifier::external_body]
pub(crate) fn new_conns() -> (r: DashMap<u128, PendingConn, RandomState>)
    ensures
        conn_map(r) == no_conns(),
{
    DashMap::new()
}

/// `DashMap::get`: the entry of an id, if there is one.
#[verifier::external_body]
pub(crate) fn get_conn(m: &DashMap<u128, PendingConn, RandomState>, id: u128) -> (r: Option<
    PendingConn,
>)
    ensures
        match r {
            Some(c) => conn_map(*m).contains_key(id) && c.data_auth@ == conn_map(*m)[id].data_auth@
                && c.encrypted == conn_map(*m)[id].encrypted,
            None => !conn_map(*m).contains_key(id),
        },
{
    m.get(&id).map(|e| PendingConn {
        data_auth: e.value().data_auth.clone(),
        encrypted: e.value().encrypted,
    })
}

/// `DashMap::insert` adds an entry, in place of the one with the same id.
#[verifier::external_body]
pub(crate) fn insert_conn(
    m: &mut DashMap<u128, PendingConn, RandomState>,
    id: u128,
    conn: PendingConn,
)
    ensures
        conn_map(*final(m)) == conn_map(*old(m)).insert(id, conn),
{
    m.insert(id, conn);
}

/// `DashMap::remove` takes out the entry of an id; the result says whether there was one.
#[verifier::external_body]
pub(crate) fn remove_conn(m: &mut DashMap<u128, PendingConn, RandomState>, id: u128) -> (r: bool)
    ensures
        conn_map(*final(m)) == conn_map(*old(m)).remove(id),
        r == conn_map(*old(m)).contains_key(id),
{
    m.remove(&id).is_some()
}

// ---------------------------------------------------------------------------
// UDP tunnels that wait for their data channel
// ---------------------------------------------------------------------------

/// The waiting tunnels that a map holds, by their tokens.
pub uninterp spec fn udp_map(m: DashMap<u128, PendingUdp, RandomState>) -> Map<u128, PendingUdp>;

/// No tunnel at all.
pub open spec fn no_udp() -> Map<u128, PendingUdp> {
    Map::empty()
}

/// Whether a list holds every entry of a map exactly once.
pub open spec fn lists_udp(m: Map<u128, PendingUdp>, list: Seq<(u128, PendingUdp)>) -> bool {
    &&& forall|i: int|
        0 <= i < list.len() ==> m.contains_key((#[trigger] list[i]).0) && m[list[i].0] == list[i].1
    &&& forall|token: u128| #[trigger]
        m.contains_key(token) ==> exists|i: int|
            0 <= i < list.len() && (#[trigger] list[i]).0 == token
    &&& forall|i: int, j: int|
        0 <= i < j < list.len() ==> (#[trigger] list[i]).0 != (#[trigger] list[j]).0
}

/// `DashMap::new`: an empty map.
#[verifier::external_body]
pub(crate) fn new_udp() -> (r: DashMap<u128, PendingUdp, RandomState>)
    ensures
        udp_map(r) == no_udp(),
{
    DashMap::new()
}

/// `DashMap::insert` adds an entry, in place of the one with the same token.
#[verifier::external_body]
pub(crate) fn insert_udp(
    m: &mut DashMap<u128, PendingUdp, RandomState>,
    token: u128,
    pending: PendingUdp,
)
    ensures
        udp_map(*final(m)) == udp_map(*old(m)).insert(token, pending),
{
    m.insert(token, pending);
}

/// `DashMap::remove` takes out the entry of a token, if there is one.
#[verifier::external_body]
pub(crate) fn remove_udp(m: &mut DashMap<u128, PendingUdp, RandomState>, token: u128) -> (r: Option<
    PendingUdp,
>)
    ensures
        udp_map(*final(m)) == udp_map(*old(m)).remove(token),
        r == (if udp_map(*old(m)).contains_key(token) {
            Some(udp_map(*old(m))[token])
        } else {
            None
        }),
{
    m.remove(&token).map(|e| e.1)
}

/// `DashMap::iter`: every entry once, in an order that is left open.
#[verifier::external_body]
pub(crate) fn list_udp(m: &DashMap<u128, PendingUdp, RandomState>) -> (r: Vec<(u128, PendingUdp)>)
    ensures
        lists_udp(udp_map(*m), r@),
{
    m.iter().map(|e| (*e.key(), *e.value())).collect()
}

// ---------------------------------------------------------------------------
// Tunnels of a client
// ---------------------------------------------------------------------------

/// The tunnels that a map holds, by their names.
pub uninterp spec fn status_map(m: DashMap<String, TunnelStatus, RandomState>) -> Map<
    Seq<char>,
    TunnelStatus,
>;

/// No tunnel at all.
pub open spec fn no_status() -> Map<Seq<char>, TunnelStatus> {
    Map::empty()
}

/// Whether a list holds the name of every entry of a map exactly once.
pub open spec fn lists_names(m: Map<Seq<char>, TunnelStatus>, list: Seq<String>) -> bool {
    &&& forall|i: int| 0 <= i < list.len() ==> m.contains_key((#[trigger] list[i])@)
    &&& forall|name: Seq<char>| #[trigger]
        m.contains_key(name) ==> exists|i: int| 0 <= i < list.len() && (#[trigger] list[i])@ == name
    &&& forall|i: int, j: int|
        0 <= i < j < list.len() ==> (#[trigger] list[i])@ != (#[trigger] list[j])@
}

/// `DashMap::new`: an empty map.
#[verifier::external_body]
pub(crate) fn new_status() -> (r: DashMap<String, TunnelStatus, RandomState>)
    ensures
        status_map(r) == no_status(),
{
    DashMap::new()
}

/// `DashMap::insert` adds an entry, in place of the one with the same name.
#[verifier::external_body]
pub(crate) fn insert_status(
    m: &mut DashMap<String, TunnelStatus, RandomState>,
    name: String,
    status: TunnelStatus,
)
    ensures
        status_map(*final(m)) == status_map(*old(m)).insert(name@, status),
{
    m.insert(name, status);
}

/// `DashMap::remove` takes out the entry of a name, if there is one.
#[verifier::external_body]
pub(crate) fn remove_status(m: &mut DashMap<String, TunnelStatus, RandomState>, name: &str) -> (r:
    Option<TunnelStatus>)
    ensures
        status_map(*final(m)) == status_map(*old(m)).remove(name@),
        r == (if status_map(*old(m)).contains_key(name@) {
            Some(status_map(*old(m))[name@])
        } else {
            None
        }),
{
    m.remove(name).map(|e| e.1)
}

/// `DashMap::iter`: the name of every entry once, in an order that is left open.
#[verifier::external_body]
pub(crate) fn list_names(m: &DashMap<String, TunnelStatus, RandomState>) -> (r: Vec<String>)
    ensures
        lists_names(status_map(*m), r@),
{
    m.iter().map(|e| e.key().clone()).collect()
}

}
