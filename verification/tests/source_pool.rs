use porthole::addr::SocketAddr;
use porthole::source_pool::{
    select_pool_addr_from_used, stable_socket_hash, SourcePoolError, SourcePoolState, UdpSourcePool,
};
use std::collections::HashSet;

#[test]
fn udp_source_pool_assigns_distinct_ips_for_active_flows() {
    let pool: UdpSourcePool = "127.64.0.0/30".parse().unwrap();
    let first: SocketAddr = "198.51.100.10:40000".parse().unwrap();
    let second: SocketAddr = "198.51.100.11:40000".parse().unwrap();
    let mut used = HashSet::new();

    let first_ip = select_pool_addr_from_used(first, pool, &used).unwrap();
    used.insert(first_ip);
    let second_ip = select_pool_addr_from_used(second, pool, &used).unwrap();

    assert_ne!(first_ip, second_ip);
    assert_eq!(first_ip.to_be_bytes()[0], 127);
    assert_eq!(select_pool_addr_from_used(first, pool, &HashSet::new()), Some(first_ip));
}

#[test]
fn udp_source_pool_exhaustion_fails_closed() {
    let pool: UdpSourcePool = "127.64.0.9/32".parse().unwrap();
    let peer: SocketAddr = "198.51.100.10:40000".parse().unwrap();
    let mut used = HashSet::new();
    used.insert(u32::from_be_bytes([127, 64, 0, 9]));

    assert_eq!(select_pool_addr_from_used(peer, pool, &used), None);
}

#[test]
fn udp_source_pool_state_releases_reserved_ips() {
    let pool: UdpSourcePool = "127.64.0.9/32".parse().unwrap();
    let first: SocketAddr = "198.51.100.10:40000".parse().unwrap();
    let second: SocketAddr = "198.51.100.11:40000".parse().unwrap();
    let mut state = SourcePoolState::new(Some(pool));

    let first_ip = state.reserve(first).unwrap();
    assert_eq!(state.reserve(second), None);
    state.release(first_ip);
    assert_eq!(state.reserve(second), Some(first_ip));
}

#[test]
fn unpooled_flows_need_no_address() {
    let mut state = SourcePoolState::new(None);
    assert_eq!(state.reserve("198.51.100.10:40000".parse().unwrap()), Some(None));
}

#[test]
fn pools_are_networks_inside_loopback() {
    let pool: UdpSourcePool = "127.64.1.2/16".parse().unwrap();
    assert_eq!(pool.to_string(), "127.64.0.0/16");
    assert_eq!(pool.size(), 65_536);
    assert_eq!(pool.addr_at(0), Some(u32::from_be_bytes([127, 64, 0, 0])));
    assert_eq!(pool.addr_at(65_535), Some(u32::from_be_bytes([127, 64, 255, 255])));
    assert_eq!(pool.addr_at(65_536), None);
    let error = |text: &str| text.parse::<UdpSourcePool>().unwrap_err();
    assert_eq!(error("127.64.0.0"), SourcePoolError::MissingPrefix);
    assert_eq!(error("127.64.0/16"), SourcePoolError::InvalidAddress);
    assert_eq!(error("127.64.0.0/33"), SourcePoolError::InvalidPrefix);
    assert_eq!(error("10.0.0.0/8"), SourcePoolError::NotLoopback);
    assert_eq!(error("127.0.0.0/7"), SourcePoolError::NotLoopback);
}

#[test]
fn addresses_start_at_a_stable_hash() {
    // FNV-1a over the family, the address and the port.
    let mut hash: u64 = 0xcbf2_9ce4_8422_2325;
    for byte in [4u8, 198, 51, 100, 10, 0x9c, 0x40] {
        hash = (hash ^ u64::from(byte)).wrapping_mul(0x100_0000_01b3);
    }
    let src: SocketAddr = "198.51.100.10:40000".parse().unwrap();
    assert_eq!(stable_socket_hash(src), hash);
    let pool: UdpSourcePool = "127.64.0.0/16".parse().unwrap();
    let expected = pool.addr_at((hash % 65_536) as u32);
    assert_eq!(select_pool_addr_from_used(src, pool, &HashSet::new()), expected);
}
