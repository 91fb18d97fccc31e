//! Loopback source addresses for the local ends of UDP flows.
//!
//! A pool is an IPv4 network inside 127.0.0.0/8. While a flow of an end user is active it may
//! hold one address of the pool, so that a local service tells end users apart by address.

use crate::addr::{parse_ipv4, push_ipv4};
use crate::addr::{
    ipv4_text, law_ipv4_roundtrip, lemma_join_chars, octet_texts, octets, parsed_ipv4, IpAddr,
    SocketAddr,
};
use crate::buffer::be;
use crate::buffer::be_bytes;
use crate::protocol::udp_header;
use crate::text::{chars_of, parse_dec, push_dec, split_once};
use crate::text::{
    dec, law_number_reads_back, law_split_first, lemma_dec, lemma_dec_chars, parsed_dec,
    split_first,
};
use std::collections::HashSet;
use vstd::prelude::*;

verus! {

broadcast use vstd::std_specs::hash::group_hash_axioms;

/// Two to the power `k`.
pub open spec fn two_to(k: nat) -> nat
    decreases k,
{
    if k == 0 {
        1
    } else {
        2 * two_to((k - 1) as nat)
    }
}

proof fn lemma_two_to_sum(a: nat, b: nat)
    ensures
        two_to(a + b) == two_to(a) * two_to(b),
    decreases a,
{
    if a > 0 {
        lemma_two_to_sum((a - 1) as nat, b);
        let (x, y) = (two_to((a - 1) as nat), two_to(b));
        assert(2 * (x * y) == (2 * x) * y) by (nonlinear_arith);
    } else {
        assert(1 * two_to(b) == two_to(b)) by (nonlinear_arith);
    }
}

proof fn lemma_two_to_bound(k: nat)
    requires
        k <= 24,
    ensures
        0 < two_to(k) <= 0x100_0000,
        two_to(24) == 0x100_0000,
{
    reveal_with_fuel(two_to, 26);
}

/// The first address of the network with `size` addresses that holds `ip`.
pub open spec fn network_base(ip: int, size: int) -> int {
    ip - ip % size
}

proof fn lemma_network_base(ip: u32, k: nat)
    requires
        k <= 24,
        ip / 0x100_0000 == 127,
    ensures
        ({
            let size = two_to(k) as int;
            let base = network_base(ip as int, size);
            &&& 127 * 0x100_0000 <= base <= ip < base + size
            &&& base + size <= 128 * 0x100_0000
            &&& base % size == 0
        }),
{
    lemma_two_to_bound(k);
    lemma_two_to_sum(k, (24 - k) as nat);
    let size = two_to(k) as int;
    let r = two_to((24 - k) as nat) as int;
    let q = ip as int / size;
    let n = ip as int;
    assert(n == q * size + n % size && 0 <= n % size < size) by (nonlinear_arith)
        requires
            q == n / size,
            size > 0,
    ;
    assert(127 * r <= q < 128 * r) by (nonlinear_arith)
        requires
            127 * (size * r) <= n < 128 * (size * r),
            n == q * size + n % size,
            0 <= n % size < size,
            size > 0,
    ;
    let base = network_base(n, size);
    assert(base == q * size);
    assert(127 * (size * r) <= q * size && q * size + size <= 128 * (size * r)) by (nonlinear_arith)
        requires
            127 * r <= q < 128 * r,
            size > 0,
    ;
    assert((q * size) % size == 0) by (nonlinear_arith)
        requires
            size > 0,
    ;
}

/// Why a text is no source pool.
#[derive(Clone, Copy, Debug, PartialEq, Eq, Structural)]
pub enum SourcePoolError {
    /// Not of the form `ADDRESS/PREFIX`.
    MissingPrefix,
    /// Not an IPv4 address before the slash.
    InvalidAddress,
    /// Not a prefix length after the slash.
    InvalidPrefix,
    /// Not inside 127.0.0.0/8.
    NotLoopback,
}

/// An IPv4 network inside 127.0.0.0/8.
#[derive(Clone, Copy, Debug, PartialEq, Eq, Structural)]
pub struct UdpSourcePool {
    base: u32,
    prefix: u8,
}

/// The network that a text stands for: its first address and its prefix length.
pub open spec fn parsed_pool(s: Seq<char>) -> Result<(u32, u8), SourcePoolError> {
    match split_first(s, "/"@) {
        None => Err(SourcePoolError::MissingPrefix),
        Some((addr, prefix)) => match parsed_ipv4(addr) {
            None => Err(SourcePoolError::InvalidAddress),
            Some(ip) => match parsed_dec(prefix, 32) {
                None => Err(SourcePoolError::InvalidPrefix),
                Some(bits) => if bits < 8 || ip / 0x100_0000 != 127 {
                    Err(SourcePoolError::NotLoopback)
                } else {
                    Ok(
                        (
                            network_base(ip as int, two_to((32 - bits) as nat) as int) as u32,
                            bits as u8,
                        ),
                    )
                },
            },
        },
    }
}

impl UdpSourcePool {
    /// The first address.
    pub closed spec fn spec_base(self) -> u32 {
        self.base
    }

    /// The prefix length.
    pub closed spec fn spec_prefix(self) -> u8 {
        self.prefix
    }

    /// The number of addresses.
    pub open spec fn spec_size(self) -> nat {
        two_to((32 - self.spec_prefix()) as nat)
    }

    /// Whether the network lies inside 127.0.0.0/8.
    pub open spec fn wf(self) -> bool {
        &&& 8 <= self.spec_prefix() <= 32
        &&& 127 * 0x100_0000 <= self.spec_base()
        &&& self.spec_base() + self.spec_size() <= 128 * 0x100_0000
        &&& self.spec_base() as int % self.spec_size() as int == 0
    }

    /// The `index`-th address.
    pub open spec fn spec_addr_at(self, index: int) -> u32 {
        (self.spec_base() + index) as u32
    }

    /// Read a network such as `127.64.0.0/16`; host bits in the address are cleared.
    pub fn parse(s: &[char]) -> (r: Result<UdpSourcePool, SourcePoolError>)
        ensures
            match r {
                Ok(pool) => pool.wf() && parsed_pool(s@) == Ok::<_, SourcePoolError>(
                    (pool.spec_base(), pool.spec_prefix()),
                ),
                Err(e) => parsed_pool(s@) == Err::<(u32, u8), _>(e),
            },
    {
        let slash = chars_of("/");
        match split_once(s, &slash) {
            None => Err(SourcePoolError::MissingPrefix),
            Some((addr, prefix)) => match parse_ipv4(addr) {
                None => Err(SourcePoolError::InvalidAddress),
                Some(ip) => match parse_dec(prefix, 32) {
                    None => Err(SourcePoolError::InvalidPrefix),
                    Some(bits) => {
                        if bits < 8 || ip / 0x100_0000 != 127 {
                            return Err(SourcePoolError::NotLoopback);
                        }
                        proof {
                            lemma_two_to_bound((32 - bits) as nat);
                            lemma_network_base(ip, (32 - bits) as nat);
                        }
                        let size = size_of_prefix(bits as u8);
                        Ok(UdpSourcePool { base: ip - ip % size, prefix: bits as u8 })
                    },
                },
            },
        }
    }

    /// The network as text.
    pub fn to_string(&self) -> (r: String)
        ensures
            r@ == ipv4_text(self.spec_base()).push('/') + dec(self.spec_prefix() as nat),
    {
        let mut out = String::new();
        push_ipv4(&mut out, self.base);
        out.push('/');
        push_dec(&mut out, self.prefix as u64);
        assert(out@ =~= ipv4_text(self.base).push('/') + dec(self.prefix as nat));
        out
    }

    /// The number of addresses.
    pub fn size(&self) -> (r: u32)
        requires
            self.wf(),
        ensures
            r == self.spec_size(),
            0 < r <= 0x100_0000,
    {
        proof {
            lemma_two_to_bound((32 - self.prefix) as nat);
        }
        size_of_prefix(self.prefix)
    }

    /// The `index`-th address, if there are that many.
    pub fn addr_at(&self, index: u32) -> (r: Option<u32>)
        requires
            self.wf(),
        ensures
            r == (if index < self.spec_size() {
                Some(self.spec_addr_at(index as int))
            } else {
                None
            }),
    {
        if index < self.size() {
            Some(self.base + index)
        } else {
            None
        }
    }
}

fn size_of_prefix(prefix: u8) -> (r: u32)
    requires
        8 <= prefix <= 32,
    ensures
        r == two_to((32 - prefix) as nat),
    decreases 32 - prefix,
{
    if prefix == 32 {
        1
    } else {
        proof {
            lemma_two_to_bound((32 - prefix) as nat);
        }
        2 * size_of_prefix(prefix + 1)
    }
}

impl std::str::FromStr for UdpSourcePool {
    type Err = SourcePoolError;

    fn from_str(s: &str) -> (r: Result<UdpSourcePool, SourcePoolError>)
        ensures
            match r {
                Ok(pool) => pool.wf() && parsed_pool(s@) == Ok::<_, SourcePoolError>(
                    (pool.spec_base(), pool.spec_prefix()),
                ),
                Err(e) => parsed_pool(s@) == Err::<(u32, u8), _>(e),
            },
    {
        UdpSourcePool::parse(&chars_of(s))
    }
}

/// Every address of a pool is a loopback address, and no two indices share one.
pub proof fn law_pool_addresses(pool: UdpSourcePool, i: int, j: int)
    requires
        pool.wf(),
        0 <= i < pool.spec_size(),
        0 <= j < pool.spec_size(),
    ensures
        pool.spec_addr_at(i) / 0x100_0000 == 127,
        pool.spec_addr_at(i) == pool.spec_addr_at(j) ==> i == j,
{
}

// ---------------------------------------------------------------------------
// Assignment of addresses to flows
// ---------------------------------------------------------------------------

/// One step of the 64-bit FNV-1a hash.
pub open spec fn fnv_step(hash: u64, byte: u8) -> u64 {
    (((hash ^ (byte as u64)) * 0x100000001b3) % 0x1_0000_0000_0000_0000) as u64
}

/// The 64-bit FNV-1a hash.
pub open spec fn fnv1a(bytes: Seq<u8>) -> u64
    decreases bytes.len(),
{
    if bytes.len() == 0 {
        0xcbf29ce484222325
    } else {
        fnv_step(fnv1a(bytes.drop_last()), bytes.last())
    }
}

/// The bytes of the address header of a UDP frame.
fn header_bytes(addr: SocketAddr) -> (r: Vec<u8>)
    ensures
        r@ == udp_header(addr),
{
    let mut bytes: Vec<u8> = Vec::new();
    let mut ip = match addr.ip() {
        IpAddr::V4(ip) => {
            bytes.push(4);
            be_bytes(ip as u128, 4)
        },
        IpAddr::V6(ip) => {
            bytes.push(6);
            be_bytes(ip, 16)
        },
    };
    let mut port = be_bytes(addr.port() as u128, 2);
    bytes.append(&mut ip);
    bytes.append(&mut port);
    assert(bytes@ =~= udp_header(addr));
    bytes
}

/// A hash of an endpoint that is the same in every process.
pub fn stable_socket_hash(addr: SocketAddr) -> (r: u64)
    ensures
        r == fnv1a(udp_header(addr)),
{
    let bytes = header_bytes(addr);
    let mut hash: u64 = 0xcbf29ce484222325;
    let mut i: usize = 0;
    while i < bytes.len()
        invariant
            i <= bytes@.len(),
            hash == fnv1a(bytes@.take(i as int)),
        decreases bytes@.len() - i,
    {
        assert(bytes@.take(i as int + 1).drop_last() =~= bytes@.take(i as int));
        hash = (hash ^ (bytes[i] as u64)).wrapping_mul(0x100000001b3);
        i += 1;
    }
    assert(bytes@.take(bytes@.len() as int) =~= bytes@);
    hash
}

/// The index that the search for a free address looks at in its step `step`.
pub open spec fn probe(src: SocketAddr, pool: UdpSourcePool, step: int) -> int {
    (fnv1a(udp_header(src)) as int % pool.spec_size() as int + step) % pool.spec_size() as int
}

/// The address that the search looks at in its step `step`.
pub open spec fn probed(src: SocketAddr, pool: UdpSourcePool, step: int) -> u32 {
    pool.spec_addr_at(probe(src, pool, step))
}

/// The address chosen for an endpoint: the first free one, from the place on that the hash of
/// the endpoint points to.
pub open spec fn selects(
    src: SocketAddr,
    pool: UdpSourcePool,
    used: Set<u32>,
    r: Option<u32>,
) -> bool {
    match r {
        Some(ip) => exists|step: int|
            {
                &&& 0 <= step < pool.spec_size()
                &&& ip == #[trigger] probed(src, pool, step)
                &&& !used.contains(ip)
                &&& forall|k: int| 0 <= k < step ==> used.contains(#[trigger] probed(src, pool, k))
                &&& used.len() < pool.spec_size()
            },
        None => used.len() >= pool.spec_size() || forall|k: int|
            0 <= k < pool.spec_size() ==> used.contains(#[trigger] probed(src, pool, k)),
    }
}

/// The first free address of a pool for an endpoint.
pub fn select_pool_addr_from_used(
    src: SocketAddr,
    pool: UdpSourcePool,
    used: &HashSet<u32>,
) -> (r: Option<u32>)
    requires
        pool.wf(),
    ensures
        selects(src, pool, used@, r),
{
    let size: u32 = pool.size();
    if used.len() >= size as usize {
        return None;
    }
    let start: u32 = (stable_socket_hash(src) % (size as u64)) as u32;
    let mut step: u32 = 0;
    while step < size
        invariant
            pool.wf(),
            size == pool.spec_size(),
            0 < size <= 0x100_0000,
            start < size,
            start == fnv1a(udp_header(src)) as int % size as int,
            used@.len() < size,
            step <= size,
            forall|k: int| 0 <= k < step ==> used@.contains(#[trigger] probed(src, pool, k)),
        decreases size - step,
    {
        let index: u32 = (start + step) % size;
        assert(index == probe(src, pool, step as int));
        match pool.addr_at(index) {
            Some(ip) => {
                assert(ip == probed(src, pool, step as int));
                if !used.contains(&ip) {
                    return Some(ip);
                }
            },
            None => {
                assert(false);
            },
        }
        step += 1;
    }
    None
}

/// The addresses of a pool.
pub open spec fn pool_addresses(pool: UdpSourcePool) -> Set<u32> {
    Set::new(|ip: u32| pool.spec_base() <= ip < pool.spec_base() + pool.spec_size())
}

/// While the addresses in use are addresses of the pool, an endpoint goes without an address
/// exactly when all of them are in use; an address that is handed out is one of the pool.
pub proof fn law_pool_exhaustion(
    src: SocketAddr,
    pool: UdpSourcePool,
    used: Set<u32>,
    r: Option<u32>,
)
    requires
        pool.wf(),
        used.subset_of(pool_addresses(pool)),
        selects(src, pool, used, r),
    ensures
        r is None <==> used == pool_addresses(pool),
        r matches Some(ip) ==> pool_addresses(pool).contains(ip) && !used.contains(ip),
{
    let all = pool_addresses(pool);
    let n = pool.spec_size() as int;
    lemma_two_to_bound((32 - pool.spec_prefix()) as nat);
    lemma_pool_addresses_len(pool);
    vstd::set_lib::lemma_len_subset(used, all);
    if r is None {
        if used.len() >= n {
            vstd::set_lib::lemma_subset_equality(used, all);
        } else {
            assert forall|ip: u32| all.contains(ip) implies used.contains(ip) by {
                let index = ip - pool.spec_base();
                let start = fnv1a(udp_header(src)) as int % n;
                let step = if index >= start {
                    index - start
                } else {
                    index - start + n
                };
                assert(index % n == index && (index + n) % n == index) by (nonlinear_arith)
                    requires
                        0 <= index < n,
                ;
                assert(probe(src, pool, step) == index);
                assert(probed(src, pool, step) == ip);
            }
            assert(used =~= all);
        }
    } else {
        let ip = r->0;
        let step = choose|step: int|
            0 <= step < n && ip == #[trigger] probed(src, pool, step) && !used.contains(ip);
        assert(0 <= probe(src, pool, step) < n);
    }
}

proof fn lemma_pool_addresses_len(pool: UdpSourcePool)
    requires
        pool.wf(),
    ensures
        pool_addresses(pool).finite(),
        pool_addresses(pool).len() == pool.spec_size(),
{
    let lo = pool.spec_base() as int;
    let hi = lo + pool.spec_size() as int;
    let range = vstd::set_lib::set_int_range(lo, hi);
    vstd::set_lib::lemma_int_range(lo, hi);
    let f = |i: int| i as u32;
    let all = pool_addresses(pool);
    assert(all =~= range.map(f)) by {
        assert forall|ip: u32| all.contains(ip) implies range.map(f).contains(ip) by {
            assert(range.contains(ip as int));
            assert(f(ip as int) == ip);
        }
    }
    vstd::set_lib::lemma_map_size(range, all, f);
}

// ---------------------------------------------------------------------------
// Addresses in use
// ---------------------------------------------------------------------------

/// The addresses of a channel's pool that its active flows hold.
pub struct SourcePoolState {
    pool: Option<UdpSourcePool>,
    used: HashSet<u32>,
}

/// What reserving an address for the flow of `src` gives, and the addresses in use afterwards.
pub open spec fn reserves(
    pool: Option<UdpSourcePool>,
    used: Set<u32>,
    src: SocketAddr,
    r: Option<Option<u32>>,
    after: Set<u32>,
) -> bool {
    match pool {
        None => r == Some(None::<u32>) && after == used,
        Some(pool) => match r {
            Some(Some(ip)) => selects(src, pool, used, Some(ip)) && after == used.insert(ip),
            Some(None) => false,
            None => used == pool_addresses(pool) && after == used,
        },
    }
}

/// The addresses in use after one was given back.
pub open spec fn released(used: Set<u32>, source_ip: Option<u32>) -> Set<u32> {
    match source_ip {
        Some(ip) => used.remove(ip),
        None => used,
    }
}

impl SourcePoolState {
    /// The pool, when source addresses are pooled.
    pub closed spec fn spec_pool(&self) -> Option<UdpSourcePool> {
        self.pool
    }

    /// The addresses in use.
    pub closed spec fn spec_used(&self) -> Set<u32> {
        self.used@
    }

    /// Whether the pool is one and only its addresses are in use.
    pub open spec fn wf(&self) -> bool {
        match self.spec_pool() {
            Some(pool) => pool.wf() && self.spec_used().subset_of(pool_addresses(pool)),
            None => self.spec_used() == Set::<u32>::empty(),
        }
    }

    pub fn new(pool: Option<UdpSourcePool>) -> (r: SourcePoolState)
        requires
            pool matches Some(p) ==> p.wf(),
        ensures
            r.wf(),
            r.spec_pool() == pool,
            r.spec_used() == Set::<u32>::empty(),
    {
        SourcePoolState { pool, used: HashSet::new() }
    }

    /// Reserve a source address for the flow of `src`: none is needed without a pool; nothing is
    /// returned when every address of the pool is in use.
    pub fn reserve(&mut self, src: SocketAddr) -> (r: Option<Option<u32>>)
        requires
            old(self).wf(),
        ensures
            final(self).wf(),
            final(self).spec_pool() == old(self).spec_pool(),
            reserves(
                old(self).spec_pool(),
                old(self).spec_used(),
                src,
                r,
                final(self).spec_used(),
            ),
    {
        match self.pool {
            None => Some(None),
            Some(pool) => {
                let r = select_pool_addr_from_used(src, pool, &self.used);
                proof {
                    law_pool_exhaustion(src, pool, self.used@, r);
                }
                match r {
                    None => None,
                    Some(ip) => {
                        self.used.insert(ip);
                        Some(Some(ip))
                    },
                }
            },
        }
    }

    /// Give an address back.
    pub fn release(&mut self, source_ip: Option<u32>)
        requires
            old(self).wf(),
        ensures
            final(self).wf(),
            final(self).spec_pool() == old(self).spec_pool(),
            final(self).spec_used() == released(old(self).spec_used(), source_ip),
    {
        match source_ip {
            Some(ip) => {
                self.used.remove(&ip);
                proof {
                    assert(self.used@ =~= old(self).used@.remove(ip));
                    assert(Set::<u32>::empty().remove(ip) =~= Set::<u32>::empty());
                }
            },
            None => {},
        }
    }
}

/// A network in text, `ADDRESS/PREFIX`, stands for the network of that size that holds the address.
/// It must lie inside 127.0.0.0/8, and without a slash there is no network.
pub proof fn law_pool_of_text(ip: u32, bits: nat)
    ensures
        ({
            let r = parsed_pool(ipv4_text(ip) + seq!['/'] + dec(bits));
            &&& bits > 32 ==> r == Err::<(u32, u8), _>(SourcePoolError::InvalidPrefix)
            &&& bits <= 32 && (bits < 8 || !(0x7f00_0000 <= ip <= 0x7fff_ffff)) ==> r == Err::<
                (u32, u8),
                _,
            >(SourcePoolError::NotLoopback)
            &&& 8 <= bits <= 32 && 0x7f00_0000 <= ip <= 0x7fff_ffff ==> {
                let size = vstd::arithmetic::power2::pow2((32 - bits) as nat);
                &&& r is Ok
                &&& r->Ok_0.1 == bits
                &&& r->Ok_0.0 <= ip < r->Ok_0.0 + size
                &&& r->Ok_0.0 as int % size as int == 0
            }
        }),
        parsed_pool(ipv4_text(ip)) == Err::<(u32, u8), _>(SourcePoolError::MissingPrefix),
{
    reveal_strlit("/");
    assert("/"@ =~= seq!['/']);
    lemma_pool_address_chars(ip);
    law_split_first(ipv4_text(ip), '/', dec(bits));
    law_ipv4_roundtrip(ip);
    law_number_reads_back(bits, 32, Seq::empty(), Seq::empty());
    if 8 <= bits <= 32 && 0x7f00_0000 <= ip <= 0x7fff_ffff {
        lemma_two_to_bound((32 - bits) as nat);
        lemma_network_base(ip, (32 - bits) as nat);
        lemma_two_to_is_pow2((32 - bits) as nat);
    }
}

proof fn lemma_pool_address_chars(ip: u32)
    ensures
        !ipv4_text(ip).contains('/'),
{
    let t = octet_texts(ip);
    assert forall|i: int| 0 <= i < 4 implies !(#[trigger] t[i]).contains('/') && t[i].len() > 0 by {
        lemma_dec_chars(octets(ip)[i], '/');
        lemma_dec(octets(ip)[i]);
    }
    lemma_join_chars(t, '.', '/');
}

proof fn lemma_two_to_is_pow2(k: nat)
    ensures
        two_to(k) == vstd::arithmetic::power2::pow2(k),
    decreases k,
{
    vstd::arithmetic::power2::lemma2_to64();
    if k > 0 {
        lemma_two_to_is_pow2((k - 1) as nat);
        vstd::arithmetic::power2::lemma_pow2_unfold(k);
    }
}

/// The text of a pool reads back as that pool, and the pool has as many addresses as its prefix
/// leaves bits for, the first of which is its base.
pub proof fn law_pool_reads_back(pool: UdpSourcePool)
    requires
        pool.wf(),
    ensures
        parsed_pool(
            ipv4_text(pool.spec_base()).push('/') + dec(pool.spec_prefix() as nat),
        ) == Ok::<_, SourcePoolError>((pool.spec_base(), pool.spec_prefix())),
        pool.spec_size() == vstd::arithmetic::power2::pow2((32 - pool.spec_prefix()) as nat),
        pool.spec_addr_at(0) == pool.spec_base(),
{
    let (base, bits) = (pool.spec_base(), pool.spec_prefix() as nat);
    lemma_two_to_is_pow2((32 - bits) as nat);
    lemma_two_to_bound((32 - bits) as nat);
    law_pool_of_text(base, bits);
    assert(ipv4_text(base).push('/') + dec(bits) =~= ipv4_text(base) + seq!['/'] + dec(bits));
    let r = parsed_pool(ipv4_text(base) + seq!['/'] + dec(bits))->Ok_0.0 as int;
    let size = pool.spec_size() as int;
    let b = base as int;
    assert(r == b) by (nonlinear_arith)
        requires
            r <= b < r + size,
            r % size == 0,
            b % size == 0,
            size > 0,
    ;
}

/// The hash of an endpoint is 64-bit FNV-1a over its family and the bytes of its address and port.
pub proof fn law_endpoint_hash(bytes: Seq<u8>, byte: u8, ip: u32, port: u16)
    ensures
        fnv1a(Seq::empty()) == 14695981039346656037,
        fnv1a(bytes.push(byte)) == ((fnv1a(bytes) ^ (byte as u64)) * 1099511628211)
            % 0x1_0000_0000_0000_0000,
        udp_header(SocketAddr::V4 { ip, port }) == seq![4u8] + be(ip as nat, 4) + be(
            port as nat,
            2,
        ),
{
    assert(bytes.push(byte).drop_last() =~= bytes);
    assert(udp_header(SocketAddr::V4 { ip, port }) =~= seq![4u8] + be(ip as nat, 4) + be(
        port as nat,
        2,
    ));
}

/// Which address an endpoint gets is settled by the endpoint, the pool and the addresses in use.
/// The first choice of an endpoint is the address that its hash points to, and it gets that one
/// whenever it is free.
pub proof fn law_selection_settled(
    src: SocketAddr,
    pool: UdpSourcePool,
    used: Set<u32>,
    a: Option<u32>,
    b: Option<u32>,
)
    requires
        pool.wf(),
        used.subset_of(pool_addresses(pool)),
        selects(src, pool, used, a),
        selects(src, pool, used, b),
    ensures
        a == b,
        ({
            let first = pool.spec_base() + fnv1a(udp_header(src)) as int % pool.spec_size() as int;
            !used.contains(first as u32) ==> a == Some(first as u32)
        }),
{
    law_pool_exhaustion(src, pool, used, a);
    law_pool_exhaustion(src, pool, used, b);
    lemma_two_to_bound((32 - pool.spec_prefix()) as nat);
    let n = pool.spec_size() as int;
    let start = fnv1a(udp_header(src)) as int % n;
    assert(start % n == start) by (nonlinear_arith)
        requires
            0 <= start < n,
    ;
    assert(probe(src, pool, 0) == start);
    let first = probed(src, pool, 0);
    if a is Some {
        let (x, y) = (a->0, b->0);
        let i = choose|step: int|
            {
                &&& 0 <= step < n
                &&& x == #[trigger] probed(src, pool, step)
                &&& !used.contains(x)
                &&& forall|k: int| 0 <= k < step ==> used.contains(#[trigger] probed(src, pool, k))
            };
        let j = choose|step: int|
            {
                &&& 0 <= step < n
                &&& y == #[trigger] probed(src, pool, step)
                &&& !used.contains(y)
                &&& forall|k: int| 0 <= k < step ==> used.contains(#[trigger] probed(src, pool, k))
            };
        if i < j {
            assert(used.contains(probed(src, pool, i)));
        } else if j < i {
            assert(used.contains(probed(src, pool, j)));
        }
        if i > 0 {
            assert(used.contains(probed(src, pool, 0)));
        }
    } else {
        assert(pool_addresses(pool).contains(first));
    }
}

/// An endpoint that lost its address gets the same one again, whatever other endpoints hold by
/// then, as long as nobody holds that one and those that were in its way still are.
pub proof fn law_selection_is_stable(
    src: SocketAddr,
    pool: UdpSourcePool,
    used: Set<u32>,
    later: Set<u32>,
    ip: u32,
    again: Option<u32>,
)
    requires
        pool.wf(),
        used.subset_of(later),
        later.subset_of(pool_addresses(pool)),
        !later.contains(ip),
        selects(src, pool, used, Some(ip)),
        selects(src, pool, later, again),
    ensures
        again == Some(ip),
{
    let n = pool.spec_size() as int;
    law_pool_exhaustion(src, pool, used, Some(ip));
    law_pool_exhaustion(src, pool, later, again);
    let step = choose|step: int|
        {
            &&& 0 <= step < n
            &&& ip == #[trigger] probed(src, pool, step)
            &&& !used.contains(ip)
            &&& forall|k: int| 0 <= k < step ==> used.contains(#[trigger] probed(src, pool, k))
        };
    let other = again->0;
    let s2 = choose|step: int|
        {
            &&& 0 <= step < n
            &&& other == #[trigger] probed(src, pool, step)
            &&& !later.contains(other)
            &&& forall|k: int| 0 <= k < step ==> later.contains(#[trigger] probed(src, pool, k))
        };
    if step < s2 {
        assert(later.contains(probed(src, pool, step)));
    } else if s2 < step {
        assert(used.contains(probed(src, pool, s2)));
    }
}

/// While an address is reserved nobody else gets it, and releasing it leaves what was in use
/// before.
pub proof fn law_reserve_release(
    before: Option<UdpSourcePool>,
    used: Set<u32>,
    one: SocketAddr,
    other: SocketAddr,
    r: Option<Option<u32>>,
    mid: Set<u32>,
    r2: Option<Option<u32>>,
    after: Set<u32>,
)
    requires
        reserves(before, used, one, r, mid),
        reserves(before, mid, other, r2, after),
        before matches Some(pool) ==> pool.wf() && used.subset_of(pool_addresses(pool)),
    ensures
        before is None <==> r == Some(None::<u32>),
        r matches Some(Some(ip)) ==> {
            &&& 0x7f00_0000 <= ip <= 0x7fff_ffff
            &&& !used.contains(ip)
            &&& mid.contains(ip)
            &&& r2 != Some(Some(ip))
            &&& released(mid, r->0) == used
        },
        r is None ==> mid == used && released(mid, None) == used,
{
    if before is Some && r is Some {
        let pool = before->0;
        let ip = (r->0)->0;
        law_pool_exhaustion(one, pool, used, r->0);
        if r2 is Some {
            assert(mid.subset_of(pool_addresses(pool)));
            law_pool_exhaustion(other, pool, mid, r2->0);
        }
        assert(mid.remove(ip) =~= used);
    }
}

}
