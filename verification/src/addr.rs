//! IP addresses and socket addresses as plain integers.

use crate::text::{
    all_digits, dec, dec_value, hex_value, is_digit, join, law_split_first, lemma_dec,
    lemma_dec_chars,
    lemma_dec_of_value, lemma_join_split, lemma_split_join, pieces_view, split_all, split_first,
};
use crate::text::{chars_of, hex_digit, parse_dec, push_dec, split_on, split_once};
use vstd::prelude::*;
use vstd::slice::slice_subrange;

verus! {

/// An IP address; the number is the address in network byte order, most significant byte first.
#[derive(Clone, Copy, Debug, PartialEq, Eq, Hash, Structural)]
pub enum IpAddr {
    V4(u32),
    V6(u128),
}

/// The address of a UDP or TCP endpoint.
#[allow(inconsistent_fields)]
#[derive(Clone, Copy, Debug, PartialEq, Eq, Hash, Structural)]
pub enum SocketAddr {
    V4 { ip: u32, port: u16 },
    V6 { ip: u128, port: u16, flowinfo: u32, scope_id: u32 },
}

impl SocketAddr {
    pub open spec fn spec_new(ip: IpAddr, port: u16) -> SocketAddr {
        match ip {
            IpAddr::V4(ip) => SocketAddr::V4 { ip, port },
            IpAddr::V6(ip) => SocketAddr::V6 { ip, port, flowinfo: 0, scope_id: 0 },
        }
    }

    pub open spec fn spec_ip(self) -> IpAddr {
        match self {
            SocketAddr::V4 { ip, .. } => IpAddr::V4(ip),
            SocketAddr::V6 { ip, .. } => IpAddr::V6(ip),
        }
    }

    pub open spec fn spec_port(self) -> u16 {
        match self {
            SocketAddr::V4 { port, .. } => port,
            SocketAddr::V6 { port, .. } => port,
        }
    }

    /// The address with flow information and scope cleared: what an IP and a port alone carry.
    pub open spec fn unscoped(self) -> SocketAddr {
        SocketAddr::spec_new(self.spec_ip(), self.spec_port())
    }

    /// The endpoint `port` at `ip`.
    pub fn new(ip: IpAddr, port: u16) -> (r: SocketAddr)
        ensures
            r == SocketAddr::spec_new(ip, port),
            r.spec_ip() == ip,
            r.spec_port() == port,
    {
        match ip {
            IpAddr::V4(ip) => SocketAddr::V4 { ip, port },
            IpAddr::V6(ip) => SocketAddr::V6 { ip, port, flowinfo: 0, scope_id: 0 },
        }
    }

    pub fn ip(&self) -> (r: IpAddr)
        ensures
            r == self.spec_ip(),
    {
        match self {
            SocketAddr::V4 { ip, .. } => IpAddr::V4(*ip),
            SocketAddr::V6 { ip, .. } => IpAddr::V6(*ip),
        }
    }

    pub fn port(&self) -> (r: u16)
        ensures
            r == self.spec_port(),
    {
        match self {
            SocketAddr::V4 { port, .. } => *port,
            SocketAddr::V6 { port, .. } => *port,
        }
    }

    pub fn is_ipv4(&self) -> (r: bool)
        ensures
            r == (self is V4),
    {
        match self {
            SocketAddr::V4 { .. } => true,
            SocketAddr::V6 { .. } => false,
        }
    }
}

// ---------------------------------------------------------------------------
// IPv4 addresses
// ---------------------------------------------------------------------------

/// The four octets of an IPv4 address, most significant first.
pub open spec fn octets(ip: u32) -> Seq<nat> {
    seq![
        (ip / 0x100_0000) as nat,
        ((ip / 0x1_0000) % 256) as nat,
        ((ip / 0x100) % 256) as nat,
        (ip % 256) as nat,
    ]
}

/// The decimal texts of the four octets.
pub open spec fn octet_texts(ip: u32) -> Seq<Seq<char>> {
    seq![dec(octets(ip)[0]), dec(octets(ip)[1]), dec(octets(ip)[2]), dec(octets(ip)[3])]
}

/// The dotted text of an IPv4 address.
pub open spec fn ipv4_text(ip: u32) -> Seq<char> {
    join(octet_texts(ip), '.')
}

/// The address that a dotted text stands for.
pub open spec fn parsed_ipv4(s: Seq<char>) -> Option<u32> {
    if exists|ip: u32| #[trigger] ipv4_text(ip) == s {
        Some(choose|ip: u32| #[trigger] ipv4_text(ip) == s)
    } else {
        None
    }
}

proof fn lemma_octet_texts(ip: u32)
    ensures
        split_all(ipv4_text(ip), '.') == octet_texts(ip),
{
    let texts = octet_texts(ip);
    assert forall|i: int| 0 <= i < texts.len() implies !(#[trigger] texts[i]).contains('.') by {
        lemma_dec_chars(octets(ip)[i], '.');
    }
    lemma_split_join(texts, '.');
}

/// Different addresses have different texts.
pub proof fn lemma_ipv4_text_injective(a: u32, b: u32)
    requires
        ipv4_text(a) == ipv4_text(b),
    ensures
        a == b,
{
    lemma_octet_texts(a);
    lemma_octet_texts(b);
    let (x, y) = (octets(a), octets(b));
    assert forall|i: int| 0 <= i < 4 implies x[i] == y[i] by {
        assert(octet_texts(a)[i] == octet_texts(b)[i]);
        lemma_dec(x[i]);
        lemma_dec(y[i]);
    }
    assert(x[0] == y[0] && x[1] == y[1] && x[2] == y[2] && x[3] == y[3]);
}

/// The text of an address stands for that address.
pub proof fn law_ipv4_roundtrip(ip: u32)
    ensures
        parsed_ipv4(ipv4_text(ip)) == Some(ip),
{
    let s = ipv4_text(ip);
    assert(ipv4_text(ip) == s);
    let other = choose|ip: u32| #[trigger] ipv4_text(ip) == s;
    lemma_ipv4_text_injective(other, ip);
}

/// Read one octet: its decimal text, without leading zeros.
fn parse_octet(s: &[char]) -> (r: Option<u8>)
    ensures
        match r {
            Some(v) => s@ == dec(v as nat),
            None => forall|v: nat| v <= 255 ==> s@ != #[trigger] dec(v),
        },
{
    proof {
        assert forall|v: nat| v <= 255 && #[trigger] dec(v) == s@ implies 0 < s@.len() <= 3
            && all_digits(s@) && dec_value(s@) == v && (s@.len() > 1 ==> s@[0] != '0') by {
            lemma_dec(v);
            lemma_dec_chars(v, '.');
        }
    }
    if s.len() == 0 || s.len() > 3 || s[0] == '+' || (s.len() > 1 && s[0] == '0') {
        proof {
            if s@.len() > 0 && s@[0] == '+' && all_digits(s@) {
                assert(is_digit(s@[0]));
            }
        }
        return None;
    }
    match parse_dec(s, 255) {
        Some(v) => {
            proof {
                lemma_dec_of_value(s@);
            }
            Some(v as u8)
        },
        None => None,
    }
}

proof fn lemma_octets_of(a: u8, b: u8, c: u8, d: u8, ip: u32)
    requires
        ip == a * 0x100_0000 + b * 0x1_0000 + c * 0x100 + d,
    ensures
        octets(ip) == seq![a as nat, b as nat, c as nat, d as nat],
{
    let high = a * 0x1_0000 + b * 0x100 + c;
    assert(ip == high * 256 + d);
    assert(ip / 0x100 == high && ip % 0x100 == d);
    let top = a * 0x100 + b;
    assert(high == top * 256 + c);
    assert(high / 0x100 == top && high % 0x100 == c);
    assert(ip / 0x1_0000 == top);
    assert(top / 0x100 == a && top % 0x100 == b);
    assert(ip / 0x100_0000 == a);
    let list = octets(ip);
    assert(list[0] == a && list[1] == b && list[2] == c && list[3] == d);
    assert(list =~= seq![a as nat, b as nat, c as nat, d as nat]);
}

/// A text whose pieces are not four octets stands for no address.
proof fn lemma_not_ipv4(s: Seq<char>, i: int)
    requires
        split_all(s, '.').len() != 4 || (0 <= i < 4 && forall|v: nat|
            v <= 255 ==> split_all(s, '.')[i] != #[trigger] dec(v)),
    ensures
        parsed_ipv4(s) is None,
{
    if exists|ip: u32| #[trigger] ipv4_text(ip) == s {
        let ip = choose|ip: u32| #[trigger] ipv4_text(ip) == s;
        lemma_octet_texts(ip);
        let v = octets(ip)[i];
        assert(v <= 255);
        assert(octet_texts(ip)[i] == dec(v));
    }
}

proof fn lemma_is_ipv4(s: Seq<char>, ip: u32)
    requires
        split_all(s, '.') == octet_texts(ip),
    ensures
        parsed_ipv4(s) == Some(ip),
{
    lemma_join_split(s, '.');
    law_ipv4_roundtrip(ip);
}

/// Read a dotted IPv4 address.
pub fn parse_ipv4(s: &[char]) -> (r: Option<u32>)
    ensures
        r == parsed_ipv4(s@),
{
    let pieces = split_on(s, '.');
    if pieces.len() != 4 {
        proof {
            lemma_not_ipv4(s@, 0);
        }
        return None;
    }
    let ghost texts = pieces_view(pieces@);
    let mut values: Vec<u8> = Vec::new();
    let mut i: usize = 0;
    while i < 4
        invariant
            i <= 4,
            values@.len() == i,
            pieces@.len() == 4,
            texts == pieces_view(pieces@),
            texts == split_all(s@, '.'),
            forall|j: int| 0 <= j < i ==> texts[j] == dec(#[trigger] values@[j] as nat),
        decreases 4 - i,
    {
        assert(texts[i as int] == pieces@[i as int]@);
        match parse_octet(&pieces[i]) {
            Some(v) => values.push(v),
            None => {
                proof {
                    lemma_not_ipv4(s@, i as int);
                }
                return None;
            },
        }
        i += 1;
    }
    let (a, b, c, d): (u8, u8, u8, u8) = (values[0], values[1], values[2], values[3]);
    let ip: u32 = a as u32 * 0x100_0000 + b as u32 * 0x1_0000 + c as u32 * 0x100 + d as u32;
    proof {
        lemma_octets_of(a, b, c, d, ip);
        assert(octet_texts(ip) =~= texts);
        lemma_is_ipv4(s@, ip);
    }
    Some(ip)
}

/// Append the dotted text of an IPv4 address.
pub fn push_ipv4(out: &mut String, ip: u32)
    ensures
        final(out)@ == old(out)@ + ipv4_text(ip),
{
    let ghost texts = octet_texts(ip);
    push_dec(out, (ip / 0x100_0000) as u64);
    out.push('.');
    push_dec(out, ((ip / 0x1_0000) % 256) as u64);
    out.push('.');
    push_dec(out, ((ip / 0x100) % 256) as u64);
    out.push('.');
    push_dec(out, (ip % 256) as u64);
    proof {
        reveal_with_fuel(join, 5);
        assert(texts.drop_last() =~= seq![texts[0], texts[1], texts[2]]);
        assert(texts.drop_last().drop_last() =~= seq![texts[0], texts[1]]);
        assert(texts.drop_last().drop_last().drop_last() =~= seq![texts[0]]);
        assert(out@ =~= old(out)@ + ipv4_text(ip));
    }
}

// ---------------------------------------------------------------------------
// IPv6 addresses
// ---------------------------------------------------------------------------

/// Whether `s` consists of hexadecimal digits only.
pub open spec fn all_hex(s: Seq<char>) -> bool {
    forall|i: int| 0 <= i < s.len() ==> hex_value(#[trigger] s[i]) is Some
}

/// The number that a sequence of hexadecimal digits denotes.
pub open spec fn hex_number(s: Seq<char>) -> nat
    decreases s.len(),
{
    if s.len() == 0 {
        0
    } else {
        hex_number(s.drop_last()) * 16 + hex_value(s.last()).unwrap_or(0)
    }
}

/// A group of an IPv6 address: one to four hexadecimal digits.
pub open spec fn parsed_group(s: Seq<char>) -> Option<u16> {
    if 0 < s.len() <= 4 && all_hex(s) {
        Some(hex_number(s) as u16)
    } else {
        None
    }
}

/// The groups that the pieces stand for.
pub open spec fn hex_groups(pieces: Seq<Seq<char>>) -> Option<Seq<u16>>
    decreases pieces.len(),
{
    if pieces.len() == 0 {
        Some(Seq::empty())
    } else {
        match (hex_groups(pieces.drop_last()), parsed_group(pieces.last())) {
            (Some(front), Some(group)) => Some(front.push(group)),
            _ => None,
        }
    }
}

/// The groups that the last part of an address stands for, which may end in a dotted IPv4
/// address in place of two groups.
pub open spec fn tail_groups(pieces: Seq<Seq<char>>) -> Option<Seq<u16>> {
    match parsed_ipv4(pieces.last()) {
        Some(ip) => match hex_groups(pieces.drop_last()) {
            Some(front) => Some(front.push((ip / 0x1_0000) as u16).push((ip % 0x1_0000) as u16)),
            None => None,
        },
        None => hex_groups(pieces),
    }
}

/// The number whose sixteen-bit groups, most significant first, are `groups`.
pub open spec fn groups_value(groups: Seq<u16>) -> nat
    decreases groups.len(),
{
    if groups.len() == 0 {
        0
    } else {
        groups_value(groups.drop_last()) * 0x1_0000 + groups.last() as nat
    }
}

/// The groups before a `::`.
pub open spec fn head_side(s: Seq<char>) -> Option<Seq<u16>> {
    if s.len() == 0 {
        Some(Seq::empty())
    } else {
        hex_groups(split_all(s, ':'))
    }
}

/// The groups after a `::`.
pub open spec fn tail_side(s: Seq<char>) -> Option<Seq<u16>> {
    if s.len() == 0 {
        Some(Seq::empty())
    } else {
        tail_groups(split_all(s, ':'))
    }
}

/// `n` groups of zero.
pub open spec fn zero_groups(n: nat) -> Seq<u16> {
    Seq::new(n, |i: int| 0u16)
}

/// The address that a text stands for: eight groups, or fewer with one `::` for at least one
/// group of zeros.
pub open spec fn parsed_ipv6(s: Seq<char>) -> Option<u128> {
    match split_first(s, "::"@) {
        None => match tail_groups(split_all(s, ':')) {
            Some(groups) if groups.len() == 8 => Some(groups_value(groups) as u128),
            _ => None,
        },
        Some((left, right)) => match (head_side(left), tail_side(right)) {
            (Some(head), Some(tail)) if head.len() + tail.len() <= 7 => Some(
                groups_value(
                    head + zero_groups((8 - head.len() - tail.len()) as nat) + tail,
                ) as u128,
            ),
            _ => None,
        },
    }
}

fn parse_group(s: &[char]) -> (r: Option<u16>)
    ensures
        r == parsed_group(s@),
{
    if s.len() == 0 || s.len() > 4 {
        return None;
    }
    let mut value: u32 = 0;
    let mut i: usize = 0;
    while i < s.len()
        invariant
            i <= s@.len() <= 4,
            value == hex_number(s@.take(i as int)),
            i == 0 ==> value == 0,
            i == 1 ==> value < 0x10,
            i == 2 ==> value < 0x100,
            i == 3 ==> value < 0x1000,
            i == 4 ==> value < 0x1_0000,
            all_hex(s@.take(i as int)),
        decreases s@.len() - i,
    {
        match hex_digit(s[i]) {
            Some(d) => {
                proof {
                    let next = s@.take(i as int + 1);
                    assert(next.drop_last() =~= s@.take(i as int));
                    assert(next.last() == s@[i as int]);
                    assert forall|j: int| 0 <= j < next.len() implies hex_value(
                        #[trigger] next[j],
                    ) is Some by {
                        if j < i {
                            assert(next[j] == s@.take(i as int)[j]);
                        }
                    }
                }
                value = value * 16 + d as u32;
            },
            None => {
                return None;
            },
        }
        i += 1;
    }
    assert(s@.take(s@.len() as int) =~= s@);
    Some(value as u16)
}

/// Read the first `n` pieces as groups.
fn parse_groups(pieces: &Vec<Vec<char>>, n: usize) -> (r: Option<Vec<u16>>)
    requires
        n <= pieces@.len(),
    ensures
        match r {
            Some(v) => hex_groups(pieces_view(pieces@).take(n as int)) == Some(v@),
            None => hex_groups(pieces_view(pieces@).take(n as int)) is None,
        },
    decreases n,
{
    if n == 0 {
        let v: Vec<u16> = Vec::new();
        assert(v@ =~= Seq::<u16>::empty());
        return Some(v);
    }
    let ghost texts = pieces_view(pieces@).take(n as int);
    proof {
        assert(texts.drop_last() =~= pieces_view(pieces@).take(n - 1));
        assert(texts.last() == pieces@[n - 1]@);
    }
    match (parse_groups(pieces, n - 1), parse_group(&pieces[n - 1])) {
        (Some(mut front), Some(group)) => {
            front.push(group);
            Some(front)
        },
        _ => None,
    }
}

/// Read pieces as groups, the last of which may be a dotted IPv4 address.
fn parse_tail(pieces: &Vec<Vec<char>>) -> (r: Option<Vec<u16>>)
    requires
        pieces@.len() > 0,
    ensures
        match r {
            Some(v) => tail_groups(pieces_view(pieces@)) == Some(v@),
            None => tail_groups(pieces_view(pieces@)) is None,
        },
{
    let n: usize = pieces.len();
    let ghost texts = pieces_view(pieces@);
    proof {
        assert(texts.last() == pieces@[n - 1]@);
        assert(texts.drop_last() =~= texts.take(n - 1));
        assert(texts.take(n as int) =~= texts);
    }
    match parse_ipv4(&pieces[n - 1]) {
        Some(ip) => match parse_groups(pieces, n - 1) {
            Some(mut front) => {
                front.push((ip / 0x1_0000) as u16);
                front.push((ip % 0x1_0000) as u16);
                Some(front)
            },
            None => None,
        },
        None => parse_groups(pieces, n),
    }
}

proof fn lemma_groups_bound(groups: Seq<u16>)
    requires
        groups.len() <= 8,
    ensures
        groups.len() == 0 ==> groups_value(groups) < 1,
        groups.len() == 1 ==> groups_value(groups) < 0x1_0000,
        groups.len() == 2 ==> groups_value(groups) < 0x1_0000_0000,
        groups.len() == 3 ==> groups_value(groups) < 0x1_0000_0000_0000,
        groups.len() == 4 ==> groups_value(groups) < 0x1_0000_0000_0000_0000,
        groups.len() == 5 ==> groups_value(groups) < 0x1_0000_0000_0000_0000_0000,
        groups.len() == 6 ==> groups_value(groups) < 0x1_0000_0000_0000_0000_0000_0000,
        groups.len() == 7 ==> groups_value(groups) < 0x1_0000_0000_0000_0000_0000_0000_0000,
        groups.len() == 8 ==> groups_value(groups) < 0x1_0000_0000_0000_0000_0000_0000_0000_0000,
    decreases groups.len(),
{
    if groups.len() > 0 {
        lemma_groups_bound(groups.drop_last());
    }
}

/// The number of eight groups.
fn value_of_groups(groups: &Vec<u16>) -> (r: u128)
    requires
        groups@.len() == 8,
    ensures
        r == groups_value(groups@),
{
    let mut value: u128 = 0;
    let mut i: usize = 0;
    while i < 8
        invariant
            i <= 8,
            groups@.len() == 8,
            value == groups_value(groups@.take(i as int)),
        decreases 8 - i,
    {
        proof {
            lemma_groups_bound(groups@.take(i as int));
            lemma_groups_bound(groups@.take(i as int + 1));
            assert(groups@.take(i as int + 1).drop_last() =~= groups@.take(i as int));
        }
        value = value * 0x1_0000 + groups[i] as u128;
        i += 1;
    }
    assert(groups@.take(8) =~= groups@);
    value
}

/// Read an IPv6 address.
pub fn parse_ipv6(s: &[char]) -> (r: Option<u128>)
    ensures
        r == parsed_ipv6(s@),
{
    let gap = chars_of("::");
    match split_once(s, &gap) {
        None => {
            let pieces = split_on(s, ':');
            match parse_tail(&pieces) {
                Some(groups) => {
                    if groups.len() == 8 {
                        Some(value_of_groups(&groups))
                    } else {
                        None
                    }
                },
                None => None,
            }
        },
        Some((left, right)) => {
            let head = if left.len() == 0 {
                Some(Vec::new())
            } else {
                let pieces = split_on(left, ':');
                assert(pieces_view(pieces@).take(pieces@.len() as int) =~= pieces_view(pieces@));
                parse_groups(&pieces, pieces.len())
            };
            let tail = if right.len() == 0 {
                Some(Vec::new())
            } else {
                let pieces = split_on(right, ':');
                parse_tail(&pieces)
            };
            assert(match head {
                Some(v) => head_side(left@) == Some(v@),
                None => head_side(left@) is None,
            }) by {
                if left@.len() == 0 {
                    assert(head->0@ =~= Seq::<u16>::empty());
                }
            }
            assert(match tail {
                Some(v) => tail_side(right@) == Some(v@),
                None => tail_side(right@) is None,
            }) by {
                if right@.len() == 0 {
                    assert(tail->0@ =~= Seq::<u16>::empty());
                }
            }
            match (head, tail) {
                (Some(head), Some(tail)) => {
                    if head.len() > 7 || tail.len() > 7 - head.len() {
                        return None;
                    }
                    Some(value_of_groups(&with_gap(head, &tail)))
                },
                _ => None,
            }
        },
    }
}

/// `head`, as many zeros as are missing to eight groups, and `tail`.
fn with_gap(head: Vec<u16>, tail: &Vec<u16>) -> (r: Vec<u16>)
    requires
        head@.len() + tail@.len() <= 7,
    ensures
        r@ == head@ + zero_groups((8 - head@.len() - tail@.len()) as nat) + tail@,
{
    let mut groups = head;
    let ghost start = head@;
    while groups.len() < 8 - tail.len()
        invariant
            start.len() + tail@.len() <= 7,
            start.len() <= groups@.len() <= 8 - tail@.len(),
            groups@ == start + zero_groups((groups@.len() - start.len()) as nat),
        decreases 8 - groups@.len(),
    {
        groups.push(0);
        assert(groups@ =~= start + zero_groups((groups@.len() - start.len()) as nat));
    }
    let ghost front = groups@;
    let mut i: usize = 0;
    while i < tail.len()
        invariant
            i <= tail@.len(),
            groups@ == front + tail@.take(i as int),
        decreases tail@.len() - i,
    {
        groups.push(tail[i]);
        i += 1;
        assert(groups@ =~= front + tail@.take(i as int));
    }
    assert(tail@.take(tail@.len() as int) =~= tail@);
    groups
}

// ---------------------------------------------------------------------------
// Socket addresses
// ---------------------------------------------------------------------------

/// A number in decimal digits, which may have leading zeros.
pub open spec fn parsed_digits(s: Seq<char>, max: nat) -> Option<nat> {
    if s.len() > 0 && all_digits(s) && dec_value(s) <= max {
        Some(dec_value(s))
    } else {
        None
    }
}

fn parse_digits(s: &[char], max: u64) -> (r: Option<u64>)
    requires
        max <= 0xffff_ffff,
    ensures
        match r {
            Some(n) => parsed_digits(s@, max as nat) == Some(n as nat) && n <= max,
            None => parsed_digits(s@, max as nat) is None,
        },
{
    if s.len() > 0 && s[0] == '+' {
        proof {
            if all_digits(s@) {
                assert(is_digit(s@[0]));
            }
        }
        return None;
    }
    parse_dec(s, max)
}

/// The address between the brackets of an IPv6 endpoint: an IPv6 address and, after a percent
/// sign, an optional numeric scope.
pub open spec fn parsed_scoped_ipv6(s: Seq<char>) -> Option<(u128, u32)> {
    match split_first(s, "%"@) {
        None => match parsed_ipv6(s) {
            Some(ip) => Some((ip, 0)),
            None => None,
        },
        Some((addr, scope)) => match (parsed_ipv6(addr), parsed_digits(scope, 0xffff_ffff)) {
            (Some(ip), Some(scope)) => Some((ip, scope as u32)),
            _ => None,
        },
    }
}

/// The endpoint that a text stands for: `a.b.c.d:port` or `[ipv6]:port`.
pub open spec fn parsed_socket_addr(s: Seq<char>) -> Option<SocketAddr> {
    if s.len() > 0 && s[0] == '[' {
        match split_first(s.skip(1), "]:"@) {
            Some((inner, port)) => match (
                parsed_scoped_ipv6(inner),
                parsed_digits(port, 0xffff),
            ) {
                (Some((ip, scope_id)), Some(port)) => Some(
                    SocketAddr::V6 { ip, port: port as u16, flowinfo: 0, scope_id },
                ),
                _ => None,
            },
            None => None,
        }
    } else {
        match split_first(s, ":"@) {
            Some((addr, port)) => match (parsed_ipv4(addr), parsed_digits(port, 0xffff)) {
                (Some(ip), Some(port)) => Some(SocketAddr::V4 { ip, port: port as u16 }),
                _ => None,
            },
            None => None,
        }
    }
}

fn parse_scoped_ipv6(s: &[char]) -> (r: Option<(u128, u32)>)
    ensures
        r == parsed_scoped_ipv6(s@),
{
    let percent = chars_of("%");
    match split_once(s, &percent) {
        None => match parse_ipv6(s) {
            Some(ip) => Some((ip, 0)),
            None => None,
        },
        Some((addr, scope)) => match (parse_ipv6(addr), parse_digits(scope, 0xffff_ffff)) {
            (Some(ip), Some(scope)) => Some((ip, scope as u32)),
            _ => None,
        },
    }
}

/// Read an endpoint.
pub fn parse_socket_addr(s: &[char]) -> (r: Option<SocketAddr>)
    ensures
        r == parsed_socket_addr(s@),
{
    if s.len() > 0 && s[0] == '[' {
        let rest = slice_subrange(s, 1, s.len());
        assert(rest@ =~= s@.skip(1));
        let close = chars_of("]:");
        match split_once(rest, &close) {
            Some((inner, port)) => match (parse_scoped_ipv6(inner), parse_digits(port, 0xffff)) {
                (Some((ip, scope_id)), Some(port)) => Some(
                    SocketAddr::V6 { ip, port: port as u16, flowinfo: 0, scope_id },
                ),
                _ => None,
            },
            None => None,
        }
    } else {
        let colon = chars_of(":");
        match split_once(s, &colon) {
            Some((addr, port)) => match (parse_ipv4(addr), parse_digits(port, 0xffff)) {
                (Some(ip), Some(port)) => Some(SocketAddr::V4 { ip, port: port as u16 }),
                _ => None,
            },
            None => None,
        }
    }
}

/// The text stands for no endpoint.
#[derive(Clone, Copy, Debug, PartialEq, Eq, Structural)]
pub struct AddrParseError;

impl std::str::FromStr for SocketAddr {
    type Err = AddrParseError;

    fn from_str(s: &str) -> (r: Result<SocketAddr, AddrParseError>)
        ensures
            match r {
                Ok(addr) => parsed_socket_addr(s@) == Some(addr),
                Err(_) => parsed_socket_addr(s@) is None,
            },
    {
        match parse_socket_addr(&chars_of(s)) {
            Some(addr) => Ok(addr),
            None => Err(AddrParseError),
        }
    }
}

/// An IPv4 endpoint that is written out reads back as itself.
pub proof fn law_socket_addr_roundtrip(ip: u32, port: u16)
    ensures
        parsed_socket_addr(ipv4_text(ip) + ":"@ + dec(port as nat)) == Some(
            SocketAddr::V4 { ip, port },
        ),
{
    reveal_strlit(":");
    let host = ipv4_text(ip);
    let digits = dec(port as nat);
    let s = host + ":"@ + digits;
    lemma_ipv4_text_chars(ip);
    law_ipv4_roundtrip(ip);
    lemma_dec(port as nat);
    assert(":"@ =~= seq![':']);
    law_split_first(host, ':', digits);
    assert(s[0] == host[0]);
}

/// The text of an IPv4 address starts with a digit and holds only digits and dots.
pub proof fn lemma_ipv4_text_chars(ip: u32)
    ensures
        ipv4_text(ip).len() > 0,
        is_digit(ipv4_text(ip)[0]),
        !ipv4_text(ip).contains(':'),
{
    let t = octet_texts(ip);
    assert forall|i: int| 0 <= i < 4 implies !(#[trigger] t[i]).contains(':') && t[i].len() > 0
        && is_digit(t[i][0]) by {
        lemma_dec_chars(octets(ip)[i], ':');
        lemma_dec(octets(ip)[i]);
    }
    lemma_join_chars(t, '.', ':');
}

/// Pieces without a character stay without it when they are joined by another one.
pub proof fn lemma_join_chars(pieces: Seq<Seq<char>>, sep: char, c: char)
    requires
        pieces.len() > 0,
        sep != c,
        forall|i: int| 0 <= i < pieces.len() ==> !(#[trigger] pieces[i]).contains(c)
            && pieces[i].len() > 0,
    ensures
        !join(pieces, sep).contains(c),
        join(pieces, sep).len() > 0,
        join(pieces, sep)[0] == pieces[0][0],
    decreases pieces.len(),
{
    assert(!pieces[0].contains(c) && pieces[0].len() > 0);
    if pieces.len() > 1 {
        let front = pieces.drop_last();
        assert forall|i: int| 0 <= i < front.len() implies !(#[trigger] front[i]).contains(c)
            && front[i].len() > 0 by {
            assert(!pieces[i].contains(c));
        }
        lemma_join_chars(front, sep, c);
        let all = join(pieces, sep);
        let before = join(front, sep);
        assert(!pieces[pieces.len() - 1].contains(c));
        if all.contains(c) {
            let i = choose|i: int| 0 <= i < all.len() && all[i] == c;
            if i < before.len() {
                assert(before[i] == c);
            } else if i > before.len() {
                assert(pieces.last()[i - before.len() - 1] == c);
            }
        }
    }
}

/// An IPv4 address with something else than a port behind it is no endpoint.
pub proof fn lemma_not_socket_addr(ip: u32, tail: Seq<char>)
    requires
        parsed_digits(tail, 0xffff) is None,
    ensures
        parsed_socket_addr(ipv4_text(ip) + ":"@ + tail) is None,
{
    reveal_strlit(":");
    let host = ipv4_text(ip);
    lemma_ipv4_text_chars(ip);
    assert(":"@ =~= seq![':']);
    law_split_first(host, ':', tail);
    assert((host + ":"@ + tail)[0] == host[0]);
}

/// An IPv4 address with the port 0.
pub proof fn lemma_socket_addr_zero(ip: u32)
    ensures
        parsed_socket_addr(ipv4_text(ip) + ":0"@) == Some(SocketAddr::V4 { ip, port: 0 }),
{
    reveal_strlit(":");
    reveal_strlit(":0");
    let host = ipv4_text(ip);
    law_socket_addr_roundtrip(ip, 0);
    assert(dec(0) =~= seq!['0']);
    assert(host + ":0"@ =~= host + ":"@ + dec(0));
}

}
