//! PROXY protocol headers: how the address of an end user is passed on to a local TCP service that
//! expects it.

use crate::addr::push_ipv4;
use crate::addr::{
    groups_value, head_side, hex_groups, hex_number, ipv4_text, lemma_join_chars, octet_texts,
    parsed_group, parsed_ipv4, parsed_ipv6, parsed_socket_addr, tail_side, zero_groups, IpAddr,
    SocketAddr,
};
use crate::buffer::{be, from_be, lemma_from_be_be, lemma_pow256_widths};
use crate::buffer::{be16_bytes, be_bytes};
use crate::config::ProxyProtocol;
use crate::text::{
    dec, first_match, hex_char, hex_lower, join, lemma_dec, lemma_dec_chars,
    lemma_hex_value_of_char, lemma_split_append, lemma_split_first, lemma_split_join,
    lemma_split_single, matches_at, split_all, split_first,
};
use crate::text::{push_dec, push_hex};
use vstd::prelude::*;
use vstd::slice::slice_subrange;

verus! {

/// An IPv6 address in its long form: groups of four hex digits.
pub open spec fn groups_text(bytes: Seq<u8>) -> Seq<char>
    decreases bytes.len(),
{
    if bytes.len() <= 2 {
        hex_lower(bytes)
    } else {
        groups_text(bytes.take(bytes.len() - 2)) + ":"@ + hex_lower(bytes.skip(bytes.len() - 2))
    }
}

/// The address of a header, as text.
pub open spec fn ip_text(ip: IpAddr) -> Seq<char> {
    match ip {
        IpAddr::V4(ip) => ipv4_text(ip),
        IpAddr::V6(ip) => groups_text(be(ip as nat, 16)),
    }
}

/// The address of a header, as bytes.
pub open spec fn ip_bytes(ip: IpAddr) -> Seq<u8> {
    match ip {
        IpAddr::V4(ip) => be(ip as nat, 4),
        IpAddr::V6(ip) => be(ip as nat, 16),
    }
}

/// Whether two addresses are of one family.
pub open spec fn same_family(a: SocketAddr, b: SocketAddr) -> bool {
    a.spec_ip() is V4 == b.spec_ip() is V4
}

/// The text of a version 1 header.
pub open spec fn v1_text(src: SocketAddr, dst: SocketAddr) -> Seq<char> {
    (if src.spec_ip() is V4 {
        "PROXY TCP4 "@
    } else {
        "PROXY TCP6 "@
    }) + ip_text(src.spec_ip()) + " "@ + ip_text(dst.spec_ip()) + " "@ + dec(src.spec_port() as nat)
        + " "@ + dec(dst.spec_port() as nat) + "\r\n"@
}

/// The signature that version 2 headers start with.
pub open spec fn v2_signature() -> Seq<u8> {
    seq![0x0du8, 0x0a, 0x0d, 0x0a, 0x00, 0x0d, 0x0a, 0x51, 0x55, 0x49, 0x54, 0x0a]
}

/// A version 2 header for a proxied connection over TCP: family, length, addresses and ports.
pub open spec fn v2_header(src: SocketAddr, dst: SocketAddr) -> Seq<u8> {
    v2_signature() + (if src.spec_ip() is V4 {
        seq![0x21u8, 0x11, 0, 12]
    } else {
        seq![0x21u8, 0x21, 0, 36]
    }) + ip_bytes(src.spec_ip()) + ip_bytes(dst.spec_ip()) + be(src.spec_port() as nat, 2) + be(
        dst.spec_port() as nat,
        2,
    )
}

/// The header of a connection. When the addresses are not known, or not of one family, the header
/// says so.
pub open spec fn header(
    mode: ProxyProtocol,
    src: Option<SocketAddr>,
    dst: Option<SocketAddr>,
) -> Seq<u8> {
    match (mode, src, dst) {
        (ProxyProtocol::Off, _, _) => Seq::empty(),
        (ProxyProtocol::V1, Some(src), Some(dst)) if same_family(src, dst) =>
            vstd::utf8::encode_utf8(v1_text(src, dst)),
        (ProxyProtocol::V2, Some(src), Some(dst)) if same_family(src, dst) => v2_header(src, dst),
        (ProxyProtocol::V1, _, _) => vstd::utf8::encode_utf8("PROXY UNKNOWN\r\n"@),
        (ProxyProtocol::V2, _, _) => v2_signature() + seq![0x20u8, 0, 0, 0],
    }
}

fn push_groups(out: &mut String, bytes: &[u8])
    requires
        bytes@.len() % 2 == 0,
        bytes@.len() > 0,
    ensures
        final(out)@ == old(out)@ + groups_text(bytes@),
{
    let ghost start = out@;
    push_hex(out, slice_subrange(bytes, 0, 2));
    let mut i: usize = 2;
    proof {
        assert(bytes@.subrange(0, 2) =~= bytes@.take(2));
    }
    while i < bytes.len()
        invariant
            2 <= i <= bytes@.len(),
            i % 2 == 0,
            bytes@.len() % 2 == 0,
            out@ == start + groups_text(bytes@.take(i as int)),
        decreases bytes@.len() - i,
    {
        out.append(":");
        push_hex(out, slice_subrange(bytes, i, i + 2));
        i += 2;
        proof {
            let now = bytes@.take(i as int);
            assert(now.take(i as int - 2) =~= bytes@.take(i as int - 2));
            assert(now.skip(i as int - 2) =~= bytes@.subrange(i as int - 2, i as int));
            assert(out@ =~= start + groups_text(now));
        }
    }
    assert(bytes@.take(bytes@.len() as int) =~= bytes@);
}

fn push_ip(out: &mut String, ip: IpAddr)
    ensures
        final(out)@ == old(out)@ + ip_text(ip),
{
    match ip {
        IpAddr::V4(ip) => push_ipv4(out, ip),
        IpAddr::V6(ip) => {
            let bytes = be16_bytes(ip);
            push_groups(out, &bytes);
        },
    }
}

fn v1_string(src: SocketAddr, dst: SocketAddr) -> (r: String)
    ensures
        r@ == v1_text(src, dst),
{
    let mut out = if src.is_ipv4() {
        "PROXY TCP4 ".to_string()
    } else {
        "PROXY TCP6 ".to_string()
    };
    push_ip(&mut out, src.ip());
    out.append(" ");
    push_ip(&mut out, dst.ip());
    out.append(" ");
    push_dec(&mut out, src.port() as u64);
    out.append(" ");
    push_dec(&mut out, dst.port() as u64);
    out.append("\r\n");
    out
}

fn ip_octets(ip: IpAddr) -> (r: Vec<u8>)
    ensures
        r@ == ip_bytes(ip),
{
    match ip {
        IpAddr::V4(ip) => be_bytes(ip as u128, 4),
        IpAddr::V6(ip) => be16_bytes(ip),
    }
}

fn signature() -> (r: Vec<u8>)
    ensures
        r@ == v2_signature(),
{
    let r: Vec<u8> = vec![0x0d, 0x0a, 0x0d, 0x0a, 0x00, 0x0d, 0x0a, 0x51, 0x55, 0x49, 0x54, 0x0a];
    assert(r@ =~= v2_signature());
    r
}

fn v2_bytes(src: SocketAddr, dst: SocketAddr) -> (r: Vec<u8>)
    ensures
        r@ == v2_header(src, dst),
{
    let mut out = signature();
    let mut kind: Vec<u8> = if src.is_ipv4() {
        vec![0x21, 0x11, 0, 12]
    } else {
        vec![0x21, 0x21, 0, 36]
    };
    proof {
        assert(kind@ =~= if src.spec_ip() is V4 {
            seq![0x21u8, 0x11, 0, 12]
        } else {
            seq![0x21u8, 0x21, 0, 36]
        });
    }
    out.append(&mut kind);
    let mut from = ip_octets(src.ip());
    out.append(&mut from);
    let mut to = ip_octets(dst.ip());
    out.append(&mut to);
    let mut from_port = be_bytes(src.port() as u128, 2);
    out.append(&mut from_port);
    let mut to_port = be_bytes(dst.port() as u128, 2);
    out.append(&mut to_port);
    out
}

/// The header that precedes the bytes of an end user's connection.
pub fn proxy_header(
    mode: ProxyProtocol,
    src: Option<SocketAddr>,
    dst: Option<SocketAddr>,
) -> (r: Vec<u8>)
    ensures
        r@ == header(mode, src, dst),
{
    let known: Option<(SocketAddr, SocketAddr)> = match (src, dst) {
        (Some(src), Some(dst)) => if src.is_ipv4() == dst.is_ipv4() {
            Some((src, dst))
        } else {
            None
        },
        _ => None,
    };
    match mode {
        ProxyProtocol::Off => Vec::new(),
        ProxyProtocol::V1 => match known {
            Some((src, dst)) => {
                let text = v1_string(src, dst);
                vstd::slice::slice_to_vec(text.as_str().as_bytes())
            },
            None => vstd::slice::slice_to_vec("PROXY UNKNOWN\r\n".as_bytes()),
        },
        ProxyProtocol::V2 => match known {
            Some((src, dst)) => v2_bytes(src, dst),
            None => {
                let mut out = signature();
                let mut kind: Vec<u8> = vec![0x20, 0, 0, 0];
                assert(kind@ =~= seq![0x20u8, 0, 0, 0]);
                out.append(&mut kind);
                out
            },
        },
    }
}

/// The length that a version 2 header announces is the number of bytes that follow it.
pub proof fn law_v2_length(src: SocketAddr, dst: SocketAddr)
    requires
        same_family(src, dst),
    ensures
        v2_header(src, dst).len() == 16 + v2_header(src, dst)[14] * 256 + v2_header(src, dst)[15],
{
    crate::buffer::lemma_be_len(src.spec_port() as nat, 2);
    crate::buffer::lemma_be_len(dst.spec_port() as nat, 2);
    match (src.spec_ip(), dst.spec_ip()) {
        (IpAddr::V4(a), IpAddr::V4(b)) => {
            crate::buffer::lemma_be_len(a as nat, 4);
            crate::buffer::lemma_be_len(b as nat, 4);
        },
        (IpAddr::V6(a), IpAddr::V6(b)) => {
            crate::buffer::lemma_be_len(a as nat, 16);
            crate::buffer::lemma_be_len(b as nat, 16);
        },
        _ => {},
    }
}

/// When a header carries addresses: both ends are known and of one family, and the tunnel passes
/// them on. Without that a header of either version says that they are unknown, and a tunnel that
/// passes nothing on sends no header.
pub proof fn law_header_kinds(src: Option<SocketAddr>, dst: Option<SocketAddr>)
    ensures
        header(ProxyProtocol::Off, src, dst).len() == 0,
        match (src, dst) {
            (Some(SocketAddr::V4 { ip: a, port: p }), Some(SocketAddr::V4 { ip: b, port: q })) => {
                let (s, d) = (SocketAddr::V4 { ip: a, port: p }, SocketAddr::V4 { ip: b, port: q });
                &&& header(ProxyProtocol::V1, src, dst) == vstd::utf8::encode_utf8(v1_text(s, d))
                &&& header(ProxyProtocol::V2, src, dst) == v2_header(s, d)
            },
            (Some(SocketAddr::V6 { .. }), Some(SocketAddr::V6 { .. })) => {
                &&& header(ProxyProtocol::V1, src, dst) == vstd::utf8::encode_utf8(
                    v1_text(src->0, dst->0),
                )
                &&& header(ProxyProtocol::V2, src, dst) == v2_header(src->0, dst->0)
            },
            _ => {
                &&& header(ProxyProtocol::V1, src, dst) == vstd::utf8::encode_utf8(
                    "PROXY UNKNOWN\r\n"@,
                )
                &&& header(ProxyProtocol::V2, src, dst).len() == 16
                &&& header(ProxyProtocol::V2, src, dst)[12] == 0x20
                &&& header(ProxyProtocol::V2, src, dst)[14] == 0
                &&& header(ProxyProtocol::V2, src, dst)[15] == 0
            },
        },
{
}

/// A version 1 header reads as six words: the marker, the family, the two addresses and the two
/// ports, those of the source first, and it ends the line.
pub proof fn law_v1_words(src: SocketAddr, dst: SocketAddr)
    requires
        same_family(src, dst),
    ensures
        ({
            let words = split_all(v1_text(src, dst), ' ');
            &&& words.len() == 6
            &&& words[0] == "PROXY"@
            &&& words[1] == (if src is V4 {
                "TCP4"@
            } else {
                "TCP6"@
            })
            &&& words[2] == ip_text(src.spec_ip())
            &&& words[3] == ip_text(dst.spec_ip())
            &&& words[4] == dec(src.spec_port() as nat)
            &&& words[5] == dec(dst.spec_port() as nat) + "\r\n"@
        }),
        src matches SocketAddr::V4 { ip, .. } ==> ip_text(src.spec_ip()) == ipv4_text(ip),
{
    reveal_strlit("PROXY");
    reveal_strlit("TCP4");
    reveal_strlit("TCP6");
    reveal_strlit("PROXY TCP4 ");
    reveal_strlit("PROXY TCP6 ");
    reveal_strlit(" ");
    reveal_strlit("\r\n");
    let family = if src is V4 {
        "TCP4"@
    } else {
        "TCP6"@
    };
    let (a, b) = (ip_text(src.spec_ip()), ip_text(dst.spec_ip()));
    let (p, q) = (dec(src.spec_port() as nat), dec(dst.spec_port() as nat) + "\r\n"@);
    lemma_ip_text_chars(src.spec_ip());
    lemma_ip_text_chars(dst.spec_ip());
    lemma_dec_chars(src.spec_port() as nat, ' ');
    lemma_dec_chars(dst.spec_port() as nat, ' ');
    assert(!q.contains(' ')) by {
        if q.contains(' ') {
            let i = choose|i: int| 0 <= i < q.len() && q[i] == ' ';
            let d = dec(dst.spec_port() as nat);
            if i < d.len() {
                assert(d[i] == ' ');
            }
        }
    }
    assert(!"PROXY"@.contains(' '));
    assert(!family.contains(' '));
    let words = seq!["PROXY"@, family, a, b, p, q];
    assert forall|i: int| 0 <= i < words.len() implies !(#[trigger] words[i]).contains(' ') by {}
    lemma_split_join(words, ' ');
    lemma_join_six(words, ' ');
    assert(v1_text(src, dst) =~= words[0].push(' ') + words[1].push(' ') + words[2].push(' ')
        + words[3].push(' ') + words[4].push(' ') + words[5]);
}

proof fn lemma_join_six(words: Seq<Seq<char>>, sep: char)
    requires
        words.len() == 6,
    ensures
        join(words, sep) == words[0].push(sep) + words[1].push(sep) + words[2].push(sep)
            + words[3].push(sep) + words[4].push(sep) + words[5],
{
    let w5 = words.drop_last();
    let w4 = w5.drop_last();
    let w3 = w4.drop_last();
    let w2 = w3.drop_last();
    assert(w2.drop_last().len() == 1 && w2.drop_last()[0] == words[0]);
    assert(join(w2.drop_last(), sep) == words[0]);
    assert(w2.len() == 2 && w2.last() == words[1]);
    assert(join(w2, sep) =~= words[0].push(sep) + words[1]);
    assert(join(w3, sep) =~= words[0].push(sep) + words[1].push(sep) + words[2]);
    assert(join(w4, sep) =~= words[0].push(sep) + words[1].push(sep) + words[2].push(sep)
        + words[3]);
    assert(join(w5, sep) =~= words[0].push(sep) + words[1].push(sep) + words[2].push(sep)
        + words[3].push(sep) + words[4]);
    assert(join(words, sep) =~= words[0].push(sep) + words[1].push(sep) + words[2].push(sep)
        + words[3].push(sep) + words[4].push(sep) + words[5]);
}

proof fn lemma_ip_text_chars(ip: IpAddr)
    ensures
        !ip_text(ip).contains(' '),
{
    match ip {
        IpAddr::V4(ip) => {
            let t = crate::addr::octet_texts(ip);
            assert forall|i: int| 0 <= i < 4 implies !(#[trigger] t[i]).contains(' ')
                && t[i].len() > 0 by {
                lemma_dec_chars(crate::addr::octets(ip)[i], ' ');
                lemma_dec(crate::addr::octets(ip)[i]);
            }
            lemma_join_chars(t, '.', ' ');
        },
        IpAddr::V6(ip) => {
            lemma_groups_chars(be(ip as nat, 16));
        },
    }
}

proof fn lemma_groups_chars(bytes: Seq<u8>)
    ensures
        !groups_text(bytes).contains(' '),
    decreases bytes.len(),
{
    reveal_strlit(":");
    let t = groups_text(bytes);
    if bytes.len() <= 2 {
        if t.contains(' ') {
            let i = choose|i: int| 0 <= i < t.len() && t[i] == ' ';
            assert(false);
        }
    } else {
        let front = groups_text(bytes.take(bytes.len() - 2));
        let last = hex_lower(bytes.skip(bytes.len() - 2));
        lemma_groups_chars(bytes.take(bytes.len() - 2));
        if t.contains(' ') {
            let i = choose|i: int| 0 <= i < t.len() && t[i] == ' ';
            if i < front.len() {
                assert(front[i] == ' ');
            } else if i > front.len() {
                assert(last[i - front.len() - 1] == ' ');
            }
        }
    }
}

/// The long form of an IPv6 address has a group of four hex digits for every two bytes, in order.
pub proof fn law_groups_of_bytes(bytes: Seq<u8>, k: int)
    requires
        bytes.len() % 2 == 0,
        0 <= k < bytes.len() / 2,
    ensures
        split_all(groups_text(bytes), ':').len() == bytes.len() / 2,
        split_all(groups_text(bytes), ':')[k] == hex_lower(bytes.subrange(2 * k, 2 * k + 2)),
    decreases bytes.len(),
{
    reveal_strlit(":");
    if bytes.len() == 2 {
        let t = hex_lower(bytes);
        assert(!t.contains(':')) by {
            if t.contains(':') {
                let i = choose|i: int| 0 <= i < t.len() && t[i] == ':';
                assert(false);
            }
        }
        lemma_split_single(t, ':');
        assert(bytes.subrange(0, 2) =~= bytes);
    } else {
        let n = bytes.len() - 2;
        let front = bytes.take(n);
        let last = hex_lower(bytes.skip(n));
        assert(!last.contains(':')) by {
            if last.contains(':') {
                let i = choose|i: int| 0 <= i < last.len() && last[i] == ':';
                assert(false);
            }
        }
        lemma_split_append(groups_text(front), last, ':');
        assert(groups_text(bytes) =~= groups_text(front).push(':') + last);
        law_groups_of_bytes(front, 0);
        if k < front.len() / 2 {
            law_groups_of_bytes(front, k);
            assert(front.subrange(2 * k, 2 * k + 2) =~= bytes.subrange(2 * k, 2 * k + 2));
        } else {
            assert(bytes.skip(n) =~= bytes.subrange(2 * k, 2 * k + 2));
        }
    }
}

/// A version 2 header says what it is: its signature, that the connection is proxied over TCP, its
/// family, and the two addresses and ports, those of the source first.
pub proof fn law_v2_fields(src: SocketAddr, dst: SocketAddr)
    requires
        same_family(src, dst),
    ensures
        ({
            let h = v2_header(src, dst);
            let n: int = if src is V4 {
                4
            } else {
                16
            };
            &&& h.len() == 16 + 2 * n + 4
            &&& h.take(12) == seq![
                0x0du8,
                0x0a,
                0x0d,
                0x0a,
                0x00,
                0x0d,
                0x0a,
                0x51,
                0x55,
                0x49,
                0x54,
                0x0a,
            ]
            &&& h[12] == 0x21
            &&& h[13] == (if src is V4 {
                0x11u8
            } else {
                0x21u8
            })
            &&& from_be(h.subrange(16, 16 + n)) == (match src.spec_ip() {
                IpAddr::V4(ip) => ip as nat,
                IpAddr::V6(ip) => ip as nat,
            })
            &&& from_be(h.subrange(16 + n, 16 + 2 * n)) == (match dst.spec_ip() {
                IpAddr::V4(ip) => ip as nat,
                IpAddr::V6(ip) => ip as nat,
            })
            &&& from_be(h.subrange(16 + 2 * n, 18 + 2 * n)) == src.spec_port()
            &&& from_be(h.subrange(18 + 2 * n, 20 + 2 * n)) == dst.spec_port()
        }),
{
    let h = v2_header(src, dst);
    let n: int = if src is V4 {
        4
    } else {
        16
    };
    lemma_pow256_widths();
    lemma_from_be_be(src.spec_port() as nat, 2);
    lemma_from_be_be(dst.spec_port() as nat, 2);
    match (src.spec_ip(), dst.spec_ip()) {
        (IpAddr::V4(a), IpAddr::V4(b)) => {
            lemma_from_be_be(a as nat, 4);
            lemma_from_be_be(b as nat, 4);
        },
        (IpAddr::V6(a), IpAddr::V6(b)) => {
            lemma_from_be_be(a as nat, 16);
            lemma_from_be_be(b as nat, 16);
        },
        _ => {},
    }
    assert(ip_bytes(src.spec_ip()).len() == n && ip_bytes(dst.spec_ip()).len() == n);
    assert(h.take(12) =~= v2_signature());
    assert(h.subrange(16, 16 + n) =~= ip_bytes(src.spec_ip()));
    assert(h.subrange(16 + n, 16 + 2 * n) =~= ip_bytes(dst.spec_ip()));
    assert(h.subrange(16 + 2 * n, 18 + 2 * n) =~= be(src.spec_port() as nat, 2));
    assert(h.subrange(18 + 2 * n, 20 + 2 * n) =~= be(dst.spec_port() as nat, 2));
}

/// The long form of an IPv6 address reads back as that address, alone and in brackets before a
/// port.
pub proof fn law_ipv6_reads_back(ip: u128, port: u16)
    ensures
        parsed_ipv6(ip_text(IpAddr::V6(ip))) == Some(ip),
        parsed_socket_addr("["@ + ip_text(IpAddr::V6(ip)) + "]:"@ + dec(port as nat)) == Some(
            SocketAddr::V6 { ip, port, flowinfo: 0, scope_id: 0 },
        ),
{
    let bytes = be(ip as nat, 16);
    let text = groups_text(bytes);
    lemma_pow256_widths();
    lemma_from_be_be(ip as nat, 16);
    lemma_groups_read_back(bytes);
    reveal_strlit("[");
    reveal_strlit("]:");
    reveal_strlit("%");
    let digits = dec(port as nat);
    let s = "["@ + text + "]:"@ + digits;
    let inner = s.skip(1);
    let i = text.len() as int;
    assert(inner =~= text + "]:"@ + digits);
    assert(inner.subrange(i, i + 2) =~= "]:"@);
    assert forall|j: int| 0 <= j < i implies !#[trigger] matches_at(inner, "]:"@, j) by {
        if matches_at(inner, "]:"@, j) {
            assert(inner.subrange(j, j + 2)[0] == "]:"@[0]);
            assert(text[j] == ']');
        }
    }
    assert(first_match(inner, "]:"@, i));
    lemma_split_first(inner, "]:"@, i);
    assert(inner.take(i) =~= text);
    assert(inner.skip(i + 2) =~= digits);
    assert forall|j: int| !#[trigger] matches_at(text, "%"@, j) by {
        if matches_at(text, "%"@, j) {
            assert(text.subrange(j, j + 1)[0] == "%"@[0]);
            assert(text[j] == '%');
        }
    }
    lemma_dec(port as nat);
    assert(s[0] == '[');
}

proof fn lemma_groups_read_back(bytes: Seq<u8>)
    requires
        bytes.len() == 16,
    ensures
        parsed_ipv6(groups_text(bytes)) == Some(from_be(bytes) as u128),
        forall|j: int|
            0 <= j < groups_text(bytes).len() ==> (#[trigger] groups_text(bytes)[j]) != ']'
                && groups_text(bytes)[j] != '%',
{
    let text = groups_text(bytes);
    lemma_groups_layout(bytes);
    reveal_strlit("::");
    assert forall|j: int| !#[trigger] matches_at(text, "::"@, j) by {
        if matches_at(text, "::"@, j) {
            let m = text.subrange(j, j + 2);
            assert(m[0] == "::"@[0] && m[1] == "::"@[1]);
            assert(text[j] == ':' && text[j + 1] == ':');
        }
    }
    let pieces = split_all(text, ':');
    law_groups_of_bytes(bytes, 0);
    assert forall|k: int| 0 <= k < 8 implies #[trigger] pieces[k] == hex_lower(
        bytes.subrange(2 * k, 2 * k + 2),
    ) by {
        law_groups_of_bytes(bytes, k);
    }
    lemma_piece_not_ipv4(bytes.subrange(14, 16));
    assert(pieces.last() == pieces[7]);
    lemma_groups_of_pieces(pieces, bytes);
}

proof fn lemma_groups_layout(bytes: Seq<u8>)
    requires
        bytes.len() % 2 == 0,
        bytes.len() >= 2,
    ensures
        groups_text(bytes).len() == 5 * (bytes.len() / 2) - 1,
        forall|j: int|
            0 <= j < groups_text(bytes).len() ==> ((#[trigger] groups_text(bytes)[j]) == ':' <==> j
                % 5 == 4) && groups_text(bytes)[j] != ']' && groups_text(bytes)[j] != '%',
    decreases bytes.len(),
{
    reveal_strlit(":");
    let t = groups_text(bytes);
    if bytes.len() > 2 {
        let n = bytes.len() - 2;
        let front = groups_text(bytes.take(n));
        let last = hex_lower(bytes.skip(n));
        lemma_groups_layout(bytes.take(n));
        assert(front.len() % 5 == 4);
        assert forall|j: int| 0 <= j < t.len() implies ((#[trigger] t[j]) == ':' <==> j % 5 == 4)
            && t[j] != ']' && t[j] != '%' by {
            if j < front.len() {
                assert(t[j] == front[j]);
            } else if j > front.len() {
                assert(t[j] == last[j - front.len() - 1]);
            }
        }
    }
}

proof fn lemma_piece_not_ipv4(pair: Seq<u8>)
    ensures
        parsed_ipv4(hex_lower(pair)) is None,
{
    let piece = hex_lower(pair);
    if exists|ip: u32| #[trigger] ipv4_text(ip) == piece {
        let ip = choose|ip: u32| #[trigger] ipv4_text(ip) == piece;
        let t = octet_texts(ip);
        let head = join(t.drop_last(), '.');
        assert(ipv4_text(ip) == head.push('.') + t.last());
        assert(piece[head.len() as int] == '.');
    }
}

proof fn lemma_groups_of_pieces(pieces: Seq<Seq<char>>, bytes: Seq<u8>)
    requires
        bytes.len() == 2 * pieces.len(),
        forall|k: int|
            0 <= k < pieces.len() ==> #[trigger] pieces[k] == hex_lower(
                bytes.subrange(2 * k, 2 * k + 2),
            ),
    ensures
        hex_groups(pieces) matches Some(groups) && groups.len() == pieces.len() && groups_value(
            groups,
        ) == from_be(bytes) && forall|k: int|
            0 <= k < groups.len() ==> #[trigger] groups[k] == bytes[2 * k] * 256 + bytes[2 * k + 1],
    decreases pieces.len(),
{
    if pieces.len() > 0 {
        let n = pieces.len() - 1;
        let front = pieces.drop_last();
        let head = bytes.take(2 * n);
        assert forall|k: int| 0 <= k < front.len() implies #[trigger] front[k] == hex_lower(
            head.subrange(2 * k, 2 * k + 2),
        ) by {
            assert(front[k] == pieces[k]);
            assert(head.subrange(2 * k, 2 * k + 2) =~= bytes.subrange(2 * k, 2 * k + 2));
        }
        lemma_groups_of_pieces(front, head);
        let pair = bytes.subrange(2 * n, 2 * n + 2);
        assert(pieces[n] == hex_lower(pair));
        lemma_group_of_pair(pair);
        let groups = hex_groups(front)->0;
        let group = (pair[0] * 256 + pair[1]) as u16;
        assert(groups.push(group).drop_last() =~= groups);
        assert(bytes.drop_last().drop_last() =~= head);
        assert(bytes.last() == pair[1] && bytes.drop_last().last() == pair[0]);
        assert(from_be(bytes.drop_last()) == from_be(head) * 256 + pair[0]);
        assert(from_be(bytes) == (from_be(head) * 256 + pair[0]) * 256 + pair[1]);
    }
}

proof fn lemma_group_of_pair(pair: Seq<u8>)
    requires
        pair.len() == 2,
    ensures
        parsed_group(hex_lower(pair)) == Some((pair[0] * 256 + pair[1]) as u16),
{
    let s = hex_lower(pair);
    let (a, b) = (pair[0] as nat, pair[1] as nat);
    lemma_hex_value_of_char(a / 16);
    lemma_hex_value_of_char(a % 16);
    lemma_hex_value_of_char(b / 16);
    lemma_hex_value_of_char(b % 16);
    assert(s[0] == hex_char(a / 16) && s[1] == hex_char(a % 16));
    assert(s[2] == hex_char(b / 16) && s[3] == hex_char(b % 16));
    let s3 = s.drop_last();
    let s2 = s3.drop_last();
    let s1 = s2.drop_last();
    assert(s1.drop_last() =~= Seq::<char>::empty());
    assert(hex_number(s1.drop_last()) == 0);
    assert(hex_number(s1) == a / 16);
    assert(hex_number(s2) == a);
    assert(hex_number(s3) == a * 16 + b / 16);
    assert(hex_number(s) == a * 256 + b);
}

/// An address with `::` in it has zeros there, as many as are missing: what stands before it are
/// the first groups, and what stands after it are the last.
pub proof fn law_ipv6_zeros_filled(head: Seq<u8>, tail: Seq<u8>)
    requires
        head.len() % 2 == 0,
        tail.len() % 2 == 0,
        head.len() + tail.len() <= 14,
    ensures
        ({
            let zeros = Seq::new((16 - head.len() - tail.len()) as nat, |i: int| 0u8);
            parsed_ipv6(groups_text(head) + "::"@ + groups_text(tail)) == Some(
                from_be(head + zeros + tail) as u128,
            )
        }),
{
    lemma_split_at_zeros(head, tail);
    lemma_side_groups(head);
    lemma_side_groups(tail);
    let h = head_side(groups_text(head))->0;
    let t = tail_side(groups_text(tail))->0;
    lemma_filled_value(h, t, head, tail);
}

proof fn lemma_split_at_zeros(head: Seq<u8>, tail: Seq<u8>)
    requires
        head.len() % 2 == 0,
    ensures
        split_first(groups_text(head) + "::"@ + groups_text(tail), "::"@) == Some(
            (groups_text(head), groups_text(tail)),
        ),
{
    let (left, right) = (groups_text(head), groups_text(tail));
    let text = left + "::"@ + right;
    let i = left.len() as int;
    reveal_strlit("::");
    if head.len() > 0 {
        lemma_groups_layout(head);
    }
    assert(text.subrange(i, i + 2) =~= "::"@);
    assert forall|j: int| 0 <= j < i implies !#[trigger] matches_at(text, "::"@, j) by {
        if matches_at(text, "::"@, j) {
            let m = text.subrange(j, j + 2);
            assert(m[0] == "::"@[0] && m[1] == "::"@[1]);
            assert(left[j] == ':');
            if j + 1 < i {
                assert(left[j + 1] == ':');
            } else {
                assert(j == i - 1);
            }
        }
    }
    assert(first_match(text, "::"@, i));
    lemma_split_first(text, "::"@, i);
    assert(text.take(i) =~= left);
    assert(text.skip(i + 2) =~= right);
}

proof fn lemma_side_groups(bytes: Seq<u8>)
    requires
        bytes.len() % 2 == 0,
    ensures
        tail_side(groups_text(bytes)) == head_side(groups_text(bytes)),
        head_side(groups_text(bytes)) matches Some(groups) && groups.len() == bytes.len() / 2 && (
        forall|k: int|
            0 <= k < groups.len() ==> #[trigger] groups[k] == bytes[2 * k] * 256 + bytes[2 * k + 1]),
{
    if bytes.len() > 0 {
        let pieces = split_all(groups_text(bytes), ':');
        lemma_groups_layout(bytes);
        law_groups_of_bytes(bytes, 0);
        assert forall|k: int| 0 <= k < pieces.len() implies #[trigger] pieces[k] == hex_lower(
            bytes.subrange(2 * k, 2 * k + 2),
        ) by {
            law_groups_of_bytes(bytes, k);
        }
        lemma_groups_of_pieces(pieces, bytes);
        let n = pieces.len() - 1;
        assert(pieces.last() == pieces[n]);
        lemma_piece_not_ipv4(bytes.subrange(2 * n, 2 * n + 2));
    } else {
        assert(groups_text(bytes) =~= Seq::empty());
    }
}

proof fn lemma_filled_value(h: Seq<u16>, t: Seq<u16>, head: Seq<u8>, tail: Seq<u8>)
    requires
        head.len() == 2 * h.len(),
        tail.len() == 2 * t.len(),
        h.len() + t.len() <= 8,
        forall|k: int| 0 <= k < h.len() ==> #[trigger] h[k] == head[2 * k] * 256 + head[2 * k + 1],
        forall|k: int| 0 <= k < t.len() ==> #[trigger] t[k] == tail[2 * k] * 256 + tail[2 * k + 1],
    ensures
        groups_value(h + zero_groups((8 - h.len() - t.len()) as nat) + t) == from_be(
            head + Seq::new((16 - head.len() - tail.len()) as nat, |i: int| 0u8) + tail,
        ),
{
    let zeros = Seq::new((16 - head.len() - tail.len()) as nat, |i: int| 0u8);
    let bytes = head + zeros + tail;
    let groups = h + zero_groups((8 - h.len() - t.len()) as nat) + t;
    assert forall|k: int| 0 <= k < groups.len() implies #[trigger] groups[k] == bytes[2 * k] * 256
        + bytes[2 * k + 1] by {
        if k < h.len() {
            assert(groups[k] == h[k]);
        } else if k >= 8 - t.len() {
            assert(groups[k] == t[k - (8 - t.len())]);
        }
    }
    lemma_groups_value(groups, bytes);
}

proof fn lemma_groups_value(groups: Seq<u16>, bytes: Seq<u8>)
    requires
        bytes.len() == 2 * groups.len(),
        forall|k: int|
            0 <= k < groups.len() ==> #[trigger] groups[k] == bytes[2 * k] * 256 + bytes[2 * k + 1],
    ensures
        groups_value(groups) == from_be(bytes),
    decreases groups.len(),
{
    if groups.len() > 0 {
        let n = groups.len() - 1;
        let head = bytes.take(2 * n);
        let front = groups.drop_last();
        assert forall|k: int| 0 <= k < front.len() implies #[trigger] front[k] == head[2 * k] * 256
            + head[2 * k + 1] by {
            assert(front[k] == groups[k]);
        }
        lemma_groups_value(front, head);
        assert(groups[n] == bytes[2 * n] * 256 + bytes[2 * n + 1]);
        assert(bytes.drop_last().drop_last() =~= head);
        assert(from_be(bytes.drop_last()) == from_be(head) * 256 + bytes[2 * n]);
        assert(from_be(bytes) == (from_be(head) * 256 + bytes[2 * n]) * 256 + bytes[2 * n + 1]);
    }
}

}
