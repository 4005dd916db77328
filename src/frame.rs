//! The Ethernet, IPv4 and UDP framing put around a QUIC datagram so that
//! the field walk finds every header where it expects it.
use vstd::prelude::*;

verus! {

/// An IPv4 address (as a big-endian number) and a UDP port.
#[derive(Clone, Copy, Debug, PartialEq, Eq, Structural)]
pub struct Endpoint {
    pub addr: u32,
    pub port: u16,
}

/// Largest QUIC datagram that fits the 2000-octet framing buffer together
/// with its IPv4 and UDP headers.
pub const MAX_QUIC_PAYLOAD: usize = 1972;

/// Name for the Internet checksum of `data` with 16-bit word `skipword`
/// left out.
pub uninterp spec fn internet_checksum(data: Seq<u8>, skipword: nat) -> u16;

/// Name for the UDP checksum of `segment` over the IPv4 pseudo-header of
/// `src` and `dst`, with the segment's checksum word left out.
pub uninterp spec fn udp_checksum_of(segment: Seq<u8>, src: u32, dst: u32) -> u16;

/// Relies on `pnet_packet::util::checksum`: the Internet checksum of the
/// 16-bit words of `data` but word `skipword`. Its running sum is a `u32`,
/// which `data` of at most 65535 octets cannot overflow.
#[verifier::external_body]
pub(crate) fn header_checksum(data: &[u8], skipword: usize) -> (r: u16)
    requires
        data@.len() <= 65535,
    ensures
        r == internet_checksum(data@, skipword as nat),
{
    pnet_packet::util::checksum(data, skipword)
}

/// Relies on `pnet_packet::util::ipv4_checksum` with skipword 3 (the UDP
/// checksum word), no extra data and protocol UDP: the checksum of a UDP
/// segment over its IPv4 pseudo-header.
#[verifier::external_body]
pub(crate) fn udp_checksum(segment: &[u8], src: u32, dst: u32) -> (r: u16)
    requires
        segment@.len() <= 65535,
    ensures
        r == udp_checksum_of(segment@, src, dst),
{
    pnet_packet::util::ipv4_checksum(
        segment,
        3,
        &[],
        &core::net::Ipv4Addr::from(src),
        &core::net::Ipv4Addr::from(dst),
        pnet_packet::ip::IpNextHeaderProtocols::Udp,
    )
}

pub open spec fn be16(x: nat) -> Seq<u8> {
    seq![((x / 256) % 256) as u8, (x % 256) as u8]
}

pub open spec fn be32(x: nat) -> Seq<u8> {
    be16(x / 65536) + be16(x % 65536)
}

pub open spec fn ethernet_header() -> Seq<u8> {
    Seq::new(12, |_i: int| 0u8) + seq![0x08u8, 0x00u8]
}

/// IPv4 header: version 4, IHL 5, DSCP and ECN 0, identification 0, flags
/// DF, fragment offset 0, TTL 64, protocol UDP.
pub open spec fn ipv4_header(total: nat, csum: nat, src: u32, dst: u32) -> Seq<u8> {
    seq![0x45u8, 0x00u8] + be16(total) + seq![0x00u8, 0x00u8, 0x40u8, 0x00u8, 64u8, 17u8] + be16(csum)
        + be32(src as nat) + be32(dst as nat)
}

pub open spec fn udp_header(sport: u16, dport: u16, len: nat, csum: nat) -> Seq<u8> {
    be16(sport as nat) + be16(dport as nat) + be16(len) + be16(csum)
}

/// The frame put around a QUIC datagram: Ethernet (MACs zero, type IPv4),
/// IPv4 and UDP headers with their lengths and checksums, then the datagram.
#[verifier::opaque]
pub open spec fn synthetic_frame(payload: Seq<u8>, src: Endpoint, dst: Endpoint) -> Seq<u8> {
    let ulen = 8 + payload.len();
    let total = 20 + ulen;
    let ucs = udp_checksum_of(udp_header(src.port, dst.port, ulen, 0) + payload, src.addr, dst.addr);
    let ics = internet_checksum(ipv4_header(total, 0, src.addr, dst.addr), 5);
    ethernet_header() + ipv4_header(total, ics as nat, src.addr, dst.addr) + udp_header(
        src.port,
        dst.port,
        ulen,
        ucs as nat,
    ) + payload
}

fn push_be16(v: &mut Vec<u8>, x: u16)
    ensures
        final(v)@ == old(v)@ + be16(x as nat),
{
    v.push((x / 256) as u8);
    v.push((x % 256) as u8);
    proof {
        assert(final(v)@ =~= old(v)@ + be16(x as nat));
    }
}

fn push_be32(v: &mut Vec<u8>, x: u32)
    ensures
        final(v)@ == old(v)@ + be32(x as nat),
{
    push_be16(v, (x / 65536) as u16);
    push_be16(v, (x % 65536) as u16);
    proof {
        assert(final(v)@ =~= old(v)@ + be32(x as nat));
    }
}

fn append_bytes(dst: &mut Vec<u8>, src: &Vec<u8>)
    ensures
        final(dst)@ == old(dst)@ + src@,
{
    let mut i: usize = 0;
    while i < src.len()
        invariant
            i <= src.len(),
            dst@ == old(dst)@ + src@.take(i as int),
        decreases src.len() - i,
    {
        dst.push(src[i]);
        proof {
            assert(dst@ =~= old(dst)@ + src@.take(i + 1));
        }
        i = i + 1;
    }
    proof {
        assert(src@.take(src.len() as int) =~= src@);
    }
}

fn ipv4_header_bytes(total: u16, csum: u16, src: u32, dst: u32) -> (r: Vec<u8>)
    ensures
        r@ == ipv4_header(total as nat, csum as nat, src, dst),
{
    let mut h: Vec<u8> = Vec::new();
    h.push(0x45);
    h.push(0x00);
    push_be16(&mut h, total);
    h.push(0x00);
    h.push(0x00);
    h.push(0x40);
    h.push(0x00);
    h.push(64);
    h.push(17);
    push_be16(&mut h, csum);
    push_be32(&mut h, src);
    push_be32(&mut h, dst);
    proof {
        assert(h@ =~= ipv4_header(total as nat, csum as nat, src, dst));
    }
    h
}

fn udp_header_bytes(sport: u16, dport: u16, len: u16, csum: u16) -> (r: Vec<u8>)
    ensures
        r@ == udp_header(sport, dport, len as nat, csum as nat),
{
    let mut h: Vec<u8> = Vec::new();
    push_be16(&mut h, sport);
    push_be16(&mut h, dport);
    push_be16(&mut h, len);
    push_be16(&mut h, csum);
    proof {
        assert(h@ =~= udp_header(sport, dport, len as nat, csum as nat));
    }
    h
}

/// Builds the Ethernet, IPv4 and UDP frame around a QUIC datagram.
pub fn build_synthetic_packet(quic_payload: &Vec<u8>, source: Endpoint, dest: Endpoint) -> (r: Vec<u8>)
    requires
        quic_payload.len() <= MAX_QUIC_PAYLOAD,
    ensures
        r@ == synthetic_frame(quic_payload@, source, dest),
        r.len() == quic_payload.len() + 42,
{
    let ulen = (8 + quic_payload.len()) as u16;
    let total = 20 + ulen;
    let mut seg = udp_header_bytes(source.port, dest.port, ulen, 0);
    append_bytes(&mut seg, quic_payload);
    let ucs = udp_checksum(seg.as_slice(), source.addr, dest.addr);
    let ip0 = ipv4_header_bytes(total, 0, source.addr, dest.addr);
    let ics = header_checksum(ip0.as_slice(), 5);
    let mut frame: Vec<u8> = Vec::new();
    let mut i: usize = 0;
    while i < 12
        invariant
            i <= 12,
            frame@ == Seq::new(i as nat, |_i: int| 0u8),
        decreases 12 - i,
    {
        frame.push(0);
        proof {
            assert(frame@ =~= Seq::new((i + 1) as nat, |_i: int| 0u8));
        }
        i = i + 1;
    }
    frame.push(0x08);
    frame.push(0x00);
    let ip = ipv4_header_bytes(total, ics, source.addr, dest.addr);
    append_bytes(&mut frame, &ip);
    let udp = udp_header_bytes(source.port, dest.port, ulen, ucs);
    append_bytes(&mut frame, &udp);
    append_bytes(&mut frame, quic_payload);
    proof {
        reveal(synthetic_frame);
        assert(frame@ =~= synthetic_frame(quic_payload@, source, dest));
    }
    frame
}

/// The frame is 42 octets longer than the datagram.
pub proof fn lemma_frame_len(quic: Seq<u8>, src: Endpoint, dst: Endpoint)
    ensures
        synthetic_frame(quic, src, dst).len() == quic.len() + 42,
{
    reveal(synthetic_frame);
}

/// The datagram follows 42 octets of framing: the octets of a header that
/// starts with the IPv4 header are, past the IPv4 and UDP headers, the
/// start of the datagram.
pub proof fn lemma_frame_layout(quic: Seq<u8>, src: Endpoint, dst: Endpoint, hlen: nat)
    requires
        28 <= hlen <= quic.len() + 28,
    ensures
        synthetic_frame(quic, src, dst).len() == quic.len() + 42,
        synthetic_frame(quic, src, dst).subrange(14, (14 + hlen) as int).skip(28) == quic.take(hlen - 28),
{
    reveal(synthetic_frame);
    let f = synthetic_frame(quic, src, dst);
    assert(f.subrange(14, (14 + hlen) as int).skip(28) =~= quic.take(hlen - 28));
}

} // verus!
