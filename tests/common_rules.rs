use quic_schc::bits::uint_to_bits;
use quic_schc::codec::{ParseError, SchcError};
use quic_schc::engine::{compress_frame, decompress_bytes};
use quic_schc::frame::{build_synthetic_packet, Endpoint};
use quic_schc::rule::{Action, Direction, FieldDesc, FieldDirection, FieldId, MatchOp, Rule};
use quic_schc::ruleset::RuleSet;
use quic_schc::session::SchcCompressor;

const CLIENT: u32 = 0x0a00_0001;
const SERVER: u32 = 0x0a00_0002;

fn client() -> Endpoint {
    Endpoint { addr: CLIENT, port: 1000 }
}

fn server() -> Endpoint {
    Endpoint { addr: SERVER, port: 2000 }
}

fn desc(fid: FieldId, mo: MatchOp, cda: Action, value: u64, width: usize) -> FieldDesc {
    FieldDesc { fid, dir: FieldDirection::Bidir, target: uint_to_bits(value, width), mo, cda }
}

fn equal(fid: FieldId, value: u64, width: usize) -> FieldDesc {
    desc(fid, MatchOp::Equal, Action::NotSent, value, width)
}

fn sent(fid: FieldId) -> FieldDesc {
    desc(fid, MatchOp::Ignore, Action::ValueSent, 0, 0)
}

fn computed(fid: FieldId, cda: Action) -> FieldDesc {
    desc(fid, MatchOp::Ignore, cda, 0, 0)
}

/// IPv4 and UDP fields of the synthetic frame from client to server.
fn ip_udp_fields() -> Vec<FieldDesc> {
    vec![
        equal(FieldId::Ipv4Version, 4, 4),
        equal(FieldId::Ipv4Ihl, 5, 4),
        equal(FieldId::Ipv4Dscp, 0, 6),
        equal(FieldId::Ipv4Ecn, 0, 2),
        computed(FieldId::Ipv4TotalLength, Action::ComputeLength),
        equal(FieldId::Ipv4Identification, 0, 16),
        equal(FieldId::Ipv4Flags, 2, 3),
        equal(FieldId::Ipv4FragmentOffset, 0, 13),
        equal(FieldId::Ipv4Ttl, 64, 8),
        equal(FieldId::Ipv4Protocol, 17, 8),
        computed(FieldId::Ipv4HeaderChecksum, Action::ComputeChecksum),
        equal(FieldId::Ipv4Src, CLIENT as u64, 32),
        equal(FieldId::Ipv4Dst, SERVER as u64, 32),
        equal(FieldId::UdpSrcPort, 1000, 16),
        equal(FieldId::UdpDstPort, 2000, 16),
        computed(FieldId::UdpLength, Action::ComputeLength),
        computed(FieldId::UdpChecksum, Action::ComputeChecksum),
    ]
}

const SHORT_DCID: u64 = 0x1122_3344_5566_7788;

/// Rule 1/4: a short header with a known 8-octet destination id.
fn short_rule() -> Rule {
    let mut fields = ip_udp_fields();
    fields.push(equal(FieldId::QuicFirstByte, 0x40, 8));
    fields.push(equal(FieldId::QuicDcid, SHORT_DCID, 64));
    Rule { rule_id: 1, rule_id_length: 4, fields, comment: None }
}

/// Rule 2/4: a long header whose ids and packet number are sent.
fn long_rule() -> Rule {
    let mut fields = ip_udp_fields();
    fields.push(equal(FieldId::QuicFirstByte, 0xc0, 8));
    fields.push(equal(FieldId::QuicVersion, 1, 32));
    fields.push(sent(FieldId::QuicDcidLen));
    fields.push(sent(FieldId::QuicDcid));
    fields.push(sent(FieldId::QuicScidLen));
    fields.push(sent(FieldId::QuicScid));
    fields.push(sent(FieldId::QuicPacketNumber));
    Rule { rule_id: 2, rule_id_length: 4, fields, comment: None }
}

/// Rule 3/4: a short header whose destination id width nothing fixes.
fn open_short_rule() -> Rule {
    let mut fields = ip_udp_fields();
    fields.push(sent(FieldId::QuicFirstByte));
    fields.push(sent(FieldId::QuicDcid));
    Rule { rule_id: 3, rule_id_length: 4, fields, comment: None }
}

fn rule_set() -> RuleSet {
    match RuleSet::new(vec![short_rule(), long_rule()]) {
        Ok(s) => s,
        Err(e) => panic!("rules rejected: {:?}", e),
    }
}

fn short_packet(payload_len: usize) -> Vec<u8> {
    let mut p = vec![0x40u8];
    p.extend_from_slice(&SHORT_DCID.to_be_bytes());
    for i in 0..payload_len {
        p.push((i * 7 + 3) as u8);
    }
    p
}

fn long_packet(dcid: &[u8], scid: &[u8], pn: u8, payload_len: usize) -> Vec<u8> {
    let mut p = vec![0xc0u8, 0, 0, 0, 1];
    p.push(dcid.len() as u8);
    p.extend_from_slice(dcid);
    p.push(scid.len() as u8);
    p.extend_from_slice(scid);
    p.push(pn);
    for i in 0..payload_len {
        p.push((i * 13 + 1) as u8);
    }
    p
}

const DCID: [u8; 8] = [0xa1, 0xa2, 0xa3, 0xa4, 0xa5, 0xa6, 0xa7, 0xa8];
const SCID: [u8; 4] = [0xb1, 0xb2, 0xb3, 0xb4];

#[test]
fn short_header_rule_round_trip() {
    let mut c = SchcCompressor::new(rule_set(), false, false).expect("compressor");
    let quic = short_packet(64);
    let r = c.compress(&quic, client(), server(), true);
    assert!(r.success);
    assert_eq!(r.rule_id, 1);
    assert_eq!(r.compressed_header_size, 1);
    assert_eq!(r.compressed_packet.len(), 1 + 64);
    assert_eq!(r.compressed_packet[0], 0x10);
    assert_eq!(&r.compressed_packet[1..], &quic[9..]);
    assert_eq!(r.original_header_size, 20 + 8 + 9);
    assert_eq!(c.stats().total_compressed_header_bits, 4);
    assert_eq!(c.stats().total_original_header_bits, (20 + 8 + 9) * 8);
    let d = c.decompress(&r.compressed_packet, true).expect("decompresses");
    assert_eq!(d.rule_id, 1);
    assert_eq!(d.decompressed_packet, quic);
    assert_eq!(c.stats().packets_compressed, 1);
    assert_eq!(c.stats().packets_decompressed, 1);
}

#[test]
fn long_header_round_trip() {
    let mut c = SchcCompressor::new(rule_set(), false, false).expect("compressor");
    let quic = long_packet(&DCID, &SCID, 0x2a, 30);
    let r = c.compress(&quic, client(), server(), true);
    assert!(r.success);
    assert_eq!(r.rule_id, 2);
    // 4 id bits, 8 + 64 + 8 + 32 + 8 residue bits
    assert_eq!(r.compressed_header_size, (4 + 8 + 64 + 8 + 32 + 8 + 7) / 8);
    let d = c.decompress(&r.compressed_packet, true).expect("decompresses");
    assert_eq!(d.decompressed_packet, quic);
}

#[test]
fn handshake_ids_make_dynamic_rule() {
    let mut c = SchcCompressor::new(rule_set(), false, true).expect("compressor");
    let first = long_packet(&DCID, &SCID, 1, 40);
    let r1 = c.compress(&first, client(), server(), true);
    assert!(r1.success);
    assert_eq!(r1.rule_id, 2);
    assert_eq!(c.rule_set().len(), 3);
    let next = long_packet(&DCID, &SCID, 2, 40);
    let r2 = c.compress(&next, client(), server(), true);
    assert!(r2.success);
    assert_eq!(r2.rule_id, 240);
    // 8 id bits and the 8-bit packet number
    assert_eq!(r2.compressed_header_size, 2);
    assert_eq!(r2.compressed_packet[0], 240);
    assert_eq!(r2.compressed_packet[1], 2);
    assert_eq!(r2.compressed_packet.len(), 2 + 40);
    let d = c.decompress(&r2.compressed_packet, true).expect("decompresses");
    assert_eq!(d.rule_id, 240);
    assert_eq!(d.decompressed_packet, next);
    assert_eq!(c.rule_set().len(), 3);
}

#[test]
fn ttl_mismatch_fails_to_match() {
    let set = rule_set();
    let quic = short_packet(16);
    let mut frame = build_synthetic_packet(&quic, client(), server());
    assert_eq!(frame[14 + 8], 64);
    frame[14 + 8] = 63;
    match compress_frame(&set, &frame, Direction::Up) {
        Err(e) => assert_eq!(e, SchcError::NoMatchingRule),
        Ok(_) => panic!("a frame with TTL 63 matched"),
    }
}

#[test]
fn unmatched_datagram_passes_through() {
    let mut c = SchcCompressor::new(rule_set(), false, false).expect("compressor");
    let quic = short_packet(10);
    let other = Endpoint { addr: 0x0a00_0009, port: 1000 };
    let r = c.compress(&quic, other, server(), true);
    assert!(!r.success);
    assert_eq!(r.compressed_packet, quic);
    assert_eq!(r.rule_id, 0);
    assert_eq!(r.original_header_size, 0);
    assert_eq!(r.compressed_header_size, 0);
    assert_eq!(c.stats().compression_failures, 1);
    assert_eq!(c.stats().packets_compressed, 0);
}

#[test]
fn rebuilt_tree_keeps_matching() {
    let mut c = SchcCompressor::new(rule_set(), false, true).expect("compressor");
    let short = short_packet(20);
    let before = c.compress(&short, client(), server(), true);
    assert_eq!(before.rule_id, 1);
    let pairs: [([u8; 8], [u8; 4]); 3] = [
        ([1, 2, 3, 4, 5, 6, 7, 8], [9, 9, 9, 9]),
        ([8, 7, 6, 5, 4, 3, 2, 1], [1, 1, 1, 1]),
        ([5, 5, 5, 5, 5, 5, 5, 5], [2, 2, 2, 2]),
    ];
    for (d, s) in pairs.iter() {
        let r = c.compress(&long_packet(d, s, 1, 5), client(), server(), true);
        assert!(r.success);
        assert_eq!(r.rule_id, 2);
    }
    assert_eq!(c.rule_set().len(), 5);
    let after = c.compress(&short, client(), server(), true);
    assert!(after.success);
    assert_eq!(after.rule_id, 1);
    assert_eq!(after.compressed_packet, before.compressed_packet);
    let mut ids = Vec::new();
    for (d, s) in pairs.iter() {
        let r = c.compress(&long_packet(d, s, 3, 5), client(), server(), true);
        assert!(r.success);
        ids.push(r.rule_id);
    }
    assert_eq!(ids, vec![240, 241, 242]);
    let fresh = c.compress(&long_packet(&DCID, &SCID, 3, 5), client(), server(), true);
    assert_eq!(fresh.rule_id, 2);
}

#[test]
fn unknown_rule_id_is_rejected() {
    let mut c = SchcCompressor::new(rule_set(), false, false).expect("compressor");
    let r = c.decompress(&vec![0x30, 0x00, 0x01], true);
    match r {
        Err(e) => assert_eq!(e, SchcError::NoMatchingRule),
        Ok(_) => panic!("unknown identifier accepted"),
    }
    assert_eq!(c.stats().decompression_failures, 1);
}

#[test]
fn short_header_without_context_is_not_compressed() {
    let set = match RuleSet::new(vec![open_short_rule()]) {
        Ok(s) => s,
        Err(e) => panic!("{:?}", e),
    };
    let quic = short_packet(12);
    let frame = build_synthetic_packet(&quic, client(), server());
    match compress_frame(&set, &frame, Direction::Up) {
        Err(e) => assert_eq!(e, SchcError::Parser(ParseError::ContextRequired)),
        Ok(_) => panic!("short header compressed without context"),
    }
    let set2 = match RuleSet::new(vec![open_short_rule()]) {
        Ok(s) => s,
        Err(e) => panic!("{:?}", e),
    };
    let mut c = SchcCompressor::new(set2, false, true).expect("compressor");
    let r = c.compress(&quic, client(), server(), true);
    assert!(!r.success);
    assert_eq!(r.compressed_packet, quic);
}

#[test]
fn compression_is_deterministic() {
    let mut a = SchcCompressor::new(rule_set(), false, false).expect("compressor");
    let mut b = SchcCompressor::new(rule_set(), false, false).expect("compressor");
    let quic = long_packet(&DCID, &SCID, 9, 17);
    let ra = a.compress(&quic, client(), server(), true);
    let rb = b.compress(&quic, client(), server(), true);
    let ra2 = a.compress(&quic, client(), server(), true);
    assert_eq!(ra.compressed_packet, rb.compressed_packet);
    assert_eq!(ra.compressed_packet, ra2.compressed_packet);
}

#[test]
fn compressed_header_within_budget() {
    let set = rule_set();
    let quic = long_packet(&DCID, &SCID, 9, 17);
    let frame = build_synthetic_packet(&quic, client(), server());
    let c = compress_frame(&set, &frame, Direction::Up).expect("compresses");
    assert!(c.compressed_header_bits <= c.original_header_bits);
    assert_eq!(c.original_header_bits, (20 + 8 + 1 + 4 + 1 + 8 + 1 + 4 + 1) * 8);
    assert_eq!(c.compressed_header_bits, 4 + 8 + 64 + 8 + 32 + 8);
}

#[test]
fn selected_rule_accepts_and_is_most_specific() {
    let mut loose = long_rule();
    loose.rule_id = 4;
    loose.fields[17] = sent(FieldId::QuicFirstByte);
    let set = match RuleSet::new(vec![loose, long_rule()]) {
        Ok(s) => s,
        Err(e) => panic!("{:?}", e),
    };
    let quic = long_packet(&DCID, &SCID, 9, 3);
    let frame = build_synthetic_packet(&quic, client(), server());
    let c = compress_frame(&set, &frame, Direction::Up).expect("compresses");
    assert_eq!(c.rule_id, 2);
    assert_eq!(c.rule_index, 1);
}

#[test]
fn equal_specificity_prefers_smaller_id() {
    let mut a = long_rule();
    a.rule_id = 5;
    let set = match RuleSet::new(vec![a, long_rule()]) {
        Ok(s) => s,
        Err(e) => panic!("{:?}", e),
    };
    let quic = long_packet(&DCID, &SCID, 9, 3);
    let frame = build_synthetic_packet(&quic, client(), server());
    let c = compress_frame(&set, &frame, Direction::Up).expect("compresses");
    assert_eq!(c.rule_id, 2);
}

#[test]
fn frame_decompresses_to_its_headers() {
    let set = rule_set();
    let quic = long_packet(&DCID, &SCID, 9, 3);
    let frame = build_synthetic_packet(&quic, client(), server());
    let c = compress_frame(&set, &frame, Direction::Up).expect("compresses");
    let n = c.original_header_bits / 8;
    let mut packet = c.data.clone();
    packet.extend_from_slice(&frame[14 + n..]);
    let d = decompress_bytes(&set, &packet, Direction::Up).expect("decompresses");
    assert_eq!(d.rule_id, 2);
    assert_eq!(d.bits_consumed, c.compressed_header_bits);
    // lengths and checksums are recomputed over the rebuilt datagram
    assert_eq!(d.header, frame[14..14 + n].to_vec());
}

#[test]
fn recomputation_needs_whole_headers() {
    let set = rule_set();
    let quic = long_packet(&DCID, &SCID, 9, 3);
    let frame = build_synthetic_packet(&quic, client(), server());
    let c = compress_frame(&set, &frame, Direction::Up).expect("compresses");
    let d = decompress_bytes(&set, &c.data, Direction::Up).expect("decompresses");
    let n = c.original_header_bits / 8;
    // without the payload the lengths describe the header alone
    assert_eq!(d.header[2..4], [0, n as u8]);
    assert_eq!(d.header[24..26], [0, (n - 20) as u8]);
    assert_ne!(d.header[2..4], frame[16..18]);
}

#[test]
fn pool_identifier_in_static_rules_is_refused() {
    let mut clash = long_rule();
    clash.rule_id = 245;
    clash.rule_id_length = 8;
    let set = match RuleSet::new(vec![short_rule(), clash]) {
        Ok(s) => s,
        Err(e) => panic!("{:?}", e),
    };
    match SchcCompressor::new(set, false, true) {
        Err(e) => assert_eq!(e, SchcError::RuleFileInvalid),
        Ok(_) => panic!("pool identifier 245/8 accepted as a static rule"),
    }
    let mut clash2 = long_rule();
    clash2.rule_id = 245;
    clash2.rule_id_length = 8;
    let set2 = match RuleSet::new(vec![short_rule(), clash2]) {
        Ok(s) => s,
        Err(e) => panic!("{:?}", e),
    };
    let c = SchcCompressor::new(set2, true, false).expect("learning off accepts 245/8");
    assert!(c.debug());
}

#[test]
fn pool_clashing_rules_refused_only_when_learning() {
    // 0xf/4 is the prefix of every pool identifier of 8 bits
    let mut blocker = short_rule();
    blocker.rule_id = 0xf;
    let make = || match RuleSet::new(vec![blocker.clone(), long_rule()]) {
        Ok(s) => s,
        Err(e) => panic!("{:?}", e),
    };
    match SchcCompressor::new(make(), false, true) {
        Err(e) => assert_eq!(e, SchcError::RuleFileInvalid),
        Ok(_) => panic!("rule 0xf/4 accepted beside the pool"),
    }
    let mut c = SchcCompressor::new(make(), false, false).expect("no learning, no pool");
    let r = c.compress(&long_packet(&DCID, &SCID, 1, 10), client(), server(), true);
    assert!(r.success);
    assert_eq!(r.rule_id, 2);
    assert_eq!(c.rule_set().len(), 2);
}

#[test]
fn decompression_leaves_rules_and_compression_counters() {
    let mut c = SchcCompressor::new(rule_set(), false, true).expect("compressor");
    let r = c.compress(&long_packet(&DCID, &SCID, 1, 10), client(), server(), true);
    let before = c.rule_set().len();
    let d = c.decompress(&r.compressed_packet, true).expect("decompresses");
    assert_eq!(d.rule_id, 2);
    assert_eq!(c.rule_set().len(), before);
    assert_eq!(c.stats().packets_compressed, 1);
    assert_eq!(c.stats().compression_failures, 0);
    assert_eq!(c.stats().packets_decompressed, 1);
}
