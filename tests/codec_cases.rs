use quic_schc::bits::{pack_bits, uint_to_bits, unpack_bits};
use quic_schc::codec::{ParseError, SchcError};
use quic_schc::engine::{compress_frame, decompress_bytes};
use quic_schc::frame::{build_synthetic_packet, Endpoint};
use quic_schc::learn::QuicSession;
use quic_schc::observer::SchcObserver;
use quic_schc::preview::hex_preview;
use quic_schc::rule::{Action, Direction, FieldDesc, FieldDirection, FieldId, MatchOp, Rule};
use quic_schc::ruleset::RuleSet;

fn ep(addr: u32, port: u16) -> Endpoint {
    Endpoint { addr, port }
}

fn desc(fid: FieldId, mo: MatchOp, cda: Action, value: u64, width: usize) -> FieldDesc {
    FieldDesc { fid, dir: FieldDirection::Bidir, target: uint_to_bits(value, width), mo, cda }
}

fn sent(fid: FieldId) -> FieldDesc {
    desc(fid, MatchOp::Ignore, Action::ValueSent, 0, 0)
}

/// Every IPv4 and UDP field sent whole.
fn ip_udp_sent() -> Vec<FieldDesc> {
    vec![
        sent(FieldId::Ipv4Version),
        sent(FieldId::Ipv4Ihl),
        sent(FieldId::Ipv4Dscp),
        sent(FieldId::Ipv4Ecn),
        sent(FieldId::Ipv4TotalLength),
        sent(FieldId::Ipv4Identification),
        sent(FieldId::Ipv4Flags),
        sent(FieldId::Ipv4FragmentOffset),
        sent(FieldId::Ipv4Ttl),
        sent(FieldId::Ipv4Protocol),
        sent(FieldId::Ipv4HeaderChecksum),
        sent(FieldId::Ipv4Src),
        sent(FieldId::Ipv4Dst),
        sent(FieldId::UdpSrcPort),
        sent(FieldId::UdpDstPort),
        sent(FieldId::UdpLength),
        sent(FieldId::UdpChecksum),
    ]
}

fn rule(id: u32, len: u8, quic: Vec<FieldDesc>) -> Rule {
    let mut fields = ip_udp_sent();
    fields.extend(quic);
    Rule { rule_id: id, rule_id_length: len, fields, comment: None }
}

fn set_of(rules: Vec<Rule>) -> RuleSet {
    match RuleSet::new(rules) {
        Ok(s) => s,
        Err(e) => panic!("{:?}", e),
    }
}

fn frame_of(quic: &[u8]) -> Vec<u8> {
    build_synthetic_packet(&quic.to_vec(), ep(0xc0a8_0001, 4433), ep(0xc0a8_00c7, 443))
}

fn ones_complement(words: &[u8], skip: usize) -> u32 {
    let mut sum: u32 = 0;
    let mut i = 0;
    while i + 1 < words.len() {
        if i / 2 != skip {
            sum += ((words[i] as u32) << 8) | words[i + 1] as u32;
        }
        i += 2;
    }
    if words.len() % 2 == 1 && (words.len() - 1) / 2 != skip {
        sum += (words[words.len() - 1] as u32) << 8;
    }
    sum
}

fn fold(mut sum: u32) -> u16 {
    while sum >> 16 != 0 {
        sum = (sum >> 16) + (sum & 0xffff);
    }
    !(sum as u16)
}

#[test]
fn synthetic_frame_layout_and_checksums() {
    let quic = vec![0x40u8, 1, 2, 3, 4, 5];
    let f = frame_of(&quic);
    assert_eq!(f.len(), 14 + 20 + 8 + 6);
    assert_eq!(&f[0..14], &[0, 0, 0, 0, 0, 0, 0, 0, 0, 0, 0, 0, 8, 0]);
    assert_eq!(&f[14..24], &[0x45, 0, 0, 34, 0, 0, 0x40, 0, 64, 17]);
    assert_eq!(&f[26..34], &[192, 168, 0, 1, 192, 168, 0, 199]);
    assert_eq!(&f[34..40], &[0x11, 0x51, 0x01, 0xbb, 0, 14]);
    let ip_expected = fold(ones_complement(&f[14..34], 5));
    assert_eq!(((f[24] as u16) << 8) | f[25] as u16, ip_expected);
    assert_ne!(ip_expected, 0);
    let seg = &f[34..];
    let pseudo = 0xc0a8 + 0x0001 + 0xc0a8 + 0x00c7 + 17 + seg.len() as u32;
    let udp_expected = fold(pseudo + ones_complement(seg, 3));
    assert_eq!(((f[40] as u16) << 8) | f[41] as u16, udp_expected);
    assert_ne!(udp_expected, 0);
}

#[test]
fn field_absent_on_short_header() {
    let set = set_of(vec![rule(1, 4, vec![sent(FieldId::QuicFirstByte), sent(FieldId::QuicVersion)])]);
    match compress_frame(&set, &frame_of(&[0x40, 0, 0, 0, 0]), Direction::Up) {
        Err(e) => assert_eq!(e, SchcError::Parser(ParseError::FieldAbsent)),
        Ok(_) => panic!("version read on a short header"),
    }
}

fn long_fields() -> Vec<FieldDesc> {
    vec![
        sent(FieldId::QuicFirstByte),
        sent(FieldId::QuicVersion),
        sent(FieldId::QuicDcidLen),
        sent(FieldId::QuicDcid),
    ]
}

#[test]
fn buffer_underrun_on_truncated_datagram() {
    let set = set_of(vec![rule(1, 4, long_fields())]);
    match compress_frame(&set, &frame_of(&[0xc0, 0, 0, 0, 1, 8, 1, 2, 3]), Direction::Up) {
        Err(e) => assert_eq!(e, SchcError::Parser(ParseError::BufferUnderrun)),
        Ok(_) => panic!("truncated id accepted"),
    }
    match compress_frame(&set, &vec![0u8; 10], Direction::Up) {
        Err(e) => assert_eq!(e, SchcError::Parser(ParseError::BufferUnderrun)),
        Ok(_) => panic!("frame shorter than Ethernet accepted"),
    }
}

#[test]
fn oversized_connection_id_is_malformed() {
    let set = set_of(vec![rule(1, 4, long_fields())]);
    let mut quic = vec![0xc0, 0, 0, 0, 1, 25];
    quic.extend_from_slice(&[7u8; 25]);
    match compress_frame(&set, &frame_of(&quic), Direction::Up) {
        Err(e) => assert_eq!(e, SchcError::Parser(ParseError::MalformedField)),
        Ok(_) => panic!("25-octet id accepted"),
    }
}

#[test]
fn truncated_residue_underruns() {
    let set = set_of(vec![rule(1, 4, long_fields())]);
    let quic = vec![0xc0, 0, 0, 0, 1, 4, 9, 8, 7, 6, 0xee];
    let c = compress_frame(&set, &frame_of(&quic), Direction::Up).expect("compresses");
    let cut = c.data[..c.data.len() - 2].to_vec();
    match decompress_bytes(&set, &cut, Direction::Up) {
        Err(e) => assert_eq!(e, SchcError::ResidueUnderrun),
        Ok(_) => panic!("short residue accepted"),
    }
}

fn mapping_rule() -> Rule {
    let m = vec![uint_to_bits(0x40, 8), uint_to_bits(0x41, 8), uint_to_bits(0x42, 8)];
    let first = FieldDesc {
        fid: FieldId::QuicFirstByte,
        dir: FieldDirection::Bidir,
        target: Vec::new(),
        mo: MatchOp::MatchMapping(m),
        cda: Action::MappingSent,
    };
    let dcid = desc(FieldId::QuicDcid, MatchOp::Equal, Action::NotSent, 0xabcd, 16);
    let pn = desc(FieldId::QuicPacketNumber, MatchOp::Msb(4), Action::Lsb(12), 0x1000, 16);
    rule(6, 3, vec![first, dcid, pn])
}

#[test]
fn mapping_and_lsb_round_trip() {
    let set = set_of(vec![mapping_rule()]);
    let quic = vec![0x41, 0xab, 0xcd, 0x1f, 0xee, 9, 9];
    let frame = frame_of(&quic);
    let c = compress_frame(&set, &frame, Direction::Down).expect("compresses");
    // 3 id bits, 224 IPv4 and UDP bits, 2 index bits, 12 low bits
    assert_eq!(c.compressed_header_bits, 3 + 224 + 2 + 12);
    assert_eq!(c.original_header_bits, 224 + 8 + 16 + 16);
    let n = c.original_header_bits / 8;
    let mut packet = c.data.clone();
    packet.extend_from_slice(&frame[14 + n..]);
    let d = decompress_bytes(&set, &packet, Direction::Down).expect("decompresses");
    assert_eq!(d.header, frame[14..14 + n].to_vec());
}

#[test]
fn mapping_rejects_unlisted_value() {
    let set = set_of(vec![mapping_rule()]);
    match compress_frame(&set, &frame_of(&[0x43, 0xab, 0xcd, 0x1f, 0xee]), Direction::Up) {
        Err(e) => assert_eq!(e, SchcError::NoMatchingRule),
        Ok(_) => panic!("unlisted first octet accepted"),
    }
    match compress_frame(&set, &frame_of(&[0x41, 0xab, 0xcd, 0x2f, 0xee]), Direction::Up) {
        Err(e) => assert_eq!(e, SchcError::NoMatchingRule),
        Ok(_) => panic!("packet number outside the high bits accepted"),
    }
}

#[test]
fn mapping_index_out_of_range_fails_reconstruction() {
    let set = set_of(vec![mapping_rule()]);
    let quic = vec![0x41, 0xab, 0xcd, 0x1f, 0xee];
    let c = compress_frame(&set, &frame_of(&quic), Direction::Up).expect("compresses");
    // the index follows the 3 id bits and 224 residue bits: bits 227 and 228
    let mut bits = unpack_bits(&c.data);
    bits[227] = true;
    bits[228] = true;
    let bad = pack_bits(&bits);
    match decompress_bytes(&set, &bad, Direction::Up) {
        Err(e) => assert_eq!(e, SchcError::ReconstructionFailed),
        Ok(_) => panic!("index 3 of 3 accepted"),
    }
}

#[test]
fn clashing_identifiers_are_refused() {
    let a = rule(1, 4, vec![]);
    let b = rule(0x1f, 8, vec![]);
    match RuleSet::new(vec![a, b]) {
        Err(e) => assert_eq!(e, SchcError::RuleFileInvalid),
        Ok(_) => panic!("0001 prefixes 00011111"),
    }
    let same = vec![rule(2, 4, vec![]), rule(2, 4, vec![])];
    assert!(RuleSet::new(same).is_err());
    let wide = vec![rule(16, 4, vec![])];
    assert!(RuleSet::new(wide).is_err());
    let ok = vec![rule(1, 4, vec![]), rule(0x2f, 8, vec![])];
    assert!(RuleSet::new(ok).is_ok());
}

#[test]
fn direction_selects_descriptors() {
    let mut up_only = sent(FieldId::QuicFirstByte);
    up_only.dir = FieldDirection::Up;
    let set = set_of(vec![rule(1, 4, vec![up_only])]);
    let frame = frame_of(&[0x40, 1, 2]);
    let up = compress_frame(&set, &frame, Direction::Up).expect("compresses");
    let down = compress_frame(&set, &frame, Direction::Down).expect("compresses");
    assert_eq!(up.original_header_bits, 224 + 8);
    assert_eq!(down.original_header_bits, 224);
}

#[test]
fn session_pool_runs_out() {
    let mut s = QuicSession::new(240, 241, 8);
    let base = rule(2, 4, vec![
        sent(FieldId::QuicFirstByte),
        sent(FieldId::QuicVersion),
        sent(FieldId::QuicDcidLen),
        sent(FieldId::QuicDcid),
        sent(FieldId::QuicScidLen),
        sent(FieldId::QuicScid),
    ]);
    let mut values: Vec<Vec<bool>> = (0..17).map(|_| Vec::new()).collect();
    values.extend(vec![
        uint_to_bits(0xc0, 8),
        uint_to_bits(1, 32),
        uint_to_bits(1, 8),
        uint_to_bits(0xaa, 8),
        uint_to_bits(1, 8),
        uint_to_bits(0xbb, 8),
    ]);
    let first = s.propose(&base, &values, Direction::Up).expect("new pair");
    assert_eq!(first.rule_id, 240);
    s.commit(&base, &values, Direction::Up);
    assert!(s.propose(&base, &values, Direction::Up).is_none());
    values[20] = uint_to_bits(0xab, 8);
    let second = s.propose(&base, &values, Direction::Up).expect("new pair");
    s.commit(&base, &values, Direction::Up);
    values[20] = uint_to_bits(0xac, 8);
    assert!(s.propose(&base, &values, Direction::Up).is_none());
    assert_eq!(s.learned_count(), 2);
    assert_eq!(s.current_generation(), 2);
    assert_eq!(second.rule_id, 241);
    assert_eq!(second.rule_id_length, 8);
    assert_eq!(second.fields[20].target, uint_to_bits(0xab, 8));
    assert!(matches!(second.fields[20].mo, MatchOp::Equal));
    assert_eq!(second.fields[20].cda, Action::NotSent);
    assert_eq!(second.fields[18].cda, Action::ValueSent);
}

#[test]
fn hex_preview_formats() {
    assert_eq!(hex_preview(&vec![], 32), "(empty)");
    assert_eq!(hex_preview(&vec![0x0a, 0xff], 32), "0a ff (2 bytes)");
    let data: Vec<u8> = (0..40).collect();
    assert_eq!(hex_preview(&data, 2), "00 01 ... (40 bytes total)");
    assert_eq!(hex_preview(&vec![0x7f], 1), "7f (1 bytes)");
}

#[test]
fn bits_pack_and_unpack() {
    assert_eq!(uint_to_bits(5, 4), vec![false, true, false, true]);
    let b = vec![true, false, true];
    assert_eq!(pack_bits(&b), vec![0xa0]);
    assert_eq!(unpack_bits(&vec![0x81])[..], [true, false, false, false, false, false, false, true]);
}

#[test]
fn observer_counts_without_changing() {
    let set = set_of(vec![rule(1, 4, vec![sent(FieldId::QuicFirstByte)])]);
    let mut o = SchcObserver::new(set, false);
    let quic = vec![0x40u8, 1, 2, 3];
    let c = o
        .observe(&quic, ep(0xc0a8_0001, 4433), ep(0xc0a8_00c7, 443), true)
        .expect("matches");
    assert_eq!(c.rule_id, 1);
    assert_eq!(c.original_header_bits, 224 + 8);
    assert_eq!(c.compressed_header_bits, 4 + 224 + 8);
    let miss = o.observe(&vec![], ep(0xc0a8_0001, 4433), ep(0xc0a8_00c7, 443), false);
    assert_eq!(miss.err(), Some(SchcError::Parser(ParseError::BufferUnderrun)));
    assert_eq!(o.stats().packets_processed, 2);
    assert_eq!(o.stats().packets_matched, 1);
    assert_eq!(o.stats().total_original_bits, 232);
    assert_eq!(o.stats().total_compressed_bits, 236);
}

#[test]
fn install_replaces_same_identifier_and_refuses_clash() {
    let mut set = set_of(vec![rule(1, 4, vec![]), rule(0x2f, 8, vec![])]);
    assert!(set.install(rule(0x2f, 8, vec![sent(FieldId::QuicFirstByte)])));
    assert_eq!(set.len(), 2);
    assert_eq!(set.rules()[1].fields.len(), 18);
    assert!(!set.install(rule(0x1f, 8, vec![])));
    assert_eq!(set.len(), 2);
    assert!(set.install(rule(0xf0, 8, vec![])));
    assert_eq!(set.len(), 3);
    assert_eq!(set.rules()[2].rule_id, 0xf0);
}
