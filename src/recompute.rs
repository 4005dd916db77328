//! Recomputation of the lengths and checksums that rules leave out of the
//! residue, once the rest of the packet is rebuilt.
use vstd::prelude::*;
use crate::rule::{FieldId, Direction, FieldDesc, FieldModel, applies, applies_to, field_models};
use crate::codec::{SchcError, is_computed};
use crate::frame::{internet_checksum, udp_checksum_of, header_checksum, udp_checksum};

verus! {

/// Octets of an IPv4 header without options, the only kind rebuilt here.
pub const IPV4_HEADER_BYTES: usize = 20;

/// Whether some descriptor applying to `dir` recomputes field `fid`.
pub open spec fn recomputes(fields: Seq<FieldModel>, dir: Direction, fid: FieldId) -> bool {
    exists|j: int|
        0 <= j < fields.len() && (#[trigger] fields[j]).fid == fid && applies(fields[j].dir, dir)
            && is_computed(fields[j].cda)
}

/// `s` with the 16-bit big-endian value `v` written at octet `at`.
pub open spec fn set16(s: Seq<u8>, at: int, v: nat) -> Seq<u8> {
    s.update(at, ((v / 256) % 256) as u8).update(at + 1, (v % 256) as u8)
}

/// The 32-bit big-endian value at octet `at`.
pub open spec fn u32_at(s: Seq<u8>, at: int) -> u32 {
    (s[at] as nat * 0x100_0000 + s[at + 1] as nat * 0x1_0000 + s[at + 2] as nat * 0x100
        + s[at + 3] as nat) as u32
}

/// An IPv4 datagram (header without options, UDP header, payload) with
/// the recomputed fields filled in: the IPv4 total length and the UDP
/// length first, then the UDP checksum, then the IPv4 header checksum.
pub open spec fn filled(fields: Seq<FieldModel>, dir: Direction, p: Seq<u8>) -> Seq<u8> {
    let a = if recomputes(fields, dir, FieldId::Ipv4TotalLength) {
        set16(p, 2, p.len())
    } else {
        p
    };
    let b = if recomputes(fields, dir, FieldId::UdpLength) {
        set16(a, 24, (p.len() - 20) as nat)
    } else {
        a
    };
    let c = if recomputes(fields, dir, FieldId::UdpChecksum) {
        set16(b, 26, udp_checksum_of(b.skip(20), u32_at(b, 12), u32_at(b, 16)) as nat)
    } else {
        b
    };
    if recomputes(fields, dir, FieldId::Ipv4HeaderChecksum) {
        set16(c, 10, internet_checksum(c.take(20), 5) as nat)
    } else {
        c
    }
}

/// Whether any descriptor applying to `dir` recomputes a field.
pub open spec fn recomputes_any(fields: Seq<FieldModel>, dir: Direction) -> bool {
    exists|j: int|
        0 <= j < fields.len() && applies((#[trigger] fields[j]).dir, dir) && is_computed(
            fields[j].cda,
        )
}

fn recomputes_exec(fields: &Vec<FieldDesc>, dir: Direction, fid: FieldId) -> (r: bool)
    ensures
        r == recomputes(field_models(fields@), dir, fid),
{
    let ghost fm = field_models(fields@);
    let mut i: usize = 0;
    while i < fields.len()
        invariant
            i <= fields.len(),
            fm == field_models(fields@),
            forall|j: int|
                0 <= j < i ==> !((#[trigger] fm[j]).fid == fid && applies(fm[j].dir, dir)
                    && is_computed(fm[j].cda)),
        decreases fields.len() - i,
    {
        proof {
            assert(fm[i as int] == fields@[i as int]@);
        }
        let computed = match fields[i].cda {
            crate::rule::Action::ComputeLength => true,
            crate::rule::Action::ComputeChecksum => true,
            _ => false,
        };
        if fields[i].fid == fid && applies_to(fields[i].dir, dir) && computed {
            return true;
        }
        i = i + 1;
    }
    false
}

fn any_recomputed(fields: &Vec<FieldDesc>, dir: Direction) -> (r: bool)
    ensures
        r == recomputes_any(field_models(fields@), dir),
{
    let ghost fm = field_models(fields@);
    let mut i: usize = 0;
    while i < fields.len()
        invariant
            i <= fields.len(),
            fm == field_models(fields@),
            forall|j: int|
                0 <= j < i ==> !(applies((#[trigger] fm[j]).dir, dir) && is_computed(fm[j].cda)),
        decreases fields.len() - i,
    {
        proof {
            assert(fm[i as int] == fields@[i as int]@);
        }
        let computed = match fields[i].cda {
            crate::rule::Action::ComputeLength => true,
            crate::rule::Action::ComputeChecksum => true,
            _ => false,
        };
        if applies_to(fields[i].dir, dir) && computed {
            return true;
        }
        i = i + 1;
    }
    false
}

fn write16(s: &mut Vec<u8>, at: usize, v: u16)
    requires
        at + 1 < old(s).len(),
    ensures
        final(s)@ == set16(old(s)@, at as int, v as nat),
{
    s.set(at, (v / 256) as u8);
    s.set(at + 1, (v % 256) as u8);
}

fn read32(s: &Vec<u8>, at: usize) -> (r: u32)
    requires
        at + 3 < s.len(),
    ensures
        r == u32_at(s@, at as int),
{
    let v: u64 = s[at] as u64 * 0x100_0000 + s[at + 1] as u64 * 0x1_0000 + s[at + 2] as u64 * 0x100
        + s[at + 3] as u64;
    v as u32
}

/// Fills in the lengths and checksums that the rule's descriptors
/// recompute, in an IPv4 datagram rebuilt from a residue. Where the rule
/// recomputes some field, the datagram must hold the IPv4 and UDP headers
/// and be at most 65535 octets, else reconstruction fails.
pub fn fill_computed(fields: &Vec<FieldDesc>, dir: Direction, datagram: Vec<u8>) -> (r: Result<Vec<u8>, SchcError>)
    ensures
        match r {
            Ok(p) => p@ == filled(field_models(fields@), dir, datagram@) && p.len() == datagram.len()
                && !(recomputes_any(field_models(fields@), dir) && (datagram.len() < 28
                || datagram.len() > 65535)),
            Err(e) => e == SchcError::ReconstructionFailed && recomputes_any(field_models(fields@), dir)
                && (datagram.len() < 28 || datagram.len() > 65535),
        },
{
    let ghost fm = field_models(fields@);
    if !any_recomputed(fields, dir) {
        proof {
            assert(!recomputes(fm, dir, FieldId::Ipv4TotalLength));
            assert(!recomputes(fm, dir, FieldId::UdpLength));
            assert(!recomputes(fm, dir, FieldId::UdpChecksum));
            assert(!recomputes(fm, dir, FieldId::Ipv4HeaderChecksum));
        }
        return Ok(datagram);
    }
    let n = datagram.len();
    if n < 28 || n > 65535 {
        return Err(SchcError::ReconstructionFailed);
    }
    let mut p = datagram;
    if recomputes_exec(fields, dir, FieldId::Ipv4TotalLength) {
        write16(&mut p, 2, n as u16);
    }
    if recomputes_exec(fields, dir, FieldId::UdpLength) {
        write16(&mut p, 24, (n - 20) as u16);
    }
    if recomputes_exec(fields, dir, FieldId::UdpChecksum) {
        let seg = crate::engine::copy_octets(&p, 20, n);
        let src = read32(&p, 12);
        let dst = read32(&p, 16);
        proof {
            assert(seg@ =~= p@.skip(20));
        }
        let cs = udp_checksum(seg.as_slice(), src, dst);
        write16(&mut p, 26, cs);
    }
    if recomputes_exec(fields, dir, FieldId::Ipv4HeaderChecksum) {
        let hdr = crate::engine::copy_octets(&p, 0, 20);
        proof {
            assert(hdr@ =~= p@.take(20));
        }
        let cs = header_checksum(hdr.as_slice(), 5);
        write16(&mut p, 10, cs);
    }
    Ok(p)
}

} // verus!

verus! {

/// Filling in touches only the IPv4 and UDP headers: octets from 28 on are
/// kept, and so is the length.
pub proof fn lemma_filled_keeps_tail(fields: Seq<FieldModel>, dir: Direction, p: Seq<u8>)
    requires
        p.len() >= 28,
    ensures
        filled(fields, dir, p).len() == p.len(),
        filled(fields, dir, p).skip(28) == p.skip(28),
{
    let a = if recomputes(fields, dir, FieldId::Ipv4TotalLength) {
        set16(p, 2, p.len())
    } else {
        p
    };
    assert(a.len() == p.len() && a.skip(28) =~= p.skip(28));
    let b = if recomputes(fields, dir, FieldId::UdpLength) {
        set16(a, 24, (p.len() - 20) as nat)
    } else {
        a
    };
    assert(b.len() == p.len() && b.skip(28) =~= p.skip(28));
    let c = if recomputes(fields, dir, FieldId::UdpChecksum) {
        set16(b, 26, udp_checksum_of(b.skip(20), u32_at(b, 12), u32_at(b, 16)) as nat)
    } else {
        b
    };
    assert(c.len() == p.len() && c.skip(28) =~= p.skip(28));
    let d = filled(fields, dir, p);
    assert(d.len() == p.len() && d.skip(28) =~= p.skip(28));
}

} // verus!
