//! The field walk: locating fields in a frame as a rule lists them, coding
//! each into residue bits, and reconstructing them from residue bits.
use vstd::prelude::*;
use crate::bits::{
    uint_of, uint_bits, pow2, lemma_uint_of_bound, lemma_uint_of_bits, lemma_uint_bits_len,
    lemma_pow2_pos, lemma_pow2_values, slice_bits, append_bits, bits_equal, zero_bits, read_uint, uint_to_bits,
};
use crate::rule::{
    FieldId, Direction, MatchOp, MatchOpModel, Action, FieldDesc, FieldModel, applies, applies_to,
    field_models, bit_strings,
};

verus! {

/// Bits of the Ethernet header that precedes the compressed headers.
pub const HEADER_START: usize = 112;

/// Longest connection id that QUIC allows, in octets.
pub const MAX_CID_LEN: u8 = 20;

#[derive(Clone, Copy, Debug, PartialEq, Eq, Structural)]
pub enum ParseError {
    FieldAbsent,
    ContextRequired,
    BufferUnderrun,
    MalformedField,
}

#[derive(Clone, Copy, Debug, PartialEq, Eq, Structural)]
pub enum SchcError {
    NoMatchingRule,
    Parser(ParseError),
    ResidueUnderrun,
    ReconstructionFailed,
    RuleFileInvalid,
}

/// What earlier fields of the walk tell about the widths of later ones.
#[derive(Clone, Copy, Debug, PartialEq, Eq, Structural)]
pub struct Layout {
    pub first_byte: Option<u8>,
    pub dcid_len: Option<u8>,
    pub scid_len: Option<u8>,
}

pub open spec fn fresh_layout() -> Layout {
    Layout { first_byte: None, dcid_len: None, scid_len: None }
}

pub open spec fn is_long_header(lay: Layout) -> bool {
    match lay.first_byte {
        Some(b) => b >= 128,
        None => false,
    }
}

pub open spec fn cid_width(len: Option<u8>) -> Result<nat, ParseError> {
    match len {
        Some(n) => Ok(8 * n as nat),
        None => Err(ParseError::ContextRequired),
    }
}

/// The width in bits of a field, given the fields walked before it.
///
/// A short header does not carry the length of its destination connection
/// id: only a descriptor that pins the value with `equal` fixes its width.
pub open spec fn field_width(fd: FieldModel, lay: Layout) -> Result<nat, ParseError> {
    match fd.fid {
        FieldId::Ipv4Version => Ok(4),
        FieldId::Ipv4Ihl => Ok(4),
        FieldId::Ipv4Dscp => Ok(6),
        FieldId::Ipv4Ecn => Ok(2),
        FieldId::Ipv4TotalLength => Ok(16),
        FieldId::Ipv4Identification => Ok(16),
        FieldId::Ipv4Flags => Ok(3),
        FieldId::Ipv4FragmentOffset => Ok(13),
        FieldId::Ipv4Ttl => Ok(8),
        FieldId::Ipv4Protocol => Ok(8),
        FieldId::Ipv4HeaderChecksum => Ok(16),
        FieldId::Ipv4Src => Ok(32),
        FieldId::Ipv4Dst => Ok(32),
        FieldId::UdpSrcPort => Ok(16),
        FieldId::UdpDstPort => Ok(16),
        FieldId::UdpLength => Ok(16),
        FieldId::UdpChecksum => Ok(16),
        FieldId::QuicFirstByte => Ok(8),
        FieldId::QuicVersion => if is_long_header(lay) {
            Ok(32)
        } else {
            Err(ParseError::FieldAbsent)
        },
        FieldId::QuicDcidLen => if is_long_header(lay) {
            Ok(8)
        } else {
            Err(ParseError::FieldAbsent)
        },
        FieldId::QuicScidLen => if is_long_header(lay) {
            Ok(8)
        } else {
            Err(ParseError::FieldAbsent)
        },
        FieldId::QuicScid => if is_long_header(lay) {
            cid_width(lay.scid_len)
        } else {
            Err(ParseError::FieldAbsent)
        },
        FieldId::QuicDcid => match lay.first_byte {
            None => Err(ParseError::FieldAbsent),
            Some(b) => if b >= 128 {
                cid_width(lay.dcid_len)
            } else if fd.mo is Equal {
                Ok(fd.target.len())
            } else {
                Err(ParseError::ContextRequired)
            },
        },
        FieldId::QuicPacketNumber => match lay.first_byte {
            None => Err(ParseError::FieldAbsent),
            Some(b) => Ok(8 * (b as nat % 4 + 1)),
        },
    }
}

pub open spec fn read_cid_len(v: Seq<bool>) -> Result<Option<u8>, ParseError> {
    if v.len() != 8 || uint_of(v) > MAX_CID_LEN {
        Err(ParseError::MalformedField)
    } else {
        Ok(Some(uint_of(v) as u8))
    }
}

/// The layout after walking field `fid` with value `v`.
pub open spec fn advance(lay: Layout, fid: FieldId, v: Seq<bool>) -> Result<Layout, ParseError> {
    match fid {
        FieldId::QuicFirstByte => if v.len() != 8 {
            Err(ParseError::MalformedField)
        } else {
            Ok(Layout { first_byte: Some(uint_of(v) as u8), ..lay })
        },
        FieldId::QuicDcidLen => match read_cid_len(v) {
            Ok(n) => Ok(Layout { dcid_len: n, ..lay }),
            Err(e) => Err(e),
        },
        FieldId::QuicScidLen => match read_cid_len(v) {
            Ok(n) => Ok(Layout { scid_len: n, ..lay }),
            Err(e) => Err(e),
        },
        _ => Ok(lay),
    }
}

pub open spec fn is_length_field(fid: FieldId) -> bool {
    fid == FieldId::Ipv4TotalLength || fid == FieldId::UdpLength
}

pub open spec fn is_checksum_field(fid: FieldId) -> bool {
    fid == FieldId::Ipv4HeaderChecksum || fid == FieldId::UdpChecksum
}

/// The first position of `v` among the first `n` entries of `m`.
pub open spec fn first_index(m: Seq<Seq<bool>>, v: Seq<bool>, n: nat) -> Option<nat>
    decreases n,
{
    if n == 0 {
        None
    } else {
        match first_index(m, v, (n - 1) as nat) {
            Some(i) => Some(i),
            None => if m[n - 1] == v {
                Some((n - 1) as nat)
            } else {
                None
            },
        }
    }
}

/// Bits of an index into a mapping of `n` entries: `ceil(log2 n)`.
pub open spec fn index_width(n: nat) -> nat
    decreases n,
{
    if n <= 1 {
        0
    } else {
        1 + index_width(((n + 1) / 2) as nat)
    }
}

/// Whether the matching operator accepts value `v`.
pub open spec fn mo_accepts(mo: MatchOpModel, target: Seq<bool>, v: Seq<bool>) -> bool {
    match mo {
        MatchOpModel::Equal => v == target,
        MatchOpModel::Ignore => true,
        MatchOpModel::Msb(k) => k <= v.len() && k <= target.len() && v.take(k as int)
            == target.take(k as int),
        MatchOpModel::MatchMapping(m) => first_index(m, v, m.len()) is Some,
    }
}

/// The residue of value `v` under descriptor `fd`, or `None` where the
/// descriptor does not accept the value: its operator rejects it, or its
/// action cannot carry it without loss.
pub open spec fn encode_field(fd: FieldModel, v: Seq<bool>) -> Option<Seq<bool>> {
    if !mo_accepts(fd.mo, fd.target, v) {
        None
    } else {
        match fd.cda {
            Action::NotSent => if v == fd.target {
                Some(Seq::empty())
            } else {
                None
            },
            Action::ValueSent => Some(v),
            Action::Lsb(k) => {
                let h = v.len() - k;
                if k as nat <= v.len() && h <= fd.target.len() && v.take(h) == fd.target.take(h) {
                    Some(v.skip(h))
                } else {
                    None
                }
            },
            Action::MappingSent => match fd.mo {
                MatchOpModel::MatchMapping(m) => match first_index(m, v, m.len()) {
                    Some(i) => if index_width(m.len()) <= v.len() {
                        Some(uint_bits(i, index_width(m.len())))
                    } else {
                        None
                    },
                    None => None,
                },
                _ => None,
            },
            Action::ComputeLength => if is_length_field(fd.fid) {
                Some(Seq::empty())
            } else {
                None
            },
            Action::ComputeChecksum => if is_checksum_field(fd.fid) {
                Some(Seq::empty())
            } else {
                None
            },
        }
    }
}

pub open spec fn zeros(n: nat) -> Seq<bool> {
    Seq::new(n, |_i: int| false)
}

/// Reconstructs a field of width `w` from the residue bits of `input` at
/// `pos`: its value and the position after what was read. A computed field
/// comes back as zeros, to be filled in once the packet is whole.
pub open spec fn decode_field(fd: FieldModel, w: nat, input: Seq<bool>, pos: nat) -> Result<
    (Seq<bool>, nat),
    SchcError,
> {
    match fd.cda {
        Action::NotSent => Ok((fd.target, pos)),
        Action::ValueSent => if pos + w <= input.len() {
            Ok((input.subrange(pos as int, (pos + w) as int), pos + w))
        } else {
            Err(SchcError::ResidueUnderrun)
        },
        Action::Lsb(k) => if k > w || w - k > fd.target.len() {
            Err(SchcError::ReconstructionFailed)
        } else if pos + k > input.len() {
            Err(SchcError::ResidueUnderrun)
        } else {
            Ok(
                (
                    fd.target.take(w - k) + input.subrange(pos as int, (pos + k) as int),
                    pos + k as nat,
                ),
            )
        },
        Action::MappingSent => match fd.mo {
            MatchOpModel::MatchMapping(m) => {
                let b = index_width(m.len());
                if pos + b > input.len() {
                    Err(SchcError::ResidueUnderrun)
                } else if uint_of(input.subrange(pos as int, (pos + b) as int)) < m.len() {
                    Ok((m[uint_of(input.subrange(pos as int, (pos + b) as int)) as int], pos + b))
                } else {
                    Err(SchcError::ReconstructionFailed)
                }
            },
            _ => Err(SchcError::ReconstructionFailed),
        },
        Action::ComputeLength => Ok((zeros(w), pos)),
        Action::ComputeChecksum => Ok((zeros(w), pos)),
    }
}

/// State of a compressing walk: residue so far, the value of each
/// descriptor walked (empty where it does not apply), the bit position in
/// the frame, and the layout.
pub type EncodeState = (Seq<bool>, Seq<Seq<bool>>, nat, Layout);

pub open spec fn encode_step(fd: FieldModel, dir: Direction, frame: Seq<bool>, st: EncodeState) -> Result<
    EncodeState,
    SchcError,
> {
    let (res, vals, pos, lay) = st;
    if !applies(fd.dir, dir) {
        Ok((res, vals.push(Seq::empty()), pos, lay))
    } else {
        match field_width(fd, lay) {
            Err(p) => Err(SchcError::Parser(p)),
            Ok(w) => if pos + w > frame.len() {
                Err(SchcError::Parser(ParseError::BufferUnderrun))
            } else {
                let v = frame.subrange(pos as int, (pos + w) as int);
                match encode_field(fd, v) {
                    None => Err(SchcError::NoMatchingRule),
                    Some(r) => match advance(lay, fd.fid, v) {
                        Err(p) => Err(SchcError::Parser(p)),
                        Ok(l2) => Ok((res + r, vals.push(v), pos + w, l2)),
                    },
                }
            },
        }
    }
}

/// The compressing walk over the first `n` descriptors of a rule.
pub open spec fn encode_walk(fields: Seq<FieldModel>, dir: Direction, frame: Seq<bool>, n: nat) -> Result<
    EncodeState,
    SchcError,
>
    decreases n,
{
    if n == 0 {
        Ok((Seq::empty(), Seq::empty(), HEADER_START as nat, fresh_layout()))
    } else {
        match encode_walk(fields, dir, frame, (n - 1) as nat) {
            Err(e) => Err(e),
            Ok(st) => encode_step(fields[n - 1], dir, frame, st),
        }
    }
}

/// State of a reconstructing walk: header bits so far, position in the
/// input, layout.
pub type DecodeState = (Seq<bool>, nat, Layout);

pub open spec fn decode_step(fd: FieldModel, dir: Direction, input: Seq<bool>, st: DecodeState) -> Result<
    DecodeState,
    SchcError,
> {
    let (hdr, pos, lay) = st;
    if !applies(fd.dir, dir) {
        Ok(st)
    } else {
        match field_width(fd, lay) {
            Err(_) => Err(SchcError::ReconstructionFailed),
            Ok(w) => match decode_field(fd, w, input, pos) {
                Err(e) => Err(e),
                Ok((v, p2)) => match advance(lay, fd.fid, v) {
                    Err(_) => Err(SchcError::ReconstructionFailed),
                    Ok(l2) => Ok((hdr + v, p2, l2)),
                },
            },
        }
    }
}

/// The reconstructing walk over the first `n` descriptors, reading residue
/// from `input` at `start`.
pub open spec fn decode_walk(
    fields: Seq<FieldModel>,
    dir: Direction,
    input: Seq<bool>,
    start: nat,
    n: nat,
) -> Result<DecodeState, SchcError>
    decreases n,
{
    if n == 0 {
        Ok((Seq::empty(), start, fresh_layout()))
    } else {
        match decode_walk(fields, dir, input, start, (n - 1) as nat) {
            Err(e) => Err(e),
            Ok(st) => decode_step(fields[n - 1], dir, input, st),
        }
    }
}

} // verus!

verus! {

pub open spec fn width_result(r: Result<usize, ParseError>) -> Result<nat, ParseError> {
    match r {
        Ok(w) => Ok(w as nat),
        Err(e) => Err(e),
    }
}

fn cid_width_of(len: Option<u8>) -> (r: Result<usize, ParseError>)
    ensures
        width_result(r) == cid_width(len),
{
    match len {
        Some(n) => Ok(8 * n as usize),
        None => Err(ParseError::ContextRequired),
    }
}

/// The width in bits of a field, given the fields walked before it.
pub fn field_width_of(fd: &FieldDesc, lay: Layout) -> (r: Result<usize, ParseError>)
    ensures
        width_result(r) == field_width(fd@, lay),
{
    let long = match lay.first_byte {
        Some(b) => b >= 128,
        None => false,
    };
    match fd.fid {
        FieldId::Ipv4Version => Ok(4),
        FieldId::Ipv4Ihl => Ok(4),
        FieldId::Ipv4Dscp => Ok(6),
        FieldId::Ipv4Ecn => Ok(2),
        FieldId::Ipv4TotalLength => Ok(16),
        FieldId::Ipv4Identification => Ok(16),
        FieldId::Ipv4Flags => Ok(3),
        FieldId::Ipv4FragmentOffset => Ok(13),
        FieldId::Ipv4Ttl => Ok(8),
        FieldId::Ipv4Protocol => Ok(8),
        FieldId::Ipv4HeaderChecksum => Ok(16),
        FieldId::Ipv4Src => Ok(32),
        FieldId::Ipv4Dst => Ok(32),
        FieldId::UdpSrcPort => Ok(16),
        FieldId::UdpDstPort => Ok(16),
        FieldId::UdpLength => Ok(16),
        FieldId::UdpChecksum => Ok(16),
        FieldId::QuicFirstByte => Ok(8),
        FieldId::QuicVersion => if long {
            Ok(32)
        } else {
            Err(ParseError::FieldAbsent)
        },
        FieldId::QuicDcidLen => if long {
            Ok(8)
        } else {
            Err(ParseError::FieldAbsent)
        },
        FieldId::QuicScidLen => if long {
            Ok(8)
        } else {
            Err(ParseError::FieldAbsent)
        },
        FieldId::QuicScid => if long {
            cid_width_of(lay.scid_len)
        } else {
            Err(ParseError::FieldAbsent)
        },
        FieldId::QuicDcid => match lay.first_byte {
            None => Err(ParseError::FieldAbsent),
            Some(b) => if b >= 128 {
                cid_width_of(lay.dcid_len)
            } else {
                match fd.mo {
                    MatchOp::Equal => Ok(fd.target.len()),
                    _ => Err(ParseError::ContextRequired),
                }
            },
        },
        FieldId::QuicPacketNumber => match lay.first_byte {
            None => Err(ParseError::FieldAbsent),
            Some(b) => Ok(8 * (b as usize % 4 + 1)),
        },
    }
}

fn read_cid_len_of(v: &Vec<bool>) -> (r: Result<Option<u8>, ParseError>)
    ensures
        r == read_cid_len(v@),
{
    if v.len() != 8 {
        return Err(ParseError::MalformedField);
    }
    let n = read_uint(v, 0, 8);
    proof {
        assert(v@.subrange(0, 8) =~= v@);
    }
    if n > MAX_CID_LEN as u64 {
        Err(ParseError::MalformedField)
    } else {
        Ok(Some(n as u8))
    }
}

/// The layout after walking field `fid` with value `v`.
pub fn advance_layout(lay: Layout, fid: FieldId, v: &Vec<bool>) -> (r: Result<Layout, ParseError>)
    ensures
        r == advance(lay, fid, v@),
{
    match fid {
        FieldId::QuicFirstByte => {
            if v.len() != 8 {
                return Err(ParseError::MalformedField);
            }
            let b = read_uint(v, 0, 8);
            proof {
                assert(v@.subrange(0, 8) =~= v@);
                lemma_uint_of_bound(v@);
                lemma_pow2_values();
            }
            Ok(Layout { first_byte: Some(b as u8), ..lay })
        },
        FieldId::QuicDcidLen => match read_cid_len_of(v) {
            Ok(n) => Ok(Layout { dcid_len: n, ..lay }),
            Err(e) => Err(e),
        },
        FieldId::QuicScidLen => match read_cid_len_of(v) {
            Ok(n) => Ok(Layout { scid_len: n, ..lay }),
            Err(e) => Err(e),
        },
        _ => Ok(lay),
    }
}

pub open spec fn index_result(r: Option<usize>) -> Option<nat> {
    match r {
        Some(i) => Some(i as nat),
        None => None,
    }
}

/// The first position of `v` in the mapping `m`.
pub fn mapping_position(m: &Vec<Vec<bool>>, v: &Vec<bool>) -> (r: Option<usize>)
    ensures
        index_result(r) == first_index(bit_strings(m@), v@, m.len() as nat),
        r matches Some(i) ==> i < m.len(),
{
    let ghost ms = bit_strings(m@);
    let mut i: usize = 0;
    while i < m.len()
        invariant
            i <= m.len(),
            ms == bit_strings(m@),
            first_index(ms, v@, i as nat) is None,
        decreases m.len() - i,
    {
        proof {
            assert(ms[i as int] == m@[i as int]@);
        }
        if bits_equal(&m[i], v) {
            proof {
                lemma_first_index_stable(ms, v@, (i + 1) as nat, m.len() as nat);
            }
            return Some(i);
        }
        i = i + 1;
    }
    None
}

proof fn lemma_first_index_stable(m: Seq<Seq<bool>>, v: Seq<bool>, n: nat, k: nat)
    requires
        n <= k,
    ensures
        first_index(m, v, n) is Some ==> first_index(m, v, k) == first_index(m, v, n),
    decreases k - n,
{
    if n < k {
        lemma_first_index_stable(m, v, n, (k - 1) as nat);
    }
}

proof fn lemma_first_index_bound(m: Seq<Seq<bool>>, v: Seq<bool>, n: nat)
    ensures
        first_index(m, v, n) matches Some(i) ==> i < n && m[i as int] == v,
    decreases n,
{
    if n > 0 {
        lemma_first_index_bound(m, v, (n - 1) as nat);
    }
}

/// Bits of an index into a mapping of `n` entries.
pub fn index_width_of(n: usize) -> (r: usize)
    ensures
        r == index_width(n as nat),
        r <= 64,
{
    let mut c: usize = n;
    let mut b: usize = 0;
    proof {
        lemma_pow2_values();
        lemma_index_width_bound(n as nat, 64);
    }
    while c > 1
        invariant
            b + index_width(c as nat) == index_width(n as nat),
            index_width(n as nat) <= 64,
        decreases c,
    {
        c = c / 2 + c % 2;
        b = b + 1;
    }
    b
}

proof fn lemma_index_width_bound(n: nat, k: nat)
    requires
        n <= pow2(k),
    ensures
        index_width(n) <= k,
    decreases k,
{
    if n > 1 && k > 0 {
        lemma_index_width_bound(((n + 1) / 2) as nat, (k - 1) as nat);
    }
    if n > 1 && k == 0 {
        assert(pow2(0) == 1);
    }
}

proof fn lemma_index_width_covers(n: nat)
    ensures
        n <= pow2(index_width(n)),
    decreases n,
{
    lemma_pow2_pos(index_width(n));
    if n > 1 {
        lemma_index_width_covers(((n + 1) / 2) as nat);
    }
}

fn op_accepts(mo: &MatchOp, target: &Vec<bool>, v: &Vec<bool>) -> (r: bool)
    ensures
        r == mo_accepts(mo@, target@, v@),
{
    match mo {
        MatchOp::Equal => bits_equal(v, target),
        MatchOp::Ignore => true,
        MatchOp::Msb(k) => {
            let k = *k as usize;
            if k > v.len() || k > target.len() {
                false
            } else {
                let a = slice_bits(v, 0, k);
                let b = slice_bits(target, 0, k);
                bits_equal(&a, &b)
            }
        },
        MatchOp::MatchMapping(m) => mapping_position(m, v).is_some(),
    }
}

pub open spec fn residue_result(r: Option<Vec<bool>>) -> Option<Seq<bool>> {
    match r {
        Some(x) => Some(x@),
        None => None,
    }
}

/// The residue of value `v` under descriptor `fd`, if it accepts `v`.
pub fn encode_value(fd: &FieldDesc, v: &Vec<bool>) -> (r: Option<Vec<bool>>)
    ensures
        residue_result(r) == encode_field(fd@, v@),
{
    if !op_accepts(&fd.mo, &fd.target, v) {
        return None;
    }
    match fd.cda {
        Action::NotSent => if bits_equal(v, &fd.target) {
            Some(Vec::new())
        } else {
            None
        },
        Action::ValueSent => Some(slice_bits(v, 0, v.len())),
        Action::Lsb(k) => {
            let k = k as usize;
            if k > v.len() {
                return None;
            }
            let h = v.len() - k;
            if h > fd.target.len() {
                return None;
            }
            let a = slice_bits(v, 0, h);
            let b = slice_bits(&fd.target, 0, h);
            if bits_equal(&a, &b) {
                Some(slice_bits(v, h, v.len()))
            } else {
                None
            }
        },
        Action::MappingSent => match &fd.mo {
            MatchOp::MatchMapping(m) => match mapping_position(m, v) {
                Some(i) => {
                    let b = index_width_of(m.len());
                    if b <= v.len() {
                        Some(uint_to_bits(i as u64, b))
                    } else {
                        None
                    }
                },
                None => None,
            },
            _ => None,
        },
        Action::ComputeLength => match fd.fid {
            FieldId::Ipv4TotalLength => Some(Vec::new()),
            FieldId::UdpLength => Some(Vec::new()),
            _ => None,
        },
        Action::ComputeChecksum => match fd.fid {
            FieldId::Ipv4HeaderChecksum => Some(Vec::new()),
            FieldId::UdpChecksum => Some(Vec::new()),
            _ => None,
        },
    }
}

pub open spec fn decoded_result(r: Result<(Vec<bool>, usize), SchcError>) -> Result<
    (Seq<bool>, nat),
    SchcError,
> {
    match r {
        Ok((v, p)) => Ok((v@, p as nat)),
        Err(e) => Err(e),
    }
}

/// Reconstructs a field of width `w` from the residue in `input` at `pos`.
pub fn decode_value(fd: &FieldDesc, w: usize, input: &Vec<bool>, pos: usize) -> (r: Result<
    (Vec<bool>, usize),
    SchcError,
>)
    requires
        pos <= input.len(),
    ensures
        decoded_result(r) == decode_field(fd@, w as nat, input@, pos as nat),
        r matches Ok((_, p)) ==> pos <= p <= input.len(),
{
    match fd.cda {
        Action::NotSent => {
            let t = slice_bits(&fd.target, 0, fd.target.len());
            proof {
                assert(t@ =~= fd.target@);
            }
            Ok((t, pos))
        },
        Action::ValueSent => if w <= input.len() - pos {
            Ok((slice_bits(input, pos, pos + w), pos + w))
        } else {
            Err(SchcError::ResidueUnderrun)
        },
        Action::Lsb(k) => {
            let k = k as usize;
            if k > w || w - k > fd.target.len() {
                Err(SchcError::ReconstructionFailed)
            } else if k > input.len() - pos {
                Err(SchcError::ResidueUnderrun)
            } else {
                let mut v = slice_bits(&fd.target, 0, w - k);
                let low = slice_bits(input, pos, pos + k);
                append_bits(&mut v, &low);
                Ok((v, pos + k))
            }
        },
        Action::MappingSent => match &fd.mo {
            MatchOp::MatchMapping(m) => {
                let b = index_width_of(m.len());
                if b > input.len() - pos {
                    Err(SchcError::ResidueUnderrun)
                } else {
                    let i = read_uint(input, pos, b);
                    if i < m.len() as u64 {
                        let v = slice_bits(&m[i as usize], 0, m[i as usize].len());
                        proof {
                            assert(v@ =~= m@[i as int]@);
                            assert(bit_strings(m@)[i as int] == m@[i as int]@);
                        }
                        Ok((v, pos + b))
                    } else {
                        Err(SchcError::ReconstructionFailed)
                    }
                }
            },
            _ => Err(SchcError::ReconstructionFailed),
        },
        Action::ComputeLength => Ok((zero_bits(w), pos)),
        Action::ComputeChecksum => Ok((zero_bits(w), pos)),
    }
}

} // verus!

verus! {

/// What a compressing walk produced.
pub struct Walked {
    pub residue: Vec<bool>,
    pub values: Vec<Vec<bool>>,
    pub end: usize,
    pub layout: Layout,
}

pub open spec fn walked_state(w: Walked) -> EncodeState {
    (w.residue@, bit_strings(w.values@), w.end as nat, w.layout)
}

pub open spec fn walked_result(r: Result<Walked, SchcError>) -> Result<EncodeState, SchcError> {
    match r {
        Ok(w) => Ok(walked_state(w)),
        Err(e) => Err(e),
    }
}

/// Once a walk fails, walking further descriptors fails the same way.
pub proof fn lemma_encode_walk_err(fields: Seq<FieldModel>, dir: Direction, frame: Seq<bool>, k: nat, n: nat)
    requires
        k <= n,
        encode_walk(fields, dir, frame, k) is Err,
    ensures
        encode_walk(fields, dir, frame, n) == encode_walk(fields, dir, frame, k),
    decreases n - k,
{
    if k < n {
        lemma_encode_walk_err(fields, dir, frame, k, (n - 1) as nat);
    }
}

/// Walks the frame bits along the descriptors of a rule, coding each field.
pub fn encode_fields(fields: &Vec<FieldDesc>, dir: Direction, frame: &Vec<bool>) -> (r: Result<
    Walked,
    SchcError,
>)
    ensures
        walked_result(r) == encode_walk(field_models(fields@), dir, frame@, fields.len() as nat),
        r matches Ok(w) ==> w.end <= frame.len() || w.end == HEADER_START,
{
    let ghost fm = field_models(fields@);
    let mut cur = Walked {
        residue: Vec::new(),
        values: Vec::new(),
        end: HEADER_START,
        layout: Layout { first_byte: None, dcid_len: None, scid_len: None },
    };
    proof {
        assert(walked_state(cur) =~= (Seq::<bool>::empty(), Seq::<Seq<bool>>::empty(), HEADER_START as nat, fresh_layout()));
    }
    let mut i: usize = 0;
    while i < fields.len()
        invariant
            i <= fields.len(),
            fm == field_models(fields@),
            encode_walk(fm, dir, frame@, i as nat) == Ok::<EncodeState, SchcError>(walked_state(cur)),
            cur.end <= frame.len() || cur.end == HEADER_START,
        decreases fields.len() - i,
    {
        let fd = &fields[i];
        proof {
            assert(fm[i as int] == fd@);
        }
        if !applies_to(fd.dir, dir) {
            let ghost prev = walked_state(cur);
            cur.values.push(Vec::new());
            proof {
                assert(bit_strings(cur.values@) =~= prev.1.push(Seq::empty()));
            }
        } else {
            match field_width_of(fd, cur.layout) {
                Err(p) => {
                    proof {
                        lemma_encode_walk_err(fm, dir, frame@, (i + 1) as nat, fields.len() as nat);
                    }
                    return Err(SchcError::Parser(p));
                },
                Ok(w) => {
                    if frame.len() < cur.end || w > frame.len() - cur.end {
                        proof {
                            lemma_encode_walk_err(fm, dir, frame@, (i + 1) as nat, fields.len() as nat);
                        }
                        return Err(SchcError::Parser(ParseError::BufferUnderrun));
                    }
                    let v = slice_bits(frame, cur.end, cur.end + w);
                    match encode_value(fd, &v) {
                        None => {
                            proof {
                                lemma_encode_walk_err(fm, dir, frame@, (i + 1) as nat, fields.len() as nat);
                            }
                            return Err(SchcError::NoMatchingRule);
                        },
                        Some(r) => match advance_layout(cur.layout, fd.fid, &v) {
                            Err(p) => {
                                proof {
                                    lemma_encode_walk_err(fm, dir, frame@, (i + 1) as nat, fields.len() as nat);
                                }
                                return Err(SchcError::Parser(p));
                            },
                            Ok(l2) => {
                                let ghost prev = walked_state(cur);
                                append_bits(&mut cur.residue, &r);
                                cur.values.push(v);
                                cur.end = cur.end + w;
                                cur.layout = l2;
                                proof {
                                    assert(bit_strings(cur.values@) =~= prev.1.push(v@));
                                }
                            },
                        },
                    }
                },
            }
        }
        i = i + 1;
    }
    Ok(cur)
}

} // verus!

verus! {

pub proof fn lemma_decode_walk_err(
    fields: Seq<FieldModel>,
    dir: Direction,
    input: Seq<bool>,
    start: nat,
    k: nat,
    n: nat,
)
    requires
        k <= n,
        decode_walk(fields, dir, input, start, k) is Err,
    ensures
        decode_walk(fields, dir, input, start, n) == decode_walk(fields, dir, input, start, k),
    decreases n - k,
{
    if k < n {
        lemma_decode_walk_err(fields, dir, input, start, k, (n - 1) as nat);
    }
}

pub open spec fn rebuilt_result(r: Result<(Vec<bool>, usize, Layout), SchcError>) -> Result<
    DecodeState,
    SchcError,
> {
    match r {
        Ok((h, p, l)) => Ok((h@, p as nat, l)),
        Err(e) => Err(e),
    }
}

/// Rebuilds the header bits that the descriptors of a rule describe, reading
/// residue from `input` at `start`.
pub fn decode_fields(fields: &Vec<FieldDesc>, dir: Direction, input: &Vec<bool>, start: usize) -> (r:
    Result<(Vec<bool>, usize, Layout), SchcError>)
    requires
        start <= input.len(),
    ensures
        rebuilt_result(r) == decode_walk(
            field_models(fields@),
            dir,
            input@,
            start as nat,
            fields.len() as nat,
        ),
        r matches Ok((_, p, _)) ==> p <= input.len(),
{
    let ghost fm = field_models(fields@);
    let mut hdr: Vec<bool> = Vec::new();
    let mut pos: usize = start;
    let mut lay = Layout { first_byte: None, dcid_len: None, scid_len: None };
    let mut i: usize = 0;
    while i < fields.len()
        invariant
            i <= fields.len(),
            fm == field_models(fields@),
            start <= input.len(),
            pos <= input.len(),
            decode_walk(fm, dir, input@, start as nat, i as nat) == Ok::<DecodeState, SchcError>(
                (hdr@, pos as nat, lay),
            ),
        decreases fields.len() - i,
    {
        let fd = &fields[i];
        proof {
            assert(fm[i as int] == fd@);
        }
        if applies_to(fd.dir, dir) {
            let w = match field_width_of(fd, lay) {
                Err(_) => {
                    proof {
                        lemma_decode_walk_err(fm, dir, input@, start as nat, (i + 1) as nat, fields.len() as nat);
                    }
                    return Err(SchcError::ReconstructionFailed);
                },
                Ok(w) => w,
            };
            let (v, p2) = match decode_value(fd, w, input, pos) {
                Err(e) => {
                    proof {
                        lemma_decode_walk_err(fm, dir, input@, start as nat, (i + 1) as nat, fields.len() as nat);
                    }
                    return Err(e);
                },
                Ok(x) => x,
            };
            let l2 = match advance_layout(lay, fd.fid, &v) {
                Err(_) => {
                    proof {
                        lemma_decode_walk_err(fm, dir, input@, start as nat, (i + 1) as nat, fields.len() as nat);
                    }
                    return Err(SchcError::ReconstructionFailed);
                },
                Ok(l) => l,
            };
            append_bits(&mut hdr, &v);
            pos = p2;
            lay = l2;
        }
        i = i + 1;
    }
    Ok((hdr, pos, lay))
}

} // verus!

verus! {

pub open spec fn is_computed(cda: Action) -> bool {
    cda is ComputeLength || cda is ComputeChecksum
}

/// Whether none of the descriptors is recomputed by the receiver.
pub open spec fn all_carried(fields: Seq<FieldModel>) -> bool {
    forall|j: int| 0 <= j < fields.len() ==> !is_computed(#[trigger] fields[j].cda)
}

/// Reading back the residue of a carried field gives the field's value.
pub proof fn lemma_field_round_trip(fd: FieldModel, v: Seq<bool>, input: Seq<bool>, pos: nat)
    requires
        encode_field(fd, v) is Some,
        !is_computed(fd.cda),
        pos + encode_field(fd, v)->Some_0.len() <= input.len(),
        input.subrange(pos as int, (pos + encode_field(fd, v)->Some_0.len()) as int)
            == encode_field(fd, v)->Some_0,
    ensures
        decode_field(fd, v.len(), input, pos) == Ok::<(Seq<bool>, nat), SchcError>(
            (v, pos + encode_field(fd, v)->Some_0.len()),
        ),
{
    let r = encode_field(fd, v)->Some_0;
    match fd.cda {
        Action::NotSent => {},
        Action::ValueSent => {},
        Action::Lsb(k) => {
            let h = v.len() - k;
            assert(fd.target.take(h) + input.subrange(pos as int, pos + k) =~= v);
        },
        Action::MappingSent => {
            if let MatchOpModel::MatchMapping(m) = fd.mo {
                let i = first_index(m, v, m.len())->Some_0;
                let b = index_width(m.len());
                lemma_first_index_bound(m, v, m.len());
                lemma_index_width_covers(m.len());
                lemma_uint_of_bits(i, b);
                lemma_uint_bits_len(i, b);
                assert(i % pow2(b) == i) by {
                    vstd::arithmetic::div_mod::lemma_small_mod(i, pow2(b));
                }
            }
        },
        _ => {},
    }
}

} // verus!

verus! {

pub open spec fn residue_width_ok(fd: FieldModel, v: Seq<bool>) -> bool {
    encode_field(fd, v) matches Some(r) ==> r.len() <= v.len()
}

proof fn lemma_field_residue_bound(fd: FieldModel, v: Seq<bool>)
    ensures
        residue_width_ok(fd, v),
{
    if let Some(r) = encode_field(fd, v) {
        if let Action::MappingSent = fd.cda {
            if let MatchOpModel::MatchMapping(m) = fd.mo {
                lemma_uint_bits_len(first_index(m, v, m.len())->Some_0, index_width(m.len()));
            }
        }
    }
}

/// No field's residue is wider than the field: the residue of a walk is at
/// most as long as the header bits it walked.
pub proof fn lemma_residue_bound(fields: Seq<FieldModel>, dir: Direction, frame: Seq<bool>, n: nat)
    requires
        encode_walk(fields, dir, frame, n) is Ok,
    ensures
        HEADER_START <= encode_walk(fields, dir, frame, n)->Ok_0.2,
        encode_walk(fields, dir, frame, n)->Ok_0.0.len() + HEADER_START <= encode_walk(
            fields,
            dir,
            frame,
            n,
        )->Ok_0.2,
    decreases n,
{
    if n > 0 {
        lemma_residue_bound(fields, dir, frame, (n - 1) as nat);
        let (res0, vals0, pos0, lay0) = encode_walk(fields, dir, frame, (n - 1) as nat)->Ok_0;
        let fd = fields[n - 1];
        if applies(fd.dir, dir) {
            let w = field_width(fd, lay0)->Ok_0;
            lemma_field_residue_bound(fd, frame.subrange(pos0 as int, (pos0 + w) as int));
        }
    }
}

} // verus!

verus! {

/// A walk that succeeds has one value per descriptor, and every descriptor
/// that applies accepts its value under its operator and can carry it.
pub proof fn lemma_walk_accepts(fields: Seq<FieldModel>, dir: Direction, frame: Seq<bool>, n: nat)
    requires
        encode_walk(fields, dir, frame, n) is Ok,
    ensures
        ({
            let vals = encode_walk(fields, dir, frame, n)->Ok_0.1;
            &&& vals.len() == n
            &&& forall|j: int|
                0 <= j < n && applies(fields[j].dir, dir) ==> encode_field(
                    #[trigger] fields[j],
                    vals[j],
                ) is Some && mo_accepts(fields[j].mo, fields[j].target, vals[j])
        }),
    decreases n,
{
    if n > 0 {
        lemma_walk_accepts(fields, dir, frame, (n - 1) as nat);
    }
}

} // verus!

verus! {

/// Whether an action leaves the field out of the residue.
pub open spec fn is_elided(cda: Action) -> bool {
    cda is NotSent || cda is ComputeLength || cda is ComputeChecksum
}

/// The width of a field whose width never depends on other fields (zero
/// for the others).
pub open spec fn fixed_width(fid: FieldId) -> nat {
    match fid {
        FieldId::QuicVersion | FieldId::QuicDcidLen | FieldId::QuicScidLen | FieldId::QuicDcid
        | FieldId::QuicScid | FieldId::QuicPacketNumber => 0,
        _ => field_width(
            FieldModel {
                fid,
                dir: crate::rule::FieldDirection::Bidir,
                target: Seq::empty(),
                mo: MatchOpModel::Ignore,
                cda: Action::ValueSent,
            },
            fresh_layout(),
        )->Ok_0,
    }
}

/// An elided field saves its whole width: residue and that width together
/// fit in the header bits walked.
pub proof fn lemma_elided_saves(fields: Seq<FieldModel>, dir: Direction, frame: Seq<bool>, n: nat, j: nat)
    requires
        encode_walk(fields, dir, frame, n) is Ok,
        j < n,
        applies(fields[j as int].dir, dir),
        is_elided(fields[j as int].cda),
        fixed_width(fields[j as int].fid) > 0,
    ensures
        ({
            let (res, vals, pos, _) = encode_walk(fields, dir, frame, n)->Ok_0;
            res.len() + fixed_width(fields[j as int].fid) + HEADER_START <= pos
        }),
    decreases n,
{
    let m = (n - 1) as nat;
    lemma_residue_bound(fields, dir, frame, m);
    let (res0, vals0, pos0, lay0) = encode_walk(fields, dir, frame, m)->Ok_0;
    let fd = fields[m as int];
    if j < m {
        lemma_elided_saves(fields, dir, frame, m, j);
    }
    if applies(fd.dir, dir) {
        let w = field_width(fd, lay0)->Ok_0;
        lemma_field_residue_bound(fd, frame.subrange(pos0 as int, (pos0 + w) as int));
    }
}

} // verus!

verus! {

/// Header bit offset just past the last recomputed field among the first
/// `n` descriptors of a walk (zero where none is recomputed).
pub open spec fn carried_from(fields: Seq<FieldModel>, dir: Direction, frame: Seq<bool>, n: nat) -> nat
    decreases n,
{
    if n == 0 {
        0
    } else {
        let prev = carried_from(fields, dir, frame, (n - 1) as nat);
        let fd = fields[n - 1];
        match encode_walk(fields, dir, frame, n) {
            Ok(st) => if applies(fd.dir, dir) && is_computed(fd.cda) {
                (st.2 - HEADER_START) as nat
            } else {
                prev
            },
            Err(_) => prev,
        }
    }
}

proof fn lemma_computed_field_round_trip(fd: FieldModel, v: Seq<bool>, input: Seq<bool>, pos: nat)
    requires
        encode_field(fd, v) is Some,
        is_computed(fd.cda),
    ensures
        encode_field(fd, v)->Some_0.len() == 0,
        decode_field(fd, v.len(), input, pos) == Ok::<(Seq<bool>, nat), SchcError>(
            (zeros(v.len()), pos),
        ),
        advance(fresh_layout(), fd.fid, v) == Ok::<Layout, ParseError>(fresh_layout()),
{
}

/// Reconstruction inverts compression past the recomputed fields: the
/// rebuilt header has the length of the header walked, and agrees with it
/// from the end of the last recomputed field on. The residue is consumed
/// exactly.
#[verifier::rlimit(80)]
pub proof fn lemma_walk_round_trip_computed(
    fields: Seq<FieldModel>,
    dir: Direction,
    frame: Seq<bool>,
    input: Seq<bool>,
    start: nat,
    n: nat,
)
    requires
        n <= fields.len(),
        HEADER_START <= frame.len(),
        encode_walk(fields, dir, frame, n) is Ok,
        start + encode_walk(fields, dir, frame, n)->Ok_0.0.len() <= input.len(),
        input.subrange(start as int, (start + encode_walk(fields, dir, frame, n)->Ok_0.0.len()) as int)
            == encode_walk(fields, dir, frame, n)->Ok_0.0,
    ensures
        ({
            let (res, vals, pos, lay) = encode_walk(fields, dir, frame, n)->Ok_0;
            let q = carried_from(fields, dir, frame, n);
            let d = decode_walk(fields, dir, input, start, n);
            &&& HEADER_START <= pos <= frame.len()
            &&& q <= pos - HEADER_START
            &&& d is Ok
            &&& d->Ok_0.1 == start + res.len()
            &&& d->Ok_0.2 == lay
            &&& d->Ok_0.0.len() == pos - HEADER_START
            &&& d->Ok_0.0.skip(q as int) == frame.subrange(HEADER_START + q, pos as int)
        }),
    decreases n,
{
    if n == 0 {
        assert(frame.subrange(HEADER_START as int, HEADER_START as int) =~= Seq::<bool>::empty());
    } else {
        let m = (n - 1) as nat;
        let st0 = encode_walk(fields, dir, frame, m)->Ok_0;
        let (res0, vals0, pos0, lay0) = st0;
        let (res, vals, pos, lay) = encode_walk(fields, dir, frame, n)->Ok_0;
        let fd = fields[m as int];
        assert(res0.len() <= res.len() && res.take(res0.len() as int) == res0) by {
            if applies(fd.dir, dir) {
                let w = field_width(fd, lay0)->Ok_0;
                let v = frame.subrange(pos0 as int, (pos0 + w) as int);
                assert(res == res0 + encode_field(fd, v)->Some_0);
                assert(res.take(res0.len() as int) =~= res0);
            } else {
                assert(res.take(res0.len() as int) =~= res0);
            }
        }
        assert(input.subrange(start as int, (start + res0.len()) as int) =~= res.take(res0.len() as int));
        lemma_walk_round_trip_computed(fields, dir, frame, input, start, m);
        let q0 = carried_from(fields, dir, frame, m);
        let (h0, p0, l0) = decode_walk(fields, dir, input, start, m)->Ok_0;
        if applies(fd.dir, dir) {
            let w = field_width(fd, lay0)->Ok_0;
            let v = frame.subrange(pos0 as int, (pos0 + w) as int);
            let r = encode_field(fd, v)->Some_0;
            let p = start + res0.len();
            if is_computed(fd.cda) {
                lemma_computed_field_round_trip(fd, v, input, p);
                assert(advance(lay0, fd.fid, zeros(w)) == Ok::<Layout, ParseError>(lay0));
                let h = h0 + zeros(w);
                assert(h.skip((pos - HEADER_START) as int) =~= frame.subrange(pos as int, pos as int));
            } else {
                assert(input.subrange(p as int, (p + r.len()) as int) =~= res.subrange(
                    res0.len() as int,
                    res.len() as int,
                ));
                assert(res.subrange(res0.len() as int, res.len() as int) =~= r);
                lemma_field_round_trip(fd, v, input, p);
                let h = h0 + v;
                assert(h.skip(q0 as int) =~= h0.skip(q0 as int) + v);
                assert(frame.subrange((HEADER_START + q0) as int, pos0 as int) + v =~= frame.subrange(
                    (HEADER_START + q0) as int,
                    pos as int,
                ));
            }
        }
    }
}

/// Where no field is recomputed, the rebuilt header is the walked one.
pub proof fn lemma_carried_from_zero(fields: Seq<FieldModel>, dir: Direction, frame: Seq<bool>, n: nat)
    requires
        all_carried(fields),
        n <= fields.len(),
    ensures
        carried_from(fields, dir, frame, n) == 0,
    decreases n,
{
    if n > 0 {
        lemma_carried_from_zero(fields, dir, frame, (n - 1) as nat);
        assert(!is_computed(fields[n - 1].cda));
    }
}

} // verus!
