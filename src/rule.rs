//! Rules: field identifiers, matching operators, coding actions, field
//! descriptors, and their mathematical models.
use vstd::prelude::*;

verus! {

/// The protocol fields that a rule can describe, in wire order.
#[derive(Clone, Copy, Debug, PartialEq, Eq, Structural)]
pub enum FieldId {
    Ipv4Version,
    Ipv4Ihl,
    Ipv4Dscp,
    Ipv4Ecn,
    Ipv4TotalLength,
    Ipv4Identification,
    Ipv4Flags,
    Ipv4FragmentOffset,
    Ipv4Ttl,
    Ipv4Protocol,
    Ipv4HeaderChecksum,
    Ipv4Src,
    Ipv4Dst,
    UdpSrcPort,
    UdpDstPort,
    UdpLength,
    UdpChecksum,
    QuicFirstByte,
    QuicVersion,
    QuicDcidLen,
    QuicDcid,
    QuicScidLen,
    QuicScid,
    QuicPacketNumber,
}

/// The direction of a packet: `Up` from client to server, `Down` back.
#[derive(Clone, Copy, Debug, PartialEq, Eq, Structural)]
pub enum Direction {
    Up,
    Down,
}

/// The directions a field descriptor applies to.
#[derive(Clone, Copy, Debug, PartialEq, Eq, Structural)]
pub enum FieldDirection {
    Up,
    Down,
    Bidir,
}

/// How a field value is tested against the rule.
#[derive(Clone, Debug)]
pub enum MatchOp {
    /// The value equals the target.
    Equal,
    /// Any value.
    Ignore,
    /// The first `k` bits equal those of the target.
    Msb(u16),
    /// The value is one of the listed bit strings.
    MatchMapping(Vec<Vec<bool>>),
}

/// How a field is carried in the residue.
#[derive(Clone, Copy, Debug, PartialEq, Eq, Structural)]
pub enum Action {
    /// Nothing is sent; the target is the value.
    NotSent,
    /// The whole value is sent.
    ValueSent,
    /// The `k` low bits are sent; the others come from the target.
    Lsb(u16),
    /// The index of the value in the mapping is sent.
    MappingSent,
    /// Nothing is sent; the receiver recomputes a length.
    ComputeLength,
    /// Nothing is sent; the receiver recomputes a checksum.
    ComputeChecksum,
}

/// One field of a rule.
#[derive(Clone, Debug)]
pub struct FieldDesc {
    pub fid: FieldId,
    pub dir: FieldDirection,
    /// Target value, most significant bit first.
    pub target: Vec<bool>,
    pub mo: MatchOp,
    pub cda: Action,
}

/// A compression rule: an identifier of `rule_id_length` bits and the
/// descriptors of the fields it covers, in wire order.
#[derive(Clone, Debug)]
pub struct Rule {
    pub rule_id: u32,
    pub rule_id_length: u8,
    pub fields: Vec<FieldDesc>,
    pub comment: Option<String>,
}

pub enum MatchOpModel {
    Equal,
    Ignore,
    Msb(nat),
    MatchMapping(Seq<Seq<bool>>),
}

pub struct FieldModel {
    pub fid: FieldId,
    pub dir: FieldDirection,
    pub target: Seq<bool>,
    pub mo: MatchOpModel,
    pub cda: Action,
}

pub struct RuleModel {
    pub id: nat,
    pub id_len: nat,
    pub fields: Seq<FieldModel>,
}

pub open spec fn bit_strings(m: Seq<Vec<bool>>) -> Seq<Seq<bool>> {
    m.map_values(|v: Vec<bool>| v@)
}

impl View for MatchOp {
    type V = MatchOpModel;

    open spec fn view(&self) -> MatchOpModel {
        match self {
            MatchOp::Equal => MatchOpModel::Equal,
            MatchOp::Ignore => MatchOpModel::Ignore,
            MatchOp::Msb(k) => MatchOpModel::Msb(*k as nat),
            MatchOp::MatchMapping(m) => MatchOpModel::MatchMapping(bit_strings(m@)),
        }
    }
}

impl View for FieldDesc {
    type V = FieldModel;

    open spec fn view(&self) -> FieldModel {
        FieldModel {
            fid: self.fid,
            dir: self.dir,
            target: self.target@,
            mo: self.mo@,
            cda: self.cda,
        }
    }
}

pub open spec fn field_models(f: Seq<FieldDesc>) -> Seq<FieldModel> {
    f.map_values(|d: FieldDesc| d@)
}

impl View for Rule {
    type V = RuleModel;

    open spec fn view(&self) -> RuleModel {
        RuleModel {
            id: self.rule_id as nat,
            id_len: self.rule_id_length as nat,
            fields: field_models(self.fields@),
        }
    }
}

/// Whether a descriptor takes part for packets of direction `dir`.
pub open spec fn applies(d: FieldDirection, dir: Direction) -> bool {
    match d {
        FieldDirection::Bidir => true,
        FieldDirection::Up => dir == Direction::Up,
        FieldDirection::Down => dir == Direction::Down,
    }
}

pub fn applies_to(d: FieldDirection, dir: Direction) -> (r: bool)
    ensures
        r == applies(d, dir),
{
    match d {
        FieldDirection::Bidir => true,
        FieldDirection::Up => match dir {
            Direction::Up => true,
            Direction::Down => false,
        },
        FieldDirection::Down => match dir {
            Direction::Up => false,
            Direction::Down => true,
        },
    }
}

/// Number of descriptors applying to `dir` whose operator is not `ignore`.
pub open spec fn specificity(fields: Seq<FieldModel>, dir: Direction) -> nat
    decreases fields.len(),
{
    if fields.len() == 0 {
        0
    } else {
        specificity(fields.drop_last(), dir) + if applies(fields.last().dir, dir)
            && !(fields.last().mo is Ignore) {
            1nat
        } else {
            0nat
        }
    }
}

pub proof fn lemma_specificity_bound(fields: Seq<FieldModel>, dir: Direction)
    ensures
        specificity(fields, dir) <= fields.len(),
    decreases fields.len(),
{
    if fields.len() > 0 {
        lemma_specificity_bound(fields.drop_last(), dir);
    }
}

impl Rule {
    /// The number of descriptors applying to `dir` that are not `ignore`.
    pub fn specificity(&self, dir: Direction) -> (r: usize)
        ensures
            r == specificity(self@.fields, dir),
    {
        let mut n: usize = 0;
        let mut i: usize = 0;
        while i < self.fields.len()
            invariant
                i <= self.fields.len(),
                n == specificity(self@.fields.take(i as int), dir),
                n <= i,
            decreases self.fields.len() - i,
        {
            proof {
                assert(self@.fields.take(i + 1).drop_last() =~= self@.fields.take(i as int));
                lemma_specificity_bound(self@.fields.take(i as int), dir);
            }
            let fd = &self.fields[i];
            let ignore = match fd.mo {
                MatchOp::Ignore => true,
                _ => false,
            };
            if applies_to(fd.dir, dir) && !ignore {
                n = n + 1;
            }
            i = i + 1;
        }
        proof {
            assert(self@.fields.take(i as int) =~= self@.fields);
        }
        n
    }
}

} // verus!
