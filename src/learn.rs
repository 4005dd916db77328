//! Dynamic rules: connection ids seen in QUIC long headers are pinned into
//! copies of the rule that matched, under identifiers from a reserved pool.
use vstd::prelude::*;
use crate::bits::{slice_bits, bits_equal};
use crate::rule::{
    FieldId, Direction, MatchOp, MatchOpModel, Action, FieldDesc, FieldModel, Rule, RuleModel,
    applies, applies_to, field_models, bit_strings, specificity,
};
use crate::codec::{HEADER_START, SchcError, encode_walk, field_width};
use crate::ruleset::{
    rule_walk, select_rule, outranks, law_select_fails_only_without_match,
    law_selected_rule_is_best, rules_valid, replaced, same_key,
};
use crate::tree::lemma_outranks_total;

verus! {

pub open spec fn is_cid_field(fid: FieldId) -> bool {
    fid == FieldId::QuicDcidLen || fid == FieldId::QuicDcid || fid == FieldId::QuicScidLen || fid
        == FieldId::QuicScid
}

/// A descriptor with the observed value pinned: connection id fields that
/// apply become `equal` to the value and are not sent.
pub open spec fn pinned_field(fd: FieldModel, v: Seq<bool>, dir: Direction) -> FieldModel {
    if applies(fd.dir, dir) && is_cid_field(fd.fid) {
        FieldModel { target: v, mo: MatchOpModel::Equal, cda: Action::NotSent, ..fd }
    } else {
        fd
    }
}

pub open spec fn pinned_fields(fields: Seq<FieldModel>, vals: Seq<Seq<bool>>, dir: Direction) -> Seq<
    FieldModel,
> {
    Seq::new(fields.len(), |j: int| pinned_field(fields[j], vals[j], dir))
}

/// The values of the connection id fields agree with `vals`.
pub open spec fn same_cids(fields: Seq<FieldModel>, dir: Direction, a: Seq<Seq<bool>>, b: Seq<Seq<bool>>) -> bool {
    forall|j: int|
        0 <= j < fields.len() && applies(fields[j].dir, dir) && is_cid_field(#[trigger] fields[j].fid)
            ==> a[j] == b[j]
}

/// Walking the pinned copy of a rule over a frame goes step by step as
/// walking the rule itself, wherever the connection ids are those pinned.
pub proof fn lemma_pinned_walk(
    fields: Seq<FieldModel>,
    vals: Seq<Seq<bool>>,
    dir: Direction,
    frame: Seq<bool>,
    n: nat,
)
    requires
        n <= fields.len(),
        vals.len() == fields.len(),
        encode_walk(fields, dir, frame, n) is Ok,
        same_cids(
            fields.take(n as int),
            dir,
            encode_walk(fields, dir, frame, n)->Ok_0.1,
            vals,
        ),
    ensures
        encode_walk(pinned_fields(fields, vals, dir), dir, frame, n) is Ok,
        encode_walk(pinned_fields(fields, vals, dir), dir, frame, n)->Ok_0.1 == encode_walk(
            fields,
            dir,
            frame,
            n,
        )->Ok_0.1,
        encode_walk(pinned_fields(fields, vals, dir), dir, frame, n)->Ok_0.2 == encode_walk(
            fields,
            dir,
            frame,
            n,
        )->Ok_0.2,
        encode_walk(pinned_fields(fields, vals, dir), dir, frame, n)->Ok_0.3 == encode_walk(
            fields,
            dir,
            frame,
            n,
        )->Ok_0.3,
    decreases n,
{
    if n > 0 {
        let m = (n - 1) as nat;
        let pf = pinned_fields(fields, vals, dir);
        let vq = encode_walk(fields, dir, frame, n)->Ok_0.1;
        let vq0 = encode_walk(fields, dir, frame, m)->Ok_0.1;
        crate::codec::lemma_walk_accepts(fields, dir, frame, m);
        crate::codec::lemma_walk_accepts(fields, dir, frame, n);
        assert(vq.take(m as int) =~= vq0);
        assert(same_cids(fields.take(m as int), dir, vq0, vals)) by {
            assert forall|j: int|
                0 <= j < m && applies(fields.take(m as int)[j].dir, dir) && is_cid_field(
                    #[trigger] fields.take(m as int)[j].fid,
                ) implies vq0[j] == vals[j] by {
                assert(fields.take(n as int)[j] == fields[j]);
                assert(vq[j] == vq0[j]);
            }
        }
        lemma_pinned_walk(fields, vals, dir, frame, m);
        let fd = fields[m as int];
        assert(pf[m as int] == pinned_field(fd, vals[m as int], dir));
        if applies(fd.dir, dir) && is_cid_field(fd.fid) {
            assert(fields.take(n as int)[m as int] == fd);
            let (res0, vals0, pos0, lay0) = encode_walk(fields, dir, frame, m)->Ok_0;
            let w = field_width(fd, lay0)->Ok_0;
            let v = frame.subrange(pos0 as int, (pos0 + w) as int);
            assert(vq == vals0.push(v));
            assert(vq[m as int] == v);
            assert(vals[m as int] == v);
        }
    }
}

/// The pinned copy has no fewer descriptors other than `ignore`.
pub proof fn lemma_pinned_specificity(fields: Seq<FieldModel>, vals: Seq<Seq<bool>>, dir: Direction)
    ensures
        specificity(pinned_fields(fields, vals, dir), dir) >= specificity(fields, dir),
    decreases fields.len(),
{
    if fields.len() > 0 {
        let m = fields.len() - 1;
        let f0 = fields.drop_last();
        lemma_pinned_specificity(f0, vals, dir);
        assert(pinned_fields(fields, vals, dir).drop_last() =~= pinned_fields(f0, vals, dir));
    }
}

} // verus!

verus! {

fn copy_bit_strings(m: &Vec<Vec<bool>>) -> (r: Vec<Vec<bool>>)
    ensures
        bit_strings(r@) == bit_strings(m@),
{
    let mut r: Vec<Vec<bool>> = Vec::new();
    let mut i: usize = 0;
    while i < m.len()
        invariant
            i <= m.len(),
            bit_strings(r@) == bit_strings(m@).take(i as int),
        decreases m.len() - i,
    {
        let v = slice_bits(&m[i], 0, m[i].len());
        proof {
            assert(v@ =~= m@[i as int]@);
        }
        let ghost prev = r@;
        r.push(v);
        proof {
            assert(bit_strings(r@) =~= bit_strings(prev).push(v@));
            assert(bit_strings(m@).take(i + 1) =~= bit_strings(m@).take(i as int).push(
                m@[i as int]@,
            ));
        }
        i = i + 1;
    }
    proof {
        assert(bit_strings(m@).take(i as int) =~= bit_strings(m@));
    }
    r
}

fn copy_op(mo: &MatchOp) -> (r: MatchOp)
    ensures
        r@ == mo@,
{
    match mo {
        MatchOp::Equal => MatchOp::Equal,
        MatchOp::Ignore => MatchOp::Ignore,
        MatchOp::Msb(k) => MatchOp::Msb(*k),
        MatchOp::MatchMapping(m) => MatchOp::MatchMapping(copy_bit_strings(m)),
    }
}

/// A copy of a descriptor.
pub fn copy_desc(fd: &FieldDesc) -> (r: FieldDesc)
    ensures
        r@ == fd@,
{
    let t = slice_bits(&fd.target, 0, fd.target.len());
    proof {
        assert(t@ =~= fd.target@);
    }
    FieldDesc { fid: fd.fid, dir: fd.dir, target: t, mo: copy_op(&fd.mo), cda: fd.cda }
}

/// The copy of `base` under identifier `rule_id` of `rule_id_length` bits,
/// with the connection id fields that apply to `dir` pinned to `values`.
pub fn pin_rule(base: &Rule, values: &Vec<Vec<bool>>, dir: Direction, rule_id: u32, rule_id_length: u8) -> (r: Rule)
    requires
        values.len() == base.fields.len(),
    ensures
        r@ == (RuleModel {
            id: rule_id as nat,
            id_len: rule_id_length as nat,
            fields: pinned_fields(base@.fields, bit_strings(values@), dir),
        }),
{
    let ghost vals = bit_strings(values@);
    let ghost target = pinned_fields(base@.fields, vals, dir);
    let mut fields: Vec<FieldDesc> = Vec::new();
    let mut i: usize = 0;
    while i < base.fields.len()
        invariant
            i <= base.fields.len(),
            values.len() == base.fields.len(),
            vals == bit_strings(values@),
            target == pinned_fields(base@.fields, vals, dir),
            field_models(fields@) == target.take(i as int),
        decreases base.fields.len() - i,
    {
        let fd = &base.fields[i];
        let cid = match fd.fid {
            FieldId::QuicDcidLen | FieldId::QuicDcid | FieldId::QuicScidLen | FieldId::QuicScid => true,
            _ => false,
        };
        let nd = if applies_to(fd.dir, dir) && cid {
            let t = slice_bits(&values[i], 0, values[i].len());
            proof {
                assert(t@ =~= values@[i as int]@);
            }
            FieldDesc { fid: fd.fid, dir: fd.dir, target: t, mo: MatchOp::Equal, cda: Action::NotSent }
        } else {
            copy_desc(fd)
        };
        proof {
            assert(base@.fields[i as int] == fd@);
            assert(vals[i as int] == values@[i as int]@);
            assert(nd@ == target[i as int]);
        }
        let ghost prev = fields@;
        fields.push(nd);
        proof {
            assert(field_models(fields@) =~= field_models(prev).push(nd@));
            assert(target.take(i + 1) =~= target.take(i as int).push(target[i as int]));
        }
        i = i + 1;
    }
    proof {
        assert(target.take(i as int) =~= target);
    }
    Rule { rule_id, rule_id_length, fields, comment: None }
}

/// The first descriptor that applies to `dir` and describes field `fid`.
pub open spec fn first_field(fields: Seq<FieldModel>, dir: Direction, fid: FieldId, n: nat) -> Option<nat>
    decreases n,
{
    if n == 0 {
        None
    } else {
        match first_field(fields, dir, fid, (n - 1) as nat) {
            Some(j) => Some(j),
            None => if fields[n - 1].fid == fid && applies(fields[n - 1].dir, dir) {
                Some((n - 1) as nat)
            } else {
                None
            },
        }
    }
}

proof fn lemma_first_field_stable(fields: Seq<FieldModel>, dir: Direction, fid: FieldId, n: nat, k: nat)
    requires
        n <= k,
    ensures
        first_field(fields, dir, fid, n) is Some ==> first_field(fields, dir, fid, k) == first_field(fields, dir, fid, n),
    decreases k - n,
{
    if n < k {
        lemma_first_field_stable(fields, dir, fid, n, (k - 1) as nat);
    }
}

fn find_field(fields: &Vec<FieldDesc>, dir: Direction, fid: FieldId) -> (r: Option<usize>)
    ensures
        match r {
            Some(j) => first_field(field_models(fields@), dir, fid, fields.len() as nat) == Some(j as nat) && j < fields.len(),
            None => first_field(field_models(fields@), dir, fid, fields.len() as nat) is None,
        },
{
    let ghost fm = field_models(fields@);
    let mut i: usize = 0;
    while i < fields.len()
        invariant
            i <= fields.len(),
            fm == field_models(fields@),
            first_field(fm, dir, fid, i as nat) is None,
        decreases fields.len() - i,
    {
        proof {
            assert(fm[i as int] == fields@[i as int]@);
        }
        if fields[i].fid == fid && applies_to(fields[i].dir, dir) {
            proof {
                lemma_first_field_stable(fm, dir, fid, (i + 1) as nat, fields.len() as nat);
            }
            return Some(i);
        }
        i = i + 1;
    }
    None
}

/// A pair of connection ids that received a dynamic rule.
pub struct LearnedPair {
    pub dcid: Vec<bool>,
    pub scid: Vec<bool>,
    pub rule_id: u32,
}

/// The connection ids that received dynamic rules, and the pool of
/// identifiers still free.
pub struct QuicSession {
    first_id: u32,
    last_id: u32,
    id_len: u8,
    next_id: u64,
    pairs: Vec<LearnedPair>,
}

pub open spec fn pair_known(pairs: Seq<LearnedPair>, d: Seq<bool>, s: Seq<bool>) -> bool {
    exists|k: int| 0 <= k < pairs.len() && (#[trigger] pairs[k]).dcid@ == d && pairs[k].scid@ == s
}

/// The connection ids that a walk of `fields` saw, where it has both.
pub open spec fn observed_cids(fields: Seq<FieldModel>, vals: Seq<Seq<bool>>, dir: Direction) -> Option<
    (Seq<bool>, Seq<bool>),
> {
    match (
        first_field(fields, dir, FieldId::QuicDcid, fields.len()),
        first_field(fields, dir, FieldId::QuicScid, fields.len()),
    ) {
        (Some(d), Some(s)) => Some((vals[d as int], vals[s as int])),
        _ => None,
    }
}

/// The copy of `base` pinned to `vals` under identifier `id` of `len` bits.
pub open spec fn pinned_rule(base: RuleModel, vals: Seq<Seq<bool>>, dir: Direction, id: nat, len: nat) -> RuleModel {
    RuleModel { id, id_len: len, fields: pinned_fields(base.fields, vals, dir) }
}

impl QuicSession {
    /// The identifier the next dynamic rule receives.
    pub closed spec fn next_id(&self) -> nat {
        self.next_id as nat
    }

    pub closed spec fn first_id(&self) -> nat {
        self.first_id as nat
    }

    pub closed spec fn last_id(&self) -> nat {
        self.last_id as nat
    }

    pub closed spec fn id_len(&self) -> nat {
        self.id_len as nat
    }

    /// The connection id pairs that received a rule, in order.
    pub closed spec fn pairs(&self) -> Seq<LearnedPair> {
        self.pairs@
    }

    pub closed spec fn wf(&self) -> bool {
        &&& self.first_id <= self.next_id <= self.last_id as nat + 1
        &&& self.pairs@.len() == self.next_id - self.first_id
    }

    /// Whether a packet with the descriptor values `vals` of `base` shows a
    /// connection id pair not seen before while an identifier is free.
    pub open spec fn learns(&self, base: RuleModel, vals: Seq<Seq<bool>>, dir: Direction) -> bool {
        &&& observed_cids(base.fields, vals, dir) is Some
        &&& !pair_known(
            self.pairs(),
            observed_cids(base.fields, vals, dir)->Some_0.0,
            observed_cids(base.fields, vals, dir)->Some_0.1,
        )
        &&& self.next_id() <= self.last_id()
    }

    /// A session that hands out identifiers `first_id..=last_id` of
    /// `id_len` bits.
    pub fn new(first_id: u32, last_id: u32, id_len: u8) -> (r: QuicSession)
        requires
            first_id <= last_id,
        ensures
            r.wf(),
            r.next_id() == first_id,
            r.first_id() == first_id,
            r.last_id() == last_id,
            r.id_len() == id_len,
            r.pairs().len() == 0,
    {
        QuicSession { first_id, last_id, id_len, next_id: first_id as u64, pairs: Vec::new() }
    }

    /// Number of rule set changes made so far: one per learned pair.
    pub fn current_generation(&self) -> (r: u64)
        requires
            self.wf(),
        ensures
            r == self.next_id() - self.first_id(),
    {
        self.next_id - self.first_id as u64
    }

    /// Number of connection id pairs that received a rule.
    pub fn learned_count(&self) -> (r: usize)
        ensures
            r == self.pairs().len(),
    {
        self.pairs.len()
    }

    /// The positions of the connection ids in `values` where they form a
    /// pair not seen before.
    fn new_pair(&self, base: &Rule, values: &Vec<Vec<bool>>, dir: Direction) -> (r: Option<(usize, usize)>)
        requires
            values.len() == base.fields.len(),
        ensures
            match r {
                Some((d, s)) => d < values.len() && s < values.len() && observed_cids(
                    base@.fields,
                    bit_strings(values@),
                    dir,
                ) == Some((values@[d as int]@, values@[s as int]@)) && !pair_known(
                    self.pairs(),
                    values@[d as int]@,
                    values@[s as int]@,
                ),
                None => observed_cids(base@.fields, bit_strings(values@), dir) matches Some((dd, ss))
                    ==> pair_known(self.pairs(), dd, ss),
            },
    {
        let d = match find_field(&base.fields, dir, FieldId::QuicDcid) {
            Some(d) => d,
            None => {
                return None;
            },
        };
        let s = match find_field(&base.fields, dir, FieldId::QuicScid) {
            Some(s) => s,
            None => {
                return None;
            },
        };
        proof {
            assert(bit_strings(values@)[d as int] == values@[d as int]@);
            assert(bit_strings(values@)[s as int] == values@[s as int]@);
        }
        let mut k: usize = 0;
        while k < self.pairs.len()
            invariant
                k <= self.pairs.len(),
                d < values.len(),
                s < values.len(),
                observed_cids(base@.fields, bit_strings(values@), dir) == Some((values@[d as int]@, values@[s as int]@)),
                forall|kk: int|
                    0 <= kk < k ==> !((#[trigger] self.pairs@[kk]).dcid@ == values@[d as int]@
                        && self.pairs@[kk].scid@ == values@[s as int]@),
            decreases self.pairs.len() - k,
        {
            if bits_equal(&self.pairs[k].dcid, &values[d]) && bits_equal(&self.pairs[k].scid, &values[s]) {
                proof {
                    assert(self.pairs@[k as int].dcid@ == values@[d as int]@);
                    assert(pair_known(self.pairs(), values@[d as int]@, values@[s as int]@));
                }
                return None;
            }
            k = k + 1;
        }
        Some((d, s))
    }

    /// The dynamic rule a packet with the descriptor values `values` of
    /// `base` calls for: the copy of `base` with its connection id fields
    /// pinned, under the next free identifier, where the packet shows a pair
    /// not seen before and an identifier is free. Nothing is recorded.
    pub fn propose(&self, base: &Rule, values: &Vec<Vec<bool>>, dir: Direction) -> (r: Option<Rule>)
        requires
            self.wf(),
            values.len() == base.fields.len(),
        ensures
            r is Some <==> self.learns(base@, bit_strings(values@), dir),
            r matches Some(rule) ==> rule@ == pinned_rule(
                base@,
                bit_strings(values@),
                dir,
                self.next_id(),
                self.id_len(),
            ),
    {
        match self.new_pair(base, values, dir) {
            None => None,
            Some(_) => {
                if self.next_id > self.last_id as u64 {
                    None
                } else {
                    Some(pin_rule(base, values, dir, self.next_id as u32, self.id_len))
                }
            },
        }
    }

    /// Records the connection id pair of a packet that `learns` from, under
    /// the next free identifier, and uses that identifier up.
    pub fn commit(&mut self, base: &Rule, values: &Vec<Vec<bool>>, dir: Direction)
        requires
            old(self).wf(),
            values.len() == base.fields.len(),
            old(self).learns(base@, bit_strings(values@), dir),
        ensures
            final(self).wf(),
            final(self).first_id() == old(self).first_id(),
            final(self).last_id() == old(self).last_id(),
            final(self).id_len() == old(self).id_len(),
            final(self).next_id() == old(self).next_id() + 1,
            final(self).pairs().len() == old(self).pairs().len() + 1,
            final(self).pairs().take(old(self).pairs().len() as int) == old(self).pairs(),
            final(self).pairs().last().rule_id == old(self).next_id(),
            pair_known(
                final(self).pairs(),
                observed_cids(base@.fields, bit_strings(values@), dir)->Some_0.0,
                observed_cids(base@.fields, bit_strings(values@), dir)->Some_0.1,
            ),
    {
        let (d, s) = match self.new_pair(base, values, dir) {
            Some(p) => p,
            None => {
                return;
            },
        };
        let id = self.next_id as u32;
        let dcid = slice_bits(&values[d], 0, values[d].len());
        let scid = slice_bits(&values[s], 0, values[s].len());
        proof {
            assert(dcid@ =~= values@[d as int]@);
            assert(scid@ =~= values@[s as int]@);
        }
        let ghost before = self.pairs@;
        self.pairs.push(LearnedPair { dcid, scid, rule_id: id });
        proof {
            let n = self.pairs@.len() - 1;
            assert(self.pairs@[n].dcid@ == values@[d as int]@);
            assert(self.pairs@.take(before.len() as int) =~= before);
        }
        self.next_id = self.next_id + 1;
    }
}

} // verus!

verus! {

/// Once the pinned copy of a base rule stands in a rule set, every frame
/// that the base rule accepts with the same connection ids is accepted by
/// the copy, so compression of the frame succeeds; it selects the copy
/// unless a rule preferred to it accepts the frame too. The copy is at least
/// as specific as the base rule.
pub proof fn law_dynamic_rule_applies(
    rs: Seq<RuleModel>,
    k: int,
    base: RuleModel,
    vals: Seq<Seq<bool>>,
    dir: Direction,
    frame: Seq<bool>,
)
    requires
        0 <= k < rs.len(),
        rs[k].fields == pinned_fields(base.fields, vals, dir),
        vals.len() == base.fields.len(),
        frame.len() >= HEADER_START,
        rule_walk(base, dir, frame) is Ok,
        same_cids(base.fields, dir, rule_walk(base, dir, frame)->Ok_0.1, vals),
    ensures
        rule_walk(rs[k], dir, frame) is Ok,
        select_rule(rs, dir, frame) is Ok,
        select_rule(rs, dir, frame)->Ok_0 == k || !outranks(
            rs[k],
            rs[select_rule(rs, dir, frame)->Ok_0 as int],
            dir,
        ),
        specificity(rs[k].fields, dir) >= specificity(base.fields, dir),
{
    let n = base.fields.len();
    assert(base.fields.take(n as int) =~= base.fields);
    lemma_pinned_walk(base.fields, vals, dir, frame, n);
    lemma_pinned_specificity(base.fields, vals, dir);
    assert(pinned_fields(base.fields, vals, dir).len() == n);
    if select_rule(rs, dir, frame) is Err {
        law_select_fails_only_without_match(rs, dir, frame);
        assert(rule_walk(rs[k], dir, frame) is Err);
    }
    law_selected_rule_is_best(rs, dir, frame);
}

} // verus!

verus! {

/// Some connection id field that applies to `dir` is left open (`ignore`).
pub open spec fn has_open_cid(fields: Seq<FieldModel>, dir: Direction) -> bool {
    exists|j: int|
        0 <= j < fields.len() && applies((#[trigger] fields[j]).dir, dir) && is_cid_field(
            fields[j].fid,
        ) && fields[j].mo is Ignore
}

/// Pinning an open connection id field makes the copy strictly more
/// specific than the base rule.
pub proof fn lemma_pinned_specificity_strict(fields: Seq<FieldModel>, vals: Seq<Seq<bool>>, dir: Direction)
    requires
        has_open_cid(fields, dir),
    ensures
        specificity(pinned_fields(fields, vals, dir), dir) > specificity(fields, dir),
    decreases fields.len(),
{
    let f0 = fields.drop_last();
    assert(pinned_fields(fields, vals, dir).drop_last() =~= pinned_fields(f0, vals, dir));
    let j = choose|j: int|
        0 <= j < fields.len() && applies((#[trigger] fields[j]).dir, dir) && is_cid_field(
            fields[j].fid,
        ) && fields[j].mo is Ignore;
    if j == fields.len() - 1 {
        lemma_pinned_specificity(f0, vals, dir);
    } else {
        assert(f0[j] == fields[j]);
        lemma_pinned_specificity_strict(f0, vals, dir);
    }
}

/// When the base rule is the one a frame is compressed with and leaves a
/// connection id open, then once its copy pinned to the frame's connection
/// ids is installed, the frame is compressed with the copy.
pub proof fn law_dynamic_rule_wins(
    before: Seq<RuleModel>,
    after: Seq<RuleModel>,
    b: int,
    dynr: RuleModel,
    vals: Seq<Seq<bool>>,
    dir: Direction,
    frame: Seq<bool>,
)
    requires
        rules_valid(before),
        rules_valid(after),
        0 <= b < before.len(),
        select_rule(before, dir, frame) == Ok::<nat, SchcError>(b as nat),
        dynr.fields == pinned_fields(before[b].fields, vals, dir),
        vals.len() == before[b].fields.len(),
        replaced(before, dynr, after),
        same_cids(before[b].fields, dir, rule_walk(before[b], dir, frame)->Ok_0.1, vals),
        has_open_cid(before[b].fields, dir),
    ensures
        select_rule(after, dir, frame) == Ok::<nat, SchcError>((after.len() - 1) as nat),
{
    law_selected_rule_is_best(before, dir, frame);
    let base = before[b];
    let k = after.len() - 1;
    assert(after[k] == dynr);
    let n = base.fields.len();
    assert(base.fields.take(n as int) =~= base.fields);
    lemma_pinned_walk(base.fields, vals, dir, frame, n);
    lemma_pinned_specificity(base.fields, vals, dir);
    lemma_pinned_specificity_strict(base.fields, vals, dir);
    assert(rule_walk(dynr, dir, frame) is Ok);
    assert forall|j: int| 0 <= j < k && rule_walk(#[trigger] after[j], dir, frame) is Ok implies outranks(
        dynr,
        after[j],
        dir,
    ) by {
        let oj: int = if exists|i: int|
            0 <= i < before.len() && same_key(#[trigger] before[i], dynr) && after == before.remove(
                i,
            ).push(dynr) {
            let i = choose|i: int|
                0 <= i < before.len() && same_key(#[trigger] before[i], dynr) && after
                    == before.remove(i).push(dynr);
            if j < i {
                j
            } else {
                j + 1
            }
        } else {
            j
        };
        assert(0 <= oj < before.len() && after[j] == before[oj]);
        if oj != b {
            lemma_outranks_total(before, oj, b, dir);
        }
    }
    assert(frame.len() >= HEADER_START);
    if select_rule(after, dir, frame) is Err {
        law_select_fails_only_without_match(after, dir, frame);
        assert(rule_walk(after[k], dir, frame) is Err);
    }
    law_selected_rule_is_best(after, dir, frame);
    let i = select_rule(after, dir, frame)->Ok_0 as int;
    if i != k {
        assert(outranks(dynr, after[i], dir));
    }
}

} // verus!
