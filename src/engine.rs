//! Compression of a frame into rule identifier and residue, and
//! reconstruction of the header from them.
use vstd::prelude::*;
use crate::bits::{
    bits_of, uint_of, uint_bits, pow2, lemma_uint_of_bits, lemma_uint_bits_len,
    lemma_uint_bits_prefix, lemma_pow2_add, lemma_pow2_pos, lemma_bits_of_add,
    lemma_bits_of_subrange, unpack_bits, pack_bits, uint_to_bits, append_bits, read_uint,
};
use crate::rule::{Direction, RuleModel, FieldModel, bit_strings, applies};
use crate::recompute::{filled, recomputes, recomputes_any, fill_computed};
use crate::codec::{
    HEADER_START, SchcError, decode_walk, decode_fields, all_carried,
    lemma_walk_round_trip_computed, lemma_carried_from_zero, carried_from, lemma_residue_bound,
    lemma_elided_saves, is_elided, fixed_width,
};
use crate::ruleset::{
    RuleSet, rule_models, rules_valid, id_fits, prefix_clash, rule_walk, select_rule,
};

verus! {

/// `bytes` holds `bits`, most significant first, padded with zero bits to
/// whole octets.
pub open spec fn packs(bytes: Seq<u8>, bits: Seq<bool>) -> bool {
    &&& bytes.len() == (bits.len() + 7) / 8
    &&& bits_of(bytes).take(bits.len() as int) == bits
    &&& forall|j: int| bits.len() <= j < bytes.len() * 8 ==> !bits_of(bytes)[j]
}

/// A rule's identifier is the first bits of the input.
pub open spec fn rule_fits(r: RuleModel, input: Seq<bool>) -> bool {
    r.id_len <= input.len() && uint_of(input.take(r.id_len as int)) == r.id
}

/// Among the first `n` rules whose identifier begins the input, the one with
/// the shortest identifier (the first of those).
pub open spec fn find_rule(rs: Seq<RuleModel>, input: Seq<bool>, n: nat) -> Option<nat>
    decreases n,
{
    if n == 0 {
        None
    } else {
        let b = find_rule(rs, input, (n - 1) as nat);
        if rule_fits(rs[n - 1], input) && (b is None || rs[n - 1].id_len < rs[b->Some_0 as int].id_len) {
            Some((n - 1) as nat)
        } else {
            b
        }
    }
}

/// Reconstruction of compressed bits: the rule's index, the header bits, and
/// how many input bits the rule identifier and residue took.
pub open spec fn decompress_outcome(rs: Seq<RuleModel>, input: Seq<bool>, dir: Direction) -> Result<
    (nat, Seq<bool>, nat),
    SchcError,
> {
    match find_rule(rs, input, rs.len()) {
        None => Err(SchcError::NoMatchingRule),
        Some(i) => match decode_walk(rs[i as int].fields, dir, input, rs[i as int].id_len, rs[i as int].fields.len()) {
            Err(e) => Err(e),
            Ok((h, pos, _)) => if h.len() % 8 != 0 {
                Err(SchcError::ReconstructionFailed)
            } else {
                Ok((i, h, pos))
            },
        },
    }
}

/// The octets that follow `consumed` bits of rule identifier and residue.
pub open spec fn payload_after(data: Seq<u8>, consumed: nat) -> Seq<u8> {
    let start = (consumed + 7) / 8;
    if start <= data.len() {
        data.skip(start as int)
    } else {
        Seq::empty()
    }
}

/// The header octets `hb` with the fields that the rule recomputes filled
/// in over the datagram that they start.
pub open spec fn header_after_fill(
    fields: Seq<FieldModel>,
    dir: Direction,
    hb: Seq<u8>,
    data: Seq<u8>,
    consumed: nat,
) -> Seq<u8> {
    filled(fields, dir, hb + payload_after(data, consumed)).take(hb.len() as int)
}

/// Recomputation is impossible on a datagram of `n` octets.
pub open spec fn fill_fails(fields: Seq<FieldModel>, dir: Direction, n: nat) -> bool {
    recomputes_any(fields, dir) && (n < 28 || n > 65535)
}

/// The result of compressing a frame.
pub struct Compression {
    pub rule_index: usize,
    pub rule_id: u32,
    pub rule_id_length: u8,
    /// Rule identifier and residue, padded to whole octets.
    pub data: Vec<u8>,
    /// Bits of the IPv4, UDP and QUIC fields that the rule covers.
    pub original_header_bits: usize,
    /// Bits of rule identifier and residue.
    pub compressed_header_bits: usize,
    /// Value of each descriptor of the rule (empty where it does not apply).
    pub values: Vec<Vec<bool>>,
}

/// What compressing `frame` gives: the rule chosen, and the data, the
/// counts and the field values of the result.
pub open spec fn compressed_as(rs: Seq<RuleModel>, dir: Direction, frame: Seq<u8>, c: Compression) -> bool {
    let bits = bits_of(frame);
    &&& select_rule(rs, dir, bits) == Ok::<nat, SchcError>(c.rule_index as nat)
    &&& c.rule_index < rs.len()
    &&& {
        let rule = rs[c.rule_index as int];
        let (res, vals, end, _) = rule_walk(rule, dir, bits)->Ok_0;
        &&& rule_walk(rule, dir, bits) is Ok
        &&& c.rule_id == rule.id
        &&& c.rule_id_length == rule.id_len
        &&& packs(c.data@, uint_bits(rule.id, rule.id_len) + res)
        &&& c.original_header_bits == end - HEADER_START
        &&& c.compressed_header_bits == rule.id_len + res.len()
        &&& bit_strings(c.values@) == vals
        &&& end <= bits.len()
    }
}

/// Compresses an Ethernet frame holding IPv4, UDP and QUIC headers with the
/// preferred rule that accepts it.
pub fn compress_frame(set: &RuleSet, frame: &Vec<u8>, dir: Direction) -> (r: Result<
    Compression,
    SchcError,
>)
    requires
        set.wf(),
        frame.len() * 8 + 64 <= usize::MAX,
    ensures
        match r {
            Ok(c) => compressed_as(set@, dir, frame@, c),
            Err(e) => select_rule(set@, dir, bits_of(frame@)) == Err::<nat, SchcError>(e),
        },
{
    let bits = unpack_bits(frame);
    let sel = match set.select(dir, &bits) {
        Ok(s) => s,
        Err(e) => {
            return Err(e);
        },
    };
    let rules = set.rules();
    let rule = &rules[sel.index];
    proof {
        assert(set@[sel.index as int] == rule@);
        lemma_residue_bound(rule@.fields, dir, bits@, rule@.fields.len());
        assert(set@[sel.index as int].id_len <= 16);
    }
    let mut all = uint_to_bits(rule.rule_id as u64, rule.rule_id_length as usize);
    proof {
        lemma_uint_bits_len(rule.rule_id as nat, rule.rule_id_length as nat);
    }
    append_bits(&mut all, &sel.walked.residue);
    let data = pack_bits(&all);
    Ok(Compression {
        rule_index: sel.index,
        rule_id: rule.rule_id,
        rule_id_length: rule.rule_id_length,
        data,
        original_header_bits: sel.walked.end - HEADER_START,
        compressed_header_bits: rule.rule_id_length as usize + sel.walked.residue.len(),
        values: sel.walked.values,
    })
}

/// The result of decompressing.
pub struct Decompression {
    pub rule_index: usize,
    pub rule_id: u32,
    pub rule_id_length: u8,
    /// The IPv4, UDP and QUIC header octets.
    pub header: Vec<u8>,
    /// Bits of rule identifier and residue read from the input.
    pub bits_consumed: usize,
}

impl RuleSet {
    /// The rule whose identifier begins `input`, preferring shorter ones.
    pub fn lookup(&self, input: &Vec<bool>) -> (r: Option<usize>)
        requires
            self.wf(),
        ensures
            match r {
                Some(i) => find_rule(self@, input@, self@.len()) == Some(i as nat),
                None => find_rule(self@, input@, self@.len()) is None,
            },
    {
        let rules = self.rules();
        let ghost rs = self@;
        let mut best: Option<usize> = None;
        let mut i: usize = 0;
        while i < rules.len()
            invariant
                i <= rules.len(),
                rs == self@,
                rs == rule_models(rules@),
                rules_valid(rs),
                match best {
                    Some(b) => find_rule(rs, input@, i as nat) == Some(b as nat) && b < i,
                    None => find_rule(rs, input@, i as nat) is None,
                },
            decreases rules.len() - i,
        {
            let rule = &rules[i];
            proof {
                assert(rs[i as int] == rule@);
                assert(id_fits(rs[i as int]));
            }
            let len = rule.rule_id_length as usize;
            if len <= input.len() && read_uint(input, 0, len) == rule.rule_id as u64 {
                proof {
                    assert(input@.subrange(0, len as int) =~= input@.take(len as int));
                }
                let shorter = match best {
                    None => true,
                    Some(b) => {
                        proof {
                            assert(rs[b as int] == rules@[b as int]@);
                        }
                        rule.rule_id_length < rules[b].rule_id_length
                    },
                };
                if shorter {
                    best = Some(i);
                }
            } else {
                proof {
                    assert(input@.subrange(0, len as int) =~= input@.take(len as int));
                }
            }
            i = i + 1;
        }
        best
    }
}

/// Reconstructs the header from compressed bytes: the rule is found by the
/// leading identifier bits, and its residue follows them.
pub fn decompress_bytes(set: &RuleSet, data: &Vec<u8>, dir: Direction) -> (r: Result<
    Decompression,
    SchcError,
>)
    requires
        set.wf(),
        data.len() * 8 + 64 <= usize::MAX,
    ensures
        match r {
            Ok(d) => {
                let (i, h, c) = decompress_outcome(set@, bits_of(data@), dir)->Ok_0;
                let fields = set@[i as int].fields;
                &&& decompress_outcome(set@, bits_of(data@), dir) is Ok
                &&& d.rule_index == i
                &&& d.bits_consumed == c
                &&& d.rule_index < set@.len()
                &&& d.rule_id == set@[d.rule_index as int].id
                &&& d.rule_id_length == set@[d.rule_index as int].id_len
                &&& d.bits_consumed <= data.len() * 8
                &&& exists|hb: Seq<u8>|
                    bits_of(hb) == h && !fill_fails(
                        fields,
                        dir,
                        hb.len() + payload_after(data@, c).len(),
                    ) && d.header@ == header_after_fill(fields, dir, hb, data@, c)
            },
            Err(e) => match decompress_outcome(set@, bits_of(data@), dir) {
                Err(e2) => e == e2,
                Ok((i, h, c)) => e == SchcError::ReconstructionFailed && forall|hb: Seq<u8>|
                    bits_of(hb) == h ==> fill_fails(
                        set@[i as int].fields,
                        dir,
                        hb.len() + payload_after(data@, c).len(),
                    ),
            },
        },
{
    let input = unpack_bits(data);
    let i = match set.lookup(&input) {
        None => {
            return Err(SchcError::NoMatchingRule);
        },
        Some(i) => i,
    };
    let rules = set.rules();
    proof {
        lemma_find_rule_bound(set@, input@, set@.len());
    }
    let rule = &rules[i];
    proof {
        assert(set@[i as int] == rule@);
    }
    let start = rule.rule_id_length as usize;
    let (h, pos, _) = match decode_fields(&rule.fields, dir, &input, start) {
        Err(e) => {
            return Err(e);
        },
        Ok(x) => x,
    };
    if h.len() % 8 != 0 {
        return Err(SchcError::ReconstructionFailed);
    }
    let header = pack_bits(&h);
    proof {
        assert(bits_of(header@).len() == h.len()) by {
            assert(header.len() * 8 == h.len()) by (nonlinear_arith)
                requires
                    header.len() == (h.len() + 7) / 8,
                    h.len() % 8 == 0,
            ;
        }
        assert(bits_of(header@) =~= bits_of(header@).take(h.len() as int));
    }
    let hlen = header.len();
    let start = pos / 8 + if pos % 8 == 0 {
        0
    } else {
        1
    };
    let mut full = header;
    if start <= data.len() {
        let mut k: usize = start;
        while k < data.len()
            invariant
                start <= k <= data.len(),
                hlen <= full.len(),
                full@ == header@ + data@.subrange(start as int, k as int),
            decreases data.len() - k,
        {
            full.push(data[k]);
            proof {
                assert(full@ =~= header@ + data@.subrange(start as int, k + 1));
            }
            k = k + 1;
        }
        proof {
            assert(data@.subrange(start as int, k as int) =~= data@.skip(start as int));
        }
    } else {
        proof {
            assert(full@ =~= header@ + Seq::<u8>::empty());
        }
    }
    proof {
        assert(start == (pos + 7) / 8);
        assert(full@ == header@ + payload_after(data@, pos as nat));
    }
    let filled_dgram = match fill_computed(&rule.fields, dir, full) {
        Ok(p) => p,
        Err(e) => {
            proof {
                assert forall|hb: Seq<u8>| bits_of(hb) == h@ implies fill_fails(
                    set@[i as int].fields,
                    dir,
                    hb.len() + payload_after(data@, pos as nat).len(),
                ) by {
                    crate::bits::lemma_bits_of_injective(hb, header@);
                }
            }
            return Err(e);
        },
    };
    let out_header = copy_octets(&filled_dgram, 0, hlen);
    proof {
        assert(out_header@ =~= filled_dgram@.take(hlen as int));
    }
    proof {
        assert(out_header@ == header_after_fill(rule@.fields, dir, header@, data@, pos as nat));
        assert(bits_of(header@) == h@);
        assert(!fill_fails(rule@.fields, dir, header@.len() + payload_after(data@, pos as nat).len()));
    }
    Ok(Decompression {
        rule_index: i,
        rule_id: rule.rule_id,
        rule_id_length: rule.rule_id_length,
        header: out_header,
        bits_consumed: pos,
    })
}

pub proof fn lemma_find_rule_bound(rs: Seq<RuleModel>, input: Seq<bool>, n: nat)
    ensures
        find_rule(rs, input, n) matches Some(i) ==> i < n && rule_fits(rs[i as int], input),
    decreases n,
{
    if n > 0 {
        lemma_find_rule_bound(rs, input, (n - 1) as nat);
    }
}

} // verus!

verus! {

proof fn lemma_find_rule_unique(rs: Seq<RuleModel>, input: Seq<bool>, i: nat, n: nat)
    requires
        i < n <= rs.len(),
        rule_fits(rs[i as int], input),
        forall|j: int|
            0 <= j < n && j != i && rule_fits(#[trigger] rs[j], input) ==> rs[j].id_len
                > rs[i as int].id_len,
    ensures
        find_rule(rs, input, n) == Some(i),
    decreases n,
{
    if n - 1 == i {
        lemma_find_rule_bound(rs, input, i);
    } else {
        lemma_find_rule_unique(rs, input, i, (n - 1) as nat);
    }
}

/// The identifier bits of a rule, read back under another rule's shorter or
/// equal length, give the longer identifier shifted right.
proof fn lemma_id_prefix_value(id: nat, len: nat, k: nat)
    requires
        k <= len,
        id < pow2(len),
    ensures
        uint_of(uint_bits(id, len).take(k as int)) == id / pow2((len - k) as nat),
{
    let d = (len - k) as nat;
    lemma_uint_bits_prefix(id, len, k);
    lemma_uint_of_bits(id / pow2(d), k);
    lemma_pow2_add(d, k);
    lemma_pow2_pos(d);
    lemma_pow2_pos(k);
    assert((len - k) as nat + k == len);
    let p = pow2(d);
    let q = pow2(k);
    vstd::arithmetic::div_mod::lemma_fundamental_div_mod(id as int, p as int);
    assert(id / p < q) by (nonlinear_arith)
        requires
            id < p * q,
            p > 0,
            id == p * (id / p) + id % p,
            id % p >= 0,
    ;
    vstd::arithmetic::div_mod::lemma_small_mod(id / p, q);
}

/// Decompressing what compression produced, followed by any payload octets,
/// selects the same rule and reads exactly the rule identifier and residue;
/// the rebuilt header has the length of the compressed one and agrees with
/// it past the last recomputed field.
pub proof fn lemma_round_trip_outcome(
    rs: Seq<RuleModel>,
    dir: Direction,
    frame: Seq<u8>,
    i: nat,
    data: Seq<u8>,
    payload: Seq<u8>,
)
    requires
        rules_valid(rs),
        select_rule(rs, dir, bits_of(frame)) == Ok::<nat, SchcError>(i),
        i < rs.len(),
        rule_walk(rs[i as int], dir, bits_of(frame)) is Ok,
        packs(
            data,
            uint_bits(rs[i as int].id, rs[i as int].id_len) + rule_walk(
                rs[i as int],
                dir,
                bits_of(frame),
            )->Ok_0.0,
        ),
        (rule_walk(rs[i as int], dir, bits_of(frame))->Ok_0.2 - HEADER_START) % 8 == 0,
    ensures
        ({
            let (res, _, end, _) = rule_walk(rs[i as int], dir, bits_of(frame))->Ok_0;
            let q = carried_from(rs[i as int].fields, dir, bits_of(frame), rs[i as int].fields.len());
            let out = decompress_outcome(rs, bits_of(data + payload), dir);
            &&& HEADER_START <= end <= frame.len() * 8
            &&& q <= end - HEADER_START
            &&& out is Ok
            &&& out->Ok_0.0 == i
            &&& out->Ok_0.2 == rs[i as int].id_len + res.len()
            &&& out->Ok_0.1.len() == end - HEADER_START
            &&& out->Ok_0.1.skip(q as int) == bits_of(frame).subrange(HEADER_START + q, end as int)
        }),
{
    let bits = bits_of(frame);
    let rule = rs[i as int];
    let (res, vals, end, lay) = rule_walk(rule, dir, bits)->Ok_0;
    let len = rule.id_len;
    let idb = uint_bits(rule.id, len);
    let all = idb + res;
    let input = bits_of(data + payload);
    assert(id_fits(rs[i as int]));
    lemma_uint_bits_len(rule.id, len);
    lemma_bits_of_add(data, payload);
    assert(all.len() <= data.len() * 8);
    assert(input.take(all.len() as int) =~= all);
    assert(input.take(len as int) =~= idb);
    lemma_uint_of_bits(rule.id, len);
    vstd::arithmetic::div_mod::lemma_small_mod(rule.id, pow2(len));
    assert(rule_fits(rule, input));
    assert forall|j: int|
        0 <= j < rs.len() && j != i && rule_fits(#[trigger] rs[j], input) implies rs[j].id_len
        > len by {
        if rs[j].id_len <= len {
            let k = rs[j].id_len;
            assert(input.take(k as int) =~= idb.take(k as int));
            lemma_id_prefix_value(rule.id, len, k);
            assert(prefix_clash(rs[j], rs[i as int]));
        }
    }
    lemma_find_rule_unique(rs, input, i, rs.len());
    assert(bits.len() >= HEADER_START);
    assert forall|k: int| 0 <= k < res.len() implies input[len + k] == res[k] by {
        assert(input.take(all.len() as int)[len + k] == all[len + k]);
    }
    assert(input.subrange(len as int, (len + res.len()) as int) =~= res);
    lemma_walk_round_trip_computed(rule.fields, dir, bits, input, len, rule.fields.len());
}

/// Decompressing what compression produced, followed by any payload octets,
/// selects the same rule, reconstructs the compressed header octets of the
/// frame exactly, and reads exactly the rule identifier and residue.
///
/// This holds for rules whose fields are all carried in the residue or
/// elided, and whose fields cover whole octets.
pub proof fn law_round_trip(
    rs: Seq<RuleModel>,
    dir: Direction,
    frame: Seq<u8>,
    i: nat,
    data: Seq<u8>,
    payload: Seq<u8>,
)
    requires
        rules_valid(rs),
        select_rule(rs, dir, bits_of(frame)) == Ok::<nat, SchcError>(i),
        i < rs.len(),
        rule_walk(rs[i as int], dir, bits_of(frame)) is Ok,
        packs(
            data,
            uint_bits(rs[i as int].id, rs[i as int].id_len) + rule_walk(
                rs[i as int],
                dir,
                bits_of(frame),
            )->Ok_0.0,
        ),
        all_carried(rs[i as int].fields),
        (rule_walk(rs[i as int], dir, bits_of(frame))->Ok_0.2 - HEADER_START) % 8 == 0,
    ensures
        ({
            let (res, _, end, _) = rule_walk(rs[i as int], dir, bits_of(frame))->Ok_0;
            &&& end <= frame.len() * 8
            &&& decompress_outcome(rs, bits_of(data + payload), dir) == Ok::<
                (nat, Seq<bool>, nat),
                SchcError,
            >((i, bits_of(frame.subrange(14, (end / 8) as int)), rs[i as int].id_len + res.len()))
        }),
{
    let rule = rs[i as int];
    let (res, vals, end, lay) = rule_walk(rule, dir, bits_of(frame))->Ok_0;
    lemma_round_trip_outcome(rs, dir, frame, i, data, payload);
    lemma_carried_from_zero(rule.fields, dir, bits_of(frame), rule.fields.len());
    let h = decompress_outcome(rs, bits_of(data + payload), dir)->Ok_0.1;
    assert(h.skip(0) =~= h);
    let hb = ((end - HEADER_START) / 8) as nat;
    assert(end == 8 * (14 + hb));
    assert(end / 8 == 14 + hb);
    lemma_bits_of_subrange(frame, 14, (14 + hb) as int);
}

} // verus!

verus! {

/// Compression never lengthens the header when the chosen rule elides a
/// field of fixed width at least as wide as the rule identifier: the
/// compressed bits (identifier and residue) are at most the header bits.
pub proof fn law_header_budget(rs: Seq<RuleModel>, dir: Direction, frame: Seq<u8>, c: Compression, j: nat)
    requires
        compressed_as(rs, dir, frame, c),
        j < rs[c.rule_index as int].fields.len(),
        applies(rs[c.rule_index as int].fields[j as int].dir, dir),
        is_elided(rs[c.rule_index as int].fields[j as int].cda),
        fixed_width(rs[c.rule_index as int].fields[j as int].fid) >= c.rule_id_length,
        fixed_width(rs[c.rule_index as int].fields[j as int].fid) > 0,
    ensures
        c.compressed_header_bits <= c.original_header_bits,
{
    let rule = rs[c.rule_index as int];
    lemma_elided_saves(rule.fields, dir, bits_of(frame), rule.fields.len(), j);
}

} // verus!

verus! {

/// A copy of `s[lo..hi]`.
pub fn copy_octets(s: &Vec<u8>, lo: usize, hi: usize) -> (r: Vec<u8>)
    requires
        lo <= hi <= s.len(),
    ensures
        r@ == s@.subrange(lo as int, hi as int),
{
    let mut r: Vec<u8> = Vec::new();
    let mut i: usize = lo;
    while i < hi
        invariant
            lo <= i <= hi <= s.len(),
            r@ == s@.subrange(lo as int, i as int),
        decreases hi - i,
    {
        r.push(s[i]);
        proof {
            assert(r@ =~= s@.subrange(lo as int, i + 1));
        }
        i = i + 1;
    }
    r
}

} // verus!

verus! {

/// Padded packing is unique: two octet strings that pack the same bits are
/// equal.
pub proof fn lemma_packs_unique(a: Seq<u8>, b: Seq<u8>, bits: Seq<bool>)
    requires
        packs(a, bits),
        packs(b, bits),
    ensures
        a == b,
{
    assert(bits_of(a).len() == bits_of(b).len());
    assert forall|j: int| 0 <= j < bits_of(a).len() implies bits_of(a)[j] == bits_of(b)[j] by {
        if j < bits.len() {
            assert(bits_of(a).take(bits.len() as int)[j] == bits_of(b).take(bits.len() as int)[j]);
        }
    }
    assert(bits_of(a) =~= bits_of(b));
    crate::bits::lemma_bits_of_injective(a, b);
}

} // verus!
