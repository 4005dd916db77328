//! The compressor that a network node runs: frames each QUIC datagram,
//! compresses it with the rule set, learns dynamic rules from handshake
//! connection ids, reconstructs received datagrams, and counts.
use vstd::prelude::*;
use crate::bits::{bits_of, uint_bits, pow2};
use crate::rule::{Direction, RuleModel};
use crate::codec::{HEADER_START, SchcError, carried_from};
use crate::ruleset::{
    RuleSet, rule_walk, select_rule, rules_valid, rule_models, can_install, same_key, prefix_clash,
    prefix_clash_exec,
};
use crate::rule::Rule;
use crate::engine::{
    compress_frame, decompress_bytes, decompress_outcome, packs, lemma_round_trip_outcome,
    header_after_fill, fill_fails, payload_after,
};
use crate::learn::{QuicSession, LearnedPair, pinned_rule, observed_cids, pair_known};
use crate::frame::{Endpoint, MAX_QUIC_PAYLOAD, build_synthetic_packet, synthetic_frame};

verus! {

/// Counters of a compressor.
pub struct SchcCompressorStats {
    pub packets_compressed: usize,
    pub packets_decompressed: usize,
    pub compression_failures: usize,
    pub decompression_failures: usize,
    /// Total original header bits (IPv4, UDP and QUIC headers).
    pub total_original_header_bits: usize,
    /// Total compressed header bits.
    pub total_compressed_header_bits: usize,
}

impl SchcCompressorStats {
    pub fn new() -> (r: SchcCompressorStats)
        ensures
            r.packets_compressed == 0 && r.packets_decompressed == 0 && r.compression_failures == 0
                && r.decompression_failures == 0 && r.total_original_header_bits == 0
                && r.total_compressed_header_bits == 0,
    {
        SchcCompressorStats {
            packets_compressed: 0,
            packets_decompressed: 0,
            compression_failures: 0,
            decompression_failures: 0,
            total_original_header_bits: 0,
            total_compressed_header_bits: 0,
        }
    }

    /// Header bits saved in total (zero where compression lost bits).
    pub fn saved_bits(&self) -> (r: usize)
        ensures
            r == self.total_original_header_bits.saturating_sub(self.total_compressed_header_bits),
    {
        self.total_original_header_bits.saturating_sub(self.total_compressed_header_bits)
    }
}

/// Result of compressing a packet.
pub struct CompressResult {
    /// Rule identifier and residue, then the datagram past its headers; the
    /// datagram itself where compression failed.
    pub compressed_packet: Vec<u8>,
    /// Octets of the IPv4, UDP and QUIC headers compressed.
    pub original_header_size: usize,
    /// Octets of rule identifier and residue.
    pub compressed_header_size: usize,
    pub rule_id: u32,
    pub success: bool,
}

/// Result of decompressing a packet.
pub struct DecompressResult {
    /// The reconstructed QUIC datagram.
    pub decompressed_packet: Vec<u8>,
    pub rule_id: u32,
}

pub open spec fn direction_of(is_outgoing: bool) -> Direction {
    if is_outgoing {
        Direction::Up
    } else {
        Direction::Down
    }
}

/// Octets of IPv4 and UDP header in a frame's compressed header.
pub const IP_UDP_HEADER_BYTES: usize = 28;

/// Where the application payload starts in the datagram, given the bits of
/// header compressed: past the QUIC header, and never past the datagram.
pub open spec fn app_payload_start(original_bits: nat, len: nat) -> nat {
    let hdr = (original_bits + 7) / 8;
    let q: nat = if hdr >= 28 {
        (hdr - 28) as nat
    } else {
        0
    };
    if q <= len {
        q
    } else {
        len
    }
}

/// The packet that compressing a datagram gives: a success by rule `i`
/// whose data is rule identifier and residue, followed by the application
/// payload of the datagram.
pub open spec fn compressed_by(
    rs: Seq<RuleModel>,
    dir: Direction,
    quic: Seq<u8>,
    src: Endpoint,
    dst: Endpoint,
    i: nat,
    r: CompressResult,
) -> bool {
    let bits = bits_of(synthetic_frame(quic, src, dst));
    let rule = rs[i as int];
    let (res, _, end, _) = rule_walk(rule, dir, bits)->Ok_0;
    let n = rule.id_len + res.len();
    let nb = (n + 7) / 8;
    &&& i < rs.len()
    &&& rule_walk(rule, dir, bits) is Ok
    &&& r.success
    &&& r.rule_id == rule.id
    &&& nb <= r.compressed_packet@.len()
    &&& packs(r.compressed_packet@.take(nb as int), uint_bits(rule.id, rule.id_len) + res)
    &&& r.compressed_packet@.skip(nb as int) == quic.skip(
        app_payload_start((end - HEADER_START) as nat, quic.len()) as int,
    )
    &&& r.original_header_size == (end - HEADER_START + 7) / 8
    &&& r.compressed_header_size == nb
}

/// What compressing a datagram gives: the compressed packet by the rule
/// that `select_rule` picks, or the datagram itself where none applies.
pub open spec fn compress_outcome(
    rs: Seq<RuleModel>,
    dir: Direction,
    quic: Seq<u8>,
    src: Endpoint,
    dst: Endpoint,
    r: CompressResult,
) -> bool {
    match select_rule(rs, dir, bits_of(synthetic_frame(quic, src, dst))) {
        Ok(i) => compressed_by(rs, dir, quic, src, dst, i, r),
        Err(_) => !r.success && r.compressed_packet@ == quic && r.original_header_size == 0
            && r.compressed_header_size == 0 && r.rule_id == 0,
    }
}

/// Compression is determined by the rules, the datagram, its addresses and
/// its direction: any two results of compressing the same datagram under the
/// same rules are the same.
pub proof fn law_compress_deterministic(
    rs: Seq<RuleModel>,
    dir: Direction,
    quic: Seq<u8>,
    src: Endpoint,
    dst: Endpoint,
    r1: CompressResult,
    r2: CompressResult,
)
    requires
        compress_outcome(rs, dir, quic, src, dst, r1),
        compress_outcome(rs, dir, quic, src, dst, r2),
    ensures
        r1.compressed_packet@ == r2.compressed_packet@,
        r1.success == r2.success,
        r1.rule_id == r2.rule_id,
        r1.original_header_size == r2.original_header_size,
        r1.compressed_header_size == r2.compressed_header_size,
{
    if let Ok(i) = select_rule(rs, dir, bits_of(synthetic_frame(quic, src, dst))) {
        let bits = bits_of(synthetic_frame(quic, src, dst));
        let rule = rs[i as int];
        let (res, _, end, _) = rule_walk(rule, dir, bits)->Ok_0;
        let nb = ((rule.id_len + res.len() + 7) / 8) as int;
        let p1 = r1.compressed_packet@;
        let p2 = r2.compressed_packet@;
        crate::engine::lemma_packs_unique(p1.take(nb), p2.take(nb), uint_bits(rule.id, rule.id_len) + res);
        assert(p1 =~= p1.take(nb) + p1.skip(nb));
        assert(p2 =~= p2.take(nb) + p2.skip(nb));
    }
}

pub open spec fn add_sat(a: usize, b: nat) -> usize {
    if a + b > usize::MAX {
        usize::MAX
    } else {
        (a + b) as usize
    }
}

/// SCHC compressor of a network node.
pub struct SchcCompressor {
    rules: RuleSet,
    quic_session: QuicSession,
    dynamic_quic_rules: bool,
    stats: SchcCompressorStats,
    debug: bool,
}

/// First identifier of the pool of dynamic rules.
pub const DYNAMIC_FIRST_ID: u32 = 240;

/// Last identifier of the pool of dynamic rules.
pub const DYNAMIC_LAST_ID: u32 = 250;

/// Length in bits of the identifiers of dynamic rules.
pub const DYNAMIC_ID_LEN: u8 = 8;

/// Whether the identifier `id` of `len` bits lies in the pool of dynamic
/// rules.
pub open spec fn in_pool(id: nat, len: nat) -> bool {
    len == DYNAMIC_ID_LEN && DYNAMIC_FIRST_ID <= id <= DYNAMIC_LAST_ID
}

/// The pool identifier `p` of 8 bits, as the key of a rule.
pub open spec fn pool_key(p: nat) -> RuleModel {
    RuleModel { id: p, id_len: DYNAMIC_ID_LEN as nat, fields: Seq::empty() }
}

/// Rule `r` can share the wire with every identifier of the pool: neither
/// identifier begins the other.
pub open spec fn clear_of_pool(r: RuleModel) -> bool {
    forall|p: nat|
        DYNAMIC_FIRST_ID <= p <= DYNAMIC_LAST_ID ==> !prefix_clash(r, #[trigger] pool_key(p))
            && !prefix_clash(pool_key(p), r)
}

impl SchcCompressor {
    /// The rules are valid and the next dynamic identifier lies in the pool
    /// or just past it. With learning on, every rule whose identifier lies
    /// in the pool is a dynamic rule already handed out (its identifier is
    /// below the next), and every other rule is clear of the pool.
    pub open spec fn wf(&self) -> bool {
        &&& rules_valid(self.rules())
        &&& DYNAMIC_FIRST_ID <= self.next_dynamic_id() <= DYNAMIC_LAST_ID + 1
        &&& self.dynamic() ==> forall|k: int|
            0 <= k < self.rules().len() ==> if in_pool(
                #[trigger] self.rules()[k].id,
                self.rules()[k].id_len,
            ) {
                self.rules()[k].id < self.next_dynamic_id()
            } else {
                clear_of_pool(self.rules()[k])
            }
        &&& self.learned_pairs().len() == self.next_dynamic_id() - DYNAMIC_FIRST_ID
        &&& self.parts_wf()
    }

    pub closed spec fn parts_wf(&self) -> bool {
        &&& self.rules.wf()
        &&& self.quic_session.wf()
        &&& self.quic_session.id_len() == DYNAMIC_ID_LEN
        &&& self.quic_session.first_id() == DYNAMIC_FIRST_ID
        &&& self.quic_session.last_id() == DYNAMIC_LAST_ID
    }

    pub closed spec fn rules(&self) -> Seq<RuleModel> {
        self.rules@
    }

    pub closed spec fn dynamic(&self) -> bool {
        self.dynamic_quic_rules
    }

    pub closed spec fn stats_view(&self) -> SchcCompressorStats {
        self.stats
    }

    pub closed spec fn debug_flag(&self) -> bool {
        self.debug
    }

    /// The identifier the next dynamic rule receives.
    pub closed spec fn next_dynamic_id(&self) -> nat {
        self.quic_session.next_id()
    }

    /// The connection id pairs that received dynamic rules, in order.
    pub closed spec fn learned_pairs(&self) -> Seq<LearnedPair> {
        self.quic_session.pairs()
    }

    /// Whether compressing a packet by rule `base`, whose descriptors took
    /// the values `vals`, installs a dynamic rule: learning is on, the
    /// packet shows a connection id pair not seen before, and an identifier
    /// is free. (The pinned copy then clashes with no rule: see `wf`.)
    pub open spec fn learns_from(&self, base: RuleModel, vals: Seq<Seq<bool>>, dir: Direction) -> bool {
        &&& self.dynamic()
        &&& observed_cids(base.fields, vals, dir) is Some
        &&& !pair_known(
            self.learned_pairs(),
            observed_cids(base.fields, vals, dir)->Some_0.0,
            observed_cids(base.fields, vals, dir)->Some_0.1,
        )
        &&& self.next_dynamic_id() <= DYNAMIC_LAST_ID
    }

    /// A compressor over a rule set; where `dynamic_quic_rules` is set it
    /// learns rules with identifiers 240 to 250 of 8 bits, and then a rule
    /// set with a rule not clear of those identifiers is refused.
    pub fn new(rules: RuleSet, debug: bool, dynamic_quic_rules: bool) -> (r: Result<SchcCompressor, SchcError>)
        requires
            rules.wf(),
        ensures
            r is Err <==> dynamic_quic_rules && exists|k: int|
                0 <= k < rules@.len() && !clear_of_pool(#[trigger] rules@[k]),
            r matches Err(e) ==> e == SchcError::RuleFileInvalid,
            r matches Ok(c) ==> {
                &&& c.wf()
                &&& c.rules() == rules@
                &&& c.dynamic() == dynamic_quic_rules
                &&& c.debug_flag() == debug
                &&& c.next_dynamic_id() == DYNAMIC_FIRST_ID
                &&& c.learned_pairs().len() == 0
                &&& c.stats_view().packets_compressed == 0
                &&& c.stats_view().compression_failures == 0
                &&& c.stats_view().packets_decompressed == 0
                &&& c.stats_view().decompression_failures == 0
                &&& c.stats_view().total_original_header_bits == 0
                &&& c.stats_view().total_compressed_header_bits == 0
            },
    {
        if dynamic_quic_rules {
            let list = rules.rules();
            let mut k: usize = 0;
            while k < list.len()
                invariant
                    k <= list.len(),
                    dynamic_quic_rules,
                    rule_models(list@) == rules@,
                    forall|kk: int| 0 <= kk < k ==> clear_of_pool(#[trigger] rules@[kk]),
                decreases list.len() - k,
            {
                proof {
                    assert(rules@[k as int] == list@[k as int]@);
                }
                let mut p: u32 = DYNAMIC_FIRST_ID;
                while p <= DYNAMIC_LAST_ID
                    invariant
                        DYNAMIC_FIRST_ID <= p <= DYNAMIC_LAST_ID + 1,
                        dynamic_quic_rules,
                        k < list.len(),
                        rule_models(list@) == rules@,
                        rules@[k as int] == list@[k as int]@,
                        forall|q: nat|
                            DYNAMIC_FIRST_ID <= q < p ==> !prefix_clash(
                                rules@[k as int],
                                #[trigger] pool_key(q),
                            ) && !prefix_clash(pool_key(q), rules@[k as int]),
                    decreases DYNAMIC_LAST_ID + 1 - p,
                {
                    let key = Rule { rule_id: p, rule_id_length: DYNAMIC_ID_LEN, fields: Vec::new(), comment: None };
                    proof {
                        assert(prefix_clash(rules@[k as int], key@) == prefix_clash(rules@[k as int], pool_key(p as nat)));
                        assert(prefix_clash(key@, rules@[k as int]) == prefix_clash(pool_key(p as nat), rules@[k as int]));
                    }
                    if prefix_clash_exec(&list[k], &key) || prefix_clash_exec(&key, &list[k]) {
                        proof {
                            assert(!clear_of_pool(rules@[k as int]));
                        }
                        return Err(SchcError::RuleFileInvalid);
                    }
                    p = p + 1;
                }
                k = k + 1;
            }
            proof {
                assert(pow2(0) == 1);
                assert forall|kk: int| 0 <= kk < rules@.len() implies !in_pool(
                    #[trigger] rules@[kk].id,
                    rules@[kk].id_len,
                ) by {
                    if in_pool(rules@[kk].id, rules@[kk].id_len) {
                        assert(clear_of_pool(rules@[kk]));
                        assert(rules@[kk].id / 1 == rules@[kk].id);
                        assert(prefix_clash(rules@[kk], pool_key(rules@[kk].id)));
                    }
                }
            }
        }
        Ok(SchcCompressor {
            rules,
            quic_session: QuicSession::new(DYNAMIC_FIRST_ID, DYNAMIC_LAST_ID, DYNAMIC_ID_LEN),
            dynamic_quic_rules,
            stats: SchcCompressorStats::new(),
            debug,
        })
    }

    pub fn debug(&self) -> (r: bool)
        ensures
            r == self.debug_flag(),
    {
        self.debug
    }

    pub fn stats(&self) -> (r: &SchcCompressorStats)
        ensures
            *r == self.stats_view(),
    {
        &self.stats
    }

    pub fn rule_set(&self) -> (r: &RuleSet)
        ensures
            r@ == self.rules(),
    {
        &self.rules
    }

    /// Compresses a QUIC datagram sent from `source` to `dest`.
    ///
    /// The datagram is framed in Ethernet, IPv4 and UDP headers, and the
    /// frame compressed. On success the result holds rule identifier and
    /// residue, then the datagram past the headers compressed; on failure
    /// the datagram unchanged, `success` false and the failure counted.
    /// After a success with learning on, a connection id pair not seen
    /// before gets the copy of the rule used with its ids pinned, under the
    /// next free identifier, where that copy clashes with no rule (see
    /// `learns_from`); the pair is recorded only then.
    pub fn compress(&mut self, quic_payload: &Vec<u8>, source: Endpoint, dest: Endpoint, is_outgoing: bool) -> (r:
        CompressResult)
        requires
            old(self).wf(),
            quic_payload.len() <= MAX_QUIC_PAYLOAD,
        ensures
            final(self).wf(),
            final(self).dynamic() == old(self).dynamic(),
            compress_outcome(
                old(self).rules(),
                direction_of(is_outgoing),
                quic_payload@,
                source,
                dest,
                r,
            ),
            match select_rule(
                old(self).rules(),
                direction_of(is_outgoing),
                bits_of(synthetic_frame(quic_payload@, source, dest)),
            ) {
                Ok(i) => {
                    let rule = old(self).rules()[i as int];
                    let (res, vals, end, _) = rule_walk(
                        rule,
                        direction_of(is_outgoing),
                        bits_of(synthetic_frame(quic_payload@, source, dest)),
                    )->Ok_0;
                    &&& compressed_by(
                        old(self).rules(),
                        direction_of(is_outgoing),
                        quic_payload@,
                        source,
                        dest,
                        i,
                        r,
                    )
                    &&& final(self).stats_view().packets_compressed == add_sat(
                        old(self).stats_view().packets_compressed,
                        1,
                    )
                    &&& final(self).stats_view().compression_failures == old(
                        self,
                    ).stats_view().compression_failures
                    &&& final(self).stats_view().total_original_header_bits == add_sat(
                        old(self).stats_view().total_original_header_bits,
                        (end - HEADER_START) as nat,
                    )
                    &&& final(self).stats_view().total_compressed_header_bits == add_sat(
                        old(self).stats_view().total_compressed_header_bits,
                        rule.id_len + res.len(),
                    )
                    &&& final(self).stats_view().packets_decompressed == old(
                        self,
                    ).stats_view().packets_decompressed
                    &&& final(self).stats_view().decompression_failures == old(
                        self,
                    ).stats_view().decompression_failures
                    &&& old(self).learns_from(rule, vals, direction_of(is_outgoing)) ==> {
                        &&& final(self).rules() == old(self).rules().push(
                            pinned_rule(
                                rule,
                                vals,
                                direction_of(is_outgoing),
                                old(self).next_dynamic_id(),
                                DYNAMIC_ID_LEN as nat,
                            ),
                        )
                        &&& final(self).next_dynamic_id() == old(self).next_dynamic_id() + 1
                        &&& final(self).learned_pairs().len() == old(self).learned_pairs().len() + 1
                        &&& final(self).learned_pairs().take(old(self).learned_pairs().len() as int)
                            == old(self).learned_pairs()
                        &&& pair_known(
                            final(self).learned_pairs(),
                            observed_cids(rule.fields, vals, direction_of(is_outgoing))->Some_0.0,
                            observed_cids(rule.fields, vals, direction_of(is_outgoing))->Some_0.1,
                        )
                    }
                    &&& !old(self).learns_from(rule, vals, direction_of(is_outgoing)) ==> {
                        &&& final(self).rules() == old(self).rules()
                        &&& final(self).next_dynamic_id() == old(self).next_dynamic_id()
                        &&& final(self).learned_pairs() == old(self).learned_pairs()
                    }
                },
                Err(_) => {
                    &&& !r.success
                    &&& r.compressed_packet@ == quic_payload@
                    &&& r.original_header_size == 0
                    &&& r.compressed_header_size == 0
                    &&& r.rule_id == 0
                    &&& final(self).stats_view().compression_failures == add_sat(
                        old(self).stats_view().compression_failures,
                        1,
                    )
                    &&& final(self).stats_view().packets_compressed == old(
                        self,
                    ).stats_view().packets_compressed
                    &&& final(self).stats_view().total_original_header_bits == old(
                        self,
                    ).stats_view().total_original_header_bits
                    &&& final(self).stats_view().total_compressed_header_bits == old(
                        self,
                    ).stats_view().total_compressed_header_bits
                    &&& final(self).stats_view().packets_decompressed == old(
                        self,
                    ).stats_view().packets_decompressed
                    &&& final(self).stats_view().decompression_failures == old(
                        self,
                    ).stats_view().decompression_failures
                    &&& final(self).rules() == old(self).rules()
                    &&& final(self).next_dynamic_id() == old(self).next_dynamic_id()
                    &&& final(self).learned_pairs() == old(self).learned_pairs()
                },
            },
    {
        let frame = build_synthetic_packet(quic_payload, source, dest);
        let dir = if is_outgoing {
            Direction::Up
        } else {
            Direction::Down
        };
        match compress_frame(&self.rules, &frame, dir) {
            Err(_) => {
                self.stats.compression_failures = self.stats.compression_failures.saturating_add(1);
                let mut copy: Vec<u8> = Vec::new();
                let mut k: usize = 0;
                while k < quic_payload.len()
                    invariant
                        k <= quic_payload.len(),
                        copy@ == quic_payload@.take(k as int),
                    decreases quic_payload.len() - k,
                {
                    copy.push(quic_payload[k]);
                    proof {
                        assert(copy@ =~= quic_payload@.take(k + 1));
                    }
                    k = k + 1;
                }
                proof {
                    assert(quic_payload@.take(k as int) =~= quic_payload@);
                }
                CompressResult {
                    compressed_packet: copy,
                    original_header_size: 0,
                    compressed_header_size: 0,
                    rule_id: 0,
                    success: false,
                }
            },
            Ok(c) => {
                let ghost rs = self.rules@;
                let ghost bits = bits_of(frame@);
                proof {
                    let rule = rs[c.rule_index as int];
                    crate::codec::lemma_walk_accepts(rule.fields, dir, bits, rule.fields.len());
                }
                let hdr = c.original_header_bits / 8 + if c.original_header_bits % 8 == 0 {
                    0
                } else {
                    1
                };
                let q = if hdr >= IP_UDP_HEADER_BYTES {
                    hdr - IP_UDP_HEADER_BYTES
                } else {
                    0
                };
                let start = if q <= quic_payload.len() {
                    q
                } else {
                    quic_payload.len()
                };
                let mut packet = crate::engine::copy_octets(&c.data, 0, c.data.len());
                proof {
                    assert(packet@ =~= c.data@);
                }
                let nb = packet.len();
                let mut k: usize = start;
                while k < quic_payload.len()
                    invariant
                        start <= k <= quic_payload.len(),
                        nb == c.data.len(),
                        packet@ == c.data@ + quic_payload@.subrange(start as int, k as int),
                    decreases quic_payload.len() - k,
                {
                    packet.push(quic_payload[k]);
                    proof {
                        assert(packet@ =~= c.data@ + quic_payload@.subrange(start as int, k + 1));
                    }
                    k = k + 1;
                }
                proof {
                    assert(packet@.take(nb as int) =~= c.data@);
                    assert(packet@.skip(nb as int) =~= quic_payload@.skip(start as int));
                }
                self.stats.packets_compressed = self.stats.packets_compressed.saturating_add(1);
                self.stats.total_original_header_bits = self.stats.total_original_header_bits.saturating_add(
                    c.original_header_bits,
                );
                self.stats.total_compressed_header_bits = self.stats.total_compressed_header_bits.saturating_add(
                    c.compressed_header_bits,
                );
                let rule_id = c.rule_id;
                let compressed_header_size = nb;
                let ghost old_rules = self.rules@;
                proof {
                    assert(hdr == (c.original_header_bits + 7) / 8);
                    assert(start == app_payload_start(c.original_header_bits as nat, quic_payload.len() as nat));
                    crate::bits::lemma_uint_bits_len(c.rule_id as nat, c.rule_id_length as nat);
                    assert(nb == (c.compressed_header_bits + 7) / 8);
                }
                if self.dynamic_quic_rules {
                    let rules = self.rules.rules();
                    let base = &rules[c.rule_index];
                    proof {
                        assert(rs[c.rule_index as int] == base@);
                        crate::codec::lemma_walk_accepts(base@.fields, dir, bits, base@.fields.len());
                    }
                    match self.quic_session.propose(base, &c.values, dir) {
                        Some(rule) => {
                            proof {
                                let next = self.quic_session.next_id();
                                crate::bits::lemma_pow2_values();
                                assert(pow2(0) == 1);
                                assert forall|k: int| 0 <= k < old_rules.len() implies !same_key(
                                    #[trigger] old_rules[k],
                                    rule@,
                                ) && !prefix_clash(old_rules[k], rule@) && !prefix_clash(
                                    rule@,
                                    old_rules[k],
                                ) by {
                                    if !in_pool(old_rules[k].id, old_rules[k].id_len) {
                                        assert(clear_of_pool(old_rules[k]));
                                        assert(!prefix_clash(old_rules[k], pool_key(next)));
                                        assert(!prefix_clash(pool_key(next), old_rules[k]));
                                    } else {
                                        assert(old_rules[k].id < next);
                                        assert(old_rules[k].id / 1 == old_rules[k].id);
                                        assert(next / 1 == next);
                                    }
                                }
                                assert(can_install(old_rules, rule@));
                            }
                            self.quic_session.commit(base, &c.values, dir);
                            let installed = self.rules.install(rule);
                            proof {
                                assert(installed);
                                if exists|k: int|
                                    0 <= k < old_rules.len() && same_key(
                                        #[trigger] old_rules[k],
                                        rule@,
                                    ) && self.rules@ == old_rules.remove(k).push(rule@) {
                                    let k = choose|k: int|
                                        0 <= k < old_rules.len() && same_key(
                                            #[trigger] old_rules[k],
                                            rule@,
                                        ) && self.rules@ == old_rules.remove(k).push(rule@);
                                    assert(!same_key(old_rules[k], rule@));
                                }
                                assert(self.rules@ == old_rules.push(rule@));
                                let nr = self.rules@;
                                assert forall|k: int| 0 <= k < nr.len() implies if in_pool(
                                    #[trigger] nr[k].id,
                                    nr[k].id_len,
                                ) {
                                    nr[k].id < self.quic_session.next_id()
                                } else {
                                    clear_of_pool(nr[k])
                                } by {
                                    if k < old_rules.len() {
                                        assert(nr[k] == old_rules[k]);
                                    }
                                }
                            }
                        },
                        None => {},
                    }
                }
                CompressResult {
                    compressed_packet: packet,
                    original_header_size: hdr,
                    compressed_header_size,
                    rule_id,
                    success: true,
                }
            },
        }
    }
}

} // verus!

verus! {

/// The datagram rebuilt from header octets `hb` (IPv4, UDP and QUIC
/// headers) and the received octets past `consumed` bits: the QUIC header
/// then the payload.
pub open spec fn rebuilt_datagram(hb: Seq<u8>, data: Seq<u8>, consumed: nat) -> Seq<u8> {
    let start = (consumed + 7) / 8;
    let quic_header = if hb.len() > 28 {
        hb.skip(28)
    } else {
        Seq::empty()
    };
    let payload = if start <= data.len() {
        data.skip(start as int)
    } else {
        Seq::empty()
    };
    quic_header + payload
}

impl SchcCompressor {
    /// Reconstructs a QUIC datagram from compressed octets: the rule is
    /// found by the leading identifier bits, the headers are rebuilt from
    /// its residue, and the octets past the residue are the payload. A
    /// failure is counted and returned.
    pub fn decompress(&mut self, compressed_data: &Vec<u8>, is_outgoing: bool) -> (r: Result<
        DecompressResult,
        SchcError,
    >)
        requires
            old(self).wf(),
            compressed_data.len() * 8 + 64 <= usize::MAX,
        ensures
            final(self).wf(),
            final(self).rules() == old(self).rules(),
            final(self).dynamic() == old(self).dynamic(),
            final(self).next_dynamic_id() == old(self).next_dynamic_id(),
            final(self).learned_pairs() == old(self).learned_pairs(),
            final(self).stats_view().packets_compressed == old(self).stats_view().packets_compressed,
            final(self).stats_view().compression_failures == old(self).stats_view().compression_failures,
            final(self).stats_view().total_original_header_bits == old(
                self,
            ).stats_view().total_original_header_bits,
            final(self).stats_view().total_compressed_header_bits == old(
                self,
            ).stats_view().total_compressed_header_bits,
            match r {
                Ok(d) => {
                    let (i, h, c) = decompress_outcome(
                        old(self).rules(),
                        bits_of(compressed_data@),
                        direction_of(is_outgoing),
                    )->Ok_0;
                    &&& decompress_outcome(
                        old(self).rules(),
                        bits_of(compressed_data@),
                        direction_of(is_outgoing),
                    ) is Ok
                    &&& d.rule_id == old(self).rules()[i as int].id
                    &&& exists|hb: Seq<u8>|
                        bits_of(hb) == h && !fill_fails(
                            old(self).rules()[i as int].fields,
                            direction_of(is_outgoing),
                            hb.len() + payload_after(compressed_data@, c).len(),
                        ) && d.decompressed_packet@ == rebuilt_datagram(
                            header_after_fill(
                                old(self).rules()[i as int].fields,
                                direction_of(is_outgoing),
                                hb,
                                compressed_data@,
                                c,
                            ),
                            compressed_data@,
                            c,
                        )
                    &&& final(self).stats_view().packets_decompressed == add_sat(
                        old(self).stats_view().packets_decompressed,
                        1,
                    )
                    &&& final(self).stats_view().decompression_failures == old(
                        self,
                    ).stats_view().decompression_failures
                },
                Err(e) => {
                    &&& match decompress_outcome(
                        old(self).rules(),
                        bits_of(compressed_data@),
                        direction_of(is_outgoing),
                    ) {
                        Err(e2) => e == e2,
                        Ok((i, h, c)) => e == SchcError::ReconstructionFailed && forall|hb: Seq<u8>|
                            bits_of(hb) == h ==> fill_fails(
                                old(self).rules()[i as int].fields,
                                direction_of(is_outgoing),
                                hb.len() + payload_after(compressed_data@, c).len(),
                            ),
                    }
                    &&& final(self).stats_view().decompression_failures == add_sat(
                        old(self).stats_view().decompression_failures,
                        1,
                    )
                    &&& final(self).stats_view().packets_decompressed == old(
                        self,
                    ).stats_view().packets_decompressed
                },
            },
    {
        let dir = if is_outgoing {
            Direction::Up
        } else {
            Direction::Down
        };
        match decompress_bytes(&self.rules, compressed_data, dir) {
            Err(e) => {
                self.stats.decompression_failures = self.stats.decompression_failures.saturating_add(1);
                Err(e)
            },
            Ok(d) => {
                let c = d.bits_consumed;
                let start = c / 8 + if c % 8 == 0 {
                    0
                } else {
                    1
                };
                let mut out: Vec<u8> = Vec::new();
                if d.header.len() > IP_UDP_HEADER_BYTES {
                    let mut k: usize = IP_UDP_HEADER_BYTES;
                    while k < d.header.len()
                        invariant
                            IP_UDP_HEADER_BYTES <= k <= d.header.len(),
                            out@ == d.header@.subrange(28, k as int),
                        decreases d.header.len() - k,
                    {
                        out.push(d.header[k]);
                        proof {
                            assert(out@ =~= d.header@.subrange(28, k + 1));
                        }
                        k = k + 1;
                    }
                    proof {
                        assert(out@ =~= d.header@.skip(28));
                    }
                }
                let ghost qh = out@;
                if start <= compressed_data.len() {
                    let mut k: usize = start;
                    while k < compressed_data.len()
                        invariant
                            start <= k <= compressed_data.len(),
                            out@ == qh + compressed_data@.subrange(start as int, k as int),
                        decreases compressed_data.len() - k,
                    {
                        out.push(compressed_data[k]);
                        proof {
                            assert(out@ =~= qh + compressed_data@.subrange(start as int, k + 1));
                        }
                        k = k + 1;
                    }
                    proof {
                        assert(compressed_data@.subrange(start as int, k as int) =~= compressed_data@.skip(start as int));
                    }
                } else {
                    proof {
                        assert(out@ =~= qh + Seq::<u8>::empty());
                    }
                }
                proof {
                    assert(start == (c + 7) / 8);
                    assert(out@ == rebuilt_datagram(d.header@, compressed_data@, c as nat));
                }
                self.stats.packets_decompressed = self.stats.packets_decompressed.saturating_add(1);
                Ok(DecompressResult { decompressed_packet: out, rule_id: d.rule_id })
            },
        }
    }
}

/// Header octets whose bits agree with another header's past bit `q` (within
/// the IPv4 and UDP headers) agree with it from octet 28 on.
proof fn lemma_suffix_octets(hb: Seq<u8>, hdr: Seq<u8>, q: nat)
    requires
        bits_of(hb).len() == bits_of(hdr).len(),
        hdr.len() >= 28,
        q <= 224,
        bits_of(hb).skip(q as int) == bits_of(hdr).skip(q as int),
    ensures
        hb.skip(28) == hdr.skip(28),
{
    assert(hb.len() == hdr.len());
    crate::bits::lemma_bits_of_subrange(hb, 28, hb.len() as int);
    crate::bits::lemma_bits_of_subrange(hdr, 28, hdr.len() as int);
    assert(bits_of(hb).subrange(224, (hb.len() * 8) as int) =~= bits_of(hb).skip(q as int).skip(224 - q));
    assert(bits_of(hdr).subrange(224, (hdr.len() * 8) as int) =~= bits_of(hdr).skip(q as int).skip(224 - q));
    assert(hb.subrange(28, hb.len() as int) =~= hb.skip(28));
    assert(hdr.subrange(28, hdr.len() as int) =~= hdr.skip(28));
    crate::bits::lemma_bits_of_injective(hb.skip(28), hdr.skip(28));
}

/// Filling in the recomputed fields leaves the octets of a header from 28
/// on, and its length.
proof fn lemma_fill_tail(fields: Seq<crate::rule::FieldModel>, dir: Direction, hb: Seq<u8>, packet: Seq<u8>, n: nat)
    requires
        hb.len() >= 28,
    ensures
        header_after_fill(fields, dir, hb, packet, n).len() == hb.len(),
        header_after_fill(fields, dir, hb, packet, n).skip(28) == hb.skip(28),
{
    let p = hb + crate::engine::payload_after(packet, n);
    crate::recompute::lemma_filled_keeps_tail(fields, dir, p);
    let f = crate::recompute::filled(fields, dir, p);
    let hf = f.take(hb.len() as int);
    assert forall|k: int| 0 <= k < hb.len() - 28 implies hf.skip(28)[k] == hb.skip(28)[k] by {
        assert(f.skip(28)[k] == p.skip(28)[k]);
    }
    assert(hf.skip(28) =~= hb.skip(28));
}

/// A datagram that a node compressed is rebuilt exactly by a node holding
/// the same rules: decompressing the compressed packet finds the rule that
/// compressed it and gives back the datagram, header and payload.
///
/// This holds where the rule covers whole octets, at least the IPv4 and
/// UDP headers, and recomputes no field past them.
#[verifier::rlimit(100)]
pub proof fn law_datagram_round_trip(
    rs: Seq<RuleModel>,
    is_outgoing: bool,
    quic: Seq<u8>,
    src: Endpoint,
    dst: Endpoint,
    i: nat,
    r: CompressResult,
)
    requires
        rules_valid(rs),
        quic.len() <= MAX_QUIC_PAYLOAD,
        select_rule(rs, direction_of(is_outgoing), bits_of(synthetic_frame(quic, src, dst)))
            == Ok::<nat, SchcError>(i),
        compressed_by(rs, direction_of(is_outgoing), quic, src, dst, i, r),
        ({
            let bits = bits_of(synthetic_frame(quic, src, dst));
            let fields = rs[i as int].fields;
            let end = rule_walk(rs[i as int], direction_of(is_outgoing), bits)->Ok_0.2;
            &&& (end - HEADER_START) % 8 == 0
            &&& end - HEADER_START >= 8 * IP_UDP_HEADER_BYTES
            &&& carried_from(fields, direction_of(is_outgoing), bits, fields.len()) <= 8
                * IP_UDP_HEADER_BYTES
        }),
    ensures
        decompress_outcome(rs, bits_of(r.compressed_packet@), direction_of(is_outgoing)) is Ok,
        decompress_outcome(rs, bits_of(r.compressed_packet@), direction_of(is_outgoing))->Ok_0.0
            == i,
        forall|hb: Seq<u8>|
            bits_of(hb) == decompress_outcome(
                rs,
                bits_of(r.compressed_packet@),
                direction_of(is_outgoing),
            )->Ok_0.1 ==> rebuilt_datagram(
                header_after_fill(
                    rs[i as int].fields,
                    direction_of(is_outgoing),
                    hb,
                    r.compressed_packet@,
                    decompress_outcome(rs, bits_of(r.compressed_packet@), direction_of(is_outgoing))->Ok_0.2,
                ),
                r.compressed_packet@,
                decompress_outcome(rs, bits_of(r.compressed_packet@), direction_of(is_outgoing))->Ok_0.2,
            ) == quic,
{
    let dir = direction_of(is_outgoing);
    let frame = synthetic_frame(quic, src, dst);
    let bits = bits_of(frame);
    let rule = rs[i as int];
    let (res, _, end, _) = rule_walk(rule, dir, bits)->Ok_0;
    let n = rule.id_len + res.len();
    let nb = (n + 7) / 8;
    let packet = r.compressed_packet@;
    let data = packet.take(nb as int);
    let payload = packet.skip(nb as int);
    assert(data + payload =~= packet);
    lemma_round_trip_outcome(rs, dir, frame, i, data, payload);
    let q = carried_from(rule.fields, dir, bits, rule.fields.len());
    let h = decompress_outcome(rs, bits_of(packet), dir)->Ok_0.1;
    let hlen = ((end - HEADER_START) / 8) as nat;
    assert(end / 8 == 14 + hlen);
    crate::frame::lemma_frame_len(quic, src, dst);
    crate::frame::lemma_frame_layout(quic, src, dst, hlen);
    let qlen = (hlen - 28) as nat;
    assert(app_payload_start((end - HEADER_START) as nat, quic.len()) == qlen);
    let hdr = frame.subrange(14, (14 + hlen) as int);
    crate::bits::lemma_bits_of_subrange(frame, 14, (14 + hlen) as int);
    assert(h.skip(q as int) =~= bits_of(hdr).skip(q as int));
    assert(nb <= packet.len());
    assert(quic.take(qlen as int) + quic.skip(qlen as int) =~= quic);
    assert forall|hb: Seq<u8>| bits_of(hb) == h implies rebuilt_datagram(
        header_after_fill(rule.fields, dir, hb, packet, n),
        packet,
        n,
    ) == quic by {
        lemma_suffix_octets(hb, hdr, q);
        lemma_fill_tail(rule.fields, dir, hb, packet, n);
    }
}

} // verus!
