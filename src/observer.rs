//! Observation only: measures what compression would save on each datagram
//! without changing what is sent.
use vstd::prelude::*;
use crate::bits::bits_of;
use crate::codec::SchcError;
use crate::ruleset::{RuleSet, select_rule};
use crate::engine::{Compression, compress_frame, compressed_as};
use crate::rule::RuleModel;
use crate::frame::{Endpoint, MAX_QUIC_PAYLOAD, build_synthetic_packet, synthetic_frame};
use crate::session::{direction_of, add_sat};

verus! {

/// Counters of an observer.
pub struct SchcStats {
    pub packets_processed: usize,
    pub packets_matched: usize,
    pub total_original_bits: usize,
    pub total_compressed_bits: usize,
}

/// Measures header compression on the datagrams it is shown.
pub struct SchcObserver {
    rules: RuleSet,
    stats: SchcStats,
    debug: bool,
}

impl SchcObserver {
    pub closed spec fn rules(&self) -> Seq<RuleModel> {
        self.rules@
    }

    pub closed spec fn wf(&self) -> bool {
        self.rules.wf()
    }

    pub closed spec fn stats_view(&self) -> SchcStats {
        self.stats
    }

    pub fn new(rules: RuleSet, debug: bool) -> (r: SchcObserver)
        requires
            rules.wf(),
        ensures
            r.wf(),
            r.rules() == rules@,
            r.debug_flag() == debug,
            r.stats_view().packets_processed == 0,
            r.stats_view().packets_matched == 0,
            r.stats_view().total_original_bits == 0,
            r.stats_view().total_compressed_bits == 0,
    {
        SchcObserver {
            rules,
            stats: SchcStats {
                packets_processed: 0,
                packets_matched: 0,
                total_original_bits: 0,
                total_compressed_bits: 0,
            },
            debug,
        }
    }

    pub closed spec fn debug_flag(&self) -> bool {
        self.debug
    }

    pub fn debug(&self) -> (r: bool)
        ensures
            r == self.debug_flag(),
    {
        self.debug
    }

    pub fn stats(&self) -> (r: &SchcStats)
        ensures
            *r == self.stats_view(),
    {
        &self.stats
    }

    /// Compresses the framed datagram for measurement and counts it; the
    /// datagram itself is not changed. Returns the compression, or why
    /// there was none.
    pub fn observe(&mut self, quic_payload: &Vec<u8>, source: Endpoint, dest: Endpoint, is_outgoing: bool) -> (r:
        Result<Compression, SchcError>)
        requires
            old(self).wf(),
            quic_payload.len() <= MAX_QUIC_PAYLOAD,
        ensures
            final(self).wf(),
            final(self).rules() == old(self).rules(),
            final(self).stats_view().packets_processed == add_sat(
                old(self).stats_view().packets_processed,
                1,
            ),
            match r {
                Ok(c) => {
                    &&& compressed_as(
                        old(self).rules(),
                        direction_of(is_outgoing),
                        synthetic_frame(quic_payload@, source, dest),
                        c,
                    )
                    &&& final(self).stats_view().packets_matched == add_sat(
                        old(self).stats_view().packets_matched,
                        1,
                    )
                    &&& final(self).stats_view().total_original_bits == add_sat(
                        old(self).stats_view().total_original_bits,
                        c.original_header_bits as nat,
                    )
                    &&& final(self).stats_view().total_compressed_bits == add_sat(
                        old(self).stats_view().total_compressed_bits,
                        c.compressed_header_bits as nat,
                    )
                },
                Err(e) => {
                    &&& select_rule(
                        old(self).rules(),
                        direction_of(is_outgoing),
                        bits_of(synthetic_frame(quic_payload@, source, dest)),
                    ) == Err::<nat, SchcError>(e)
                    &&& final(self).stats_view().packets_matched == old(self).stats_view().packets_matched
                    &&& final(self).stats_view().total_original_bits == old(self).stats_view().total_original_bits
                    &&& final(self).stats_view().total_compressed_bits == old(self).stats_view().total_compressed_bits
                },
            },
    {
        self.stats.packets_processed = self.stats.packets_processed.saturating_add(1);
        let frame = build_synthetic_packet(quic_payload, source, dest);
        let dir = if is_outgoing {
            crate::rule::Direction::Up
        } else {
            crate::rule::Direction::Down
        };
        let r = compress_frame(&self.rules, &frame, dir);
        match &r {
            Ok(c) => {
                self.stats.packets_matched = self.stats.packets_matched.saturating_add(1);
                self.stats.total_original_bits = self.stats.total_original_bits.saturating_add(
                    c.original_header_bits,
                );
                self.stats.total_compressed_bits = self.stats.total_compressed_bits.saturating_add(
                    c.compressed_header_bits,
                );
            },
            Err(_) => {},
        }
        r
    }
}

} // verus!
