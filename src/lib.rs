//! Static Context Header Compression (SCHC) of QUIC over UDP/IPv4.
//!
//! Two endpoints share a rule set. A rule lists the IPv4, UDP and QUIC
//! fields of a header in wire order, each with a matching operator and a
//! coding action; the sender replaces the header by the identifier of the
//! preferred rule that accepts it and the residue of the fields that the
//! rule does not imply, and the receiver rebuilds the header from them.
//!
//! - `bits`: the bit view of octet strings.
//! - `rule`: rules, field descriptors and their models.
//! - `codec`: the walk that locates, codes and rebuilds fields.
//! - `ruleset`, `tree`: validated rule sets and the choice of rule.
//! - `engine`: compression and decompression of frames.
//! - `recompute`: lengths and checksums rebuilt by the receiver.
//! - `learn`: dynamic rules pinning QUIC connection ids.
//! - `frame`: the Ethernet, IPv4 and UDP framing of a QUIC datagram.
//! - `session`, `observer`: the compressor and the observer of a node.
pub mod bits;
pub mod rule;
pub mod codec;
pub mod ruleset;
pub mod tree;
pub mod engine;
pub mod learn;
pub mod frame;
pub mod recompute;
pub mod session;
pub mod preview;
pub mod observer;
pub mod config;
