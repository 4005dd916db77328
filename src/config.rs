//! QUIC transport settings of a simulation run.
use vstd::prelude::*;

verus! {

#[derive(Clone, Copy, Debug, PartialEq, Eq, Structural)]
pub enum CongestionControlAlgorithm {
    /// Cubic congestion control (Quinn default)
    Cubic,
    /// NewReno congestion control
    NewReno,
    /// Disables congestion control and uses the initial congestion window as
    /// a fixed window instead
    NoCc,
    /// A variant of `NewReno` that ignores packet loss and only takes ECN
    /// into consideration.
    EcnReno,
}

#[derive(Clone, Copy, Debug)]
pub struct QuinnJsonConfig {
    /// Initial RTT of the QUIC connection, in milliseconds (used before an
    /// RTT sample is available).
    pub initial_rtt_ms: u64,
    /// Maximum idle timeout of the QUIC connection, in milliseconds.
    pub maximum_idle_timeout_ms: u64,
    /// Maximum reordering in packet numbers before a packet counts as lost.
    pub packet_threshold: u32,
    /// Whether MTU discovery is enabled.
    pub mtu_discovery: bool,
    /// Whether the send and receive windows are maximized.
    pub maximize_send_and_receive_windows: bool,
    /// ACK-eliciting packets an endpoint may receive without immediately
    /// sending an ACK.
    pub ack_eliciting_threshold: u32,
    /// Longest wait before sending an ACK when the threshold is not reached.
    pub max_ack_delay_ms: u64,
    /// Which congestion control algorithm to use.
    pub congestion_controller: CongestionControlAlgorithm,
    /// Initial congestion window in multiples of the base datagram size; the
    /// algorithm's default where missing.
    pub initial_congestion_window_packets: Option<u64>,
}

} // verus!
