//! Receiver side of SCReAM congestion control.
//!
//! SCReAM is driven by the sender, so the receiver only records when each RTP
//! packet of each flow arrived and reports that back. This crate holds the
//! whole of that engine: the per-flow reception history, the adaptive feedback
//! interval, the choice of the flows that go into one feedback packet, and the
//! byte layout of that packet.
//!
//! All times are the middle 32 bits of an NTP timestamp: seconds in the high
//! 16 bits, the fraction of a second in the low 16 bits.
#![allow(non_snake_case)]
#![allow(non_upper_case_globals)]

pub mod flow_index;
pub mod ntp;
pub mod rate;
pub mod seqnum;
pub mod steady;
pub mod session;
pub mod session_laws;
pub mod stream;
pub mod trace;
pub mod wire;
