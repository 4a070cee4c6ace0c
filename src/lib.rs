//! Burst detection over per-packet network events.
//!
//! Packets are grouped into flows by their endpoints (and, optionally, their
//! ports). A flow's burst is closed once the flow has been silent for the
//! configured inactivity interval. Idle flows are found through a FIFO of
//! "last touched" records instead of a scan over every live flow.
pub mod burst;
pub mod capture;
pub mod fifo;

pub use burst::{Burst, BurstTracker, FlowKey};
pub use capture::{IpBursts, IpPacket, WlanBursts, WlanPacket};
pub use fifo::Fifo;
