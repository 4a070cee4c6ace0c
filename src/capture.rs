//! The two traffic domains: wired IP flows and wireless link-layer flows.
//! Each packet is turned into a flow key and handed to a `BurstTracker`.
use vstd::prelude::*;

use crate::burst::{BurstTracker, Burst, FlowKey, FlowKeyModel, TrackerModel, burst_models, packet_step, timeout_step};

verus! {

/// A decoded wired packet. Times are microseconds; the addresses are in
/// their textual form.
pub struct IpPacket {
    pub time: u64,
    pub src: String,
    pub dst: String,
    pub src_port: u16,
    pub dst_port: u16,
    pub data_len: u32,
}

/// A decoded wireless frame. Times are microseconds; the addresses are the
/// six bytes of the MAC addresses.
pub struct WlanPacket {
    pub time: u64,
    pub src: [u8; 6],
    pub dst: [u8; 6],
    pub data_len: u32,
    pub seq_number: u16,
}

/// The flow of a wired packet: its addresses, and its ports unless ports
/// are ignored.
pub open spec fn ip_key(p: &IpPacket, ignore_ports: bool) -> FlowKeyModel {
    FlowKeyModel {
        src: p.src@,
        dst: p.dst@,
        src_port: if ignore_ports {
            None
        } else {
            Some(p.src_port)
        },
        dst_port: if ignore_ports {
            None
        } else {
            Some(p.dst_port)
        },
    }
}

/// The flow key of a wired packet.
pub fn ip_flow_key(p: &IpPacket, ignore_ports: bool) -> (r: FlowKey)
    ensures
        r@ == ip_key(p, ignore_ports),
{
    FlowKey {
        src: p.src.clone(),
        dst: p.dst.clone(),
        src_port: if ignore_ports {
            None
        } else {
            Some(p.src_port)
        },
        dst_port: if ignore_ports {
            None
        } else {
            Some(p.dst_port)
        },
    }
}

/// An upper-case hexadecimal digit.
pub open spec fn hex_digit(d: int) -> char {
    seq!['0', '1', '2', '3', '4', '5', '6', '7', '8', '9', 'A', 'B', 'C', 'D', 'E', 'F'][d]
}

/// A byte as two upper-case hexadecimal digits.
pub open spec fn hex_pair(b: u8) -> Seq<char> {
    seq![hex_digit(b as int / 16), hex_digit(b as int % 16)]
}

/// The usual text of a MAC address: six upper-case hexadecimal pairs joined
/// by ':'.
pub open spec fn mac_text(m: Seq<u8>) -> Seq<char> {
    hex_pair(m[0]) + seq![':'] + hex_pair(m[1]) + seq![':'] + hex_pair(m[2]) + seq![':'] + hex_pair(
        m[3],
    ) + seq![':'] + hex_pair(m[4]) + seq![':'] + hex_pair(m[5])
}

/// Relies on macaddr's `Display` for `MacAddr6` (no format flags): the six
/// bytes as `{:02X}` pairs joined by ':'.
#[verifier::external_body]
fn mac_to_string(bytes: [u8; 6]) -> (r: String)
    ensures
        r@ == mac_text(bytes@),
{
    macaddr::MacAddr6::from(bytes).to_string()
}

/// The flow of a wireless frame: its two MAC addresses, with no ports.
pub open spec fn wlan_key(p: &WlanPacket) -> FlowKeyModel {
    FlowKeyModel { src: mac_text(p.src@), dst: mac_text(p.dst@), src_port: None, dst_port: None }
}

/// The flow key of a wireless frame.
pub fn wlan_flow_key(p: &WlanPacket) -> (r: FlowKey)
    ensures
        r@ == wlan_key(p),
{
    FlowKey { src: mac_to_string(p.src), dst: mac_to_string(p.dst), src_port: None, dst_port: None }
}

/// Burst detection over wired packets.
pub struct IpBursts {
    tracker: BurstTracker,
    ignore_ports: bool,
}

impl View for IpBursts {
    type V = TrackerModel;

    closed spec fn view(&self) -> TrackerModel {
        self.tracker@
    }
}

impl IpBursts {
    pub closed spec fn wf(&self) -> bool {
        self.tracker.wf()
    }

    /// Whether ports are left out of the flow keys.
    pub closed spec fn ignores_ports(&self) -> bool {
        self.ignore_ports
    }

    /// A detector closing bursts after `inactive_time` microseconds of
    /// silence; with `ignore_ports`, all traffic between two addresses is one
    /// flow.
    pub fn new(inactive_time: u64, ignore_ports: bool) -> (r: IpBursts)
        requires
            inactive_time > 0,
        ensures
            r.wf(),
            r@ == crate::burst::fresh_tracker(inactive_time),
            r.ignores_ports() == ignore_ports,
    {
        IpBursts { tracker: BurstTracker::new(inactive_time), ignore_ports }
    }

    /// The number of touch records waiting in the queue.
    pub fn pending(&self) -> (r: usize)
        requires
            self.wf(),
        ensures
            r == self@.queue.len(),
    {
        self.tracker.pending()
    }

    /// Handles a packet; returns the bursts closed by the sweep at its time.
    pub fn on_packet(&mut self, p: &IpPacket) -> (r: Vec<Burst>)
        requires
            old(self).wf(),
            old(self)@.queue.len() < usize::MAX / 2,
        ensures
            final(self).wf(),
            final(self).ignores_ports() == old(self).ignores_ports(),
            (final(self)@, burst_models(r@)) == packet_step(
                old(self)@,
                ip_key(p, old(self).ignores_ports()),
                p.time,
                p.data_len,
            ),
    {
        let key = ip_flow_key(p, self.ignore_ports);
        self.tracker.on_packet(key, p.time, p.data_len)
    }

    /// No packet within the inactivity interval; returns the bursts closed.
    pub fn on_timeout(&mut self) -> (r: Vec<Burst>)
        requires
            old(self).wf(),
        ensures
            final(self).wf(),
            final(self).ignores_ports() == old(self).ignores_ports(),
            (final(self)@, burst_models(r@)) == timeout_step(old(self)@),
    {
        self.tracker.on_timeout()
    }
}

/// Burst detection over wireless frames. Each frame extends its flow's
/// burst as a wired packet does; `no_guess` and `max_deviation` are kept
/// for the reconstruction of lost frames from sequence numbers, which this
/// detector does not do.
pub struct WlanBursts {
    tracker: BurstTracker,
    no_guess: bool,
    max_deviation: u16,
}

impl View for WlanBursts {
    type V = TrackerModel;

    closed spec fn view(&self) -> TrackerModel {
        self.tracker@
    }
}

impl WlanBursts {
    pub closed spec fn wf(&self) -> bool {
        self.tracker.wf()
    }

    /// The `no_guess` and `max_deviation` settings.
    pub closed spec fn settings(&self) -> (bool, u16) {
        (self.no_guess, self.max_deviation)
    }

    /// A detector closing bursts after `inactive_time` microseconds of
    /// silence.
    pub fn new(inactive_time: u64, no_guess: bool, max_deviation: u16) -> (r: WlanBursts)
        requires
            inactive_time > 0,
        ensures
            r.wf(),
            r@ == crate::burst::fresh_tracker(inactive_time),
            r.settings() == (no_guess, max_deviation),
    {
        WlanBursts { tracker: BurstTracker::new(inactive_time), no_guess, max_deviation }
    }

    /// The number of touch records waiting in the queue.
    pub fn pending(&self) -> (r: usize)
        requires
            self.wf(),
        ensures
            r == self@.queue.len(),
    {
        self.tracker.pending()
    }

    /// Handles a frame; returns the bursts closed by the sweep at its time.
    pub fn on_packet(&mut self, p: &WlanPacket) -> (r: Vec<Burst>)
        requires
            old(self).wf(),
            old(self)@.queue.len() < usize::MAX / 2,
        ensures
            final(self).wf(),
            (final(self)@, burst_models(r@)) == packet_step(old(self)@, wlan_key(p), p.time, p.data_len),
    {
        let key = wlan_flow_key(p);
        self.tracker.on_packet(key, p.time, p.data_len)
    }

    /// No frame within the inactivity interval; returns the bursts closed.
    pub fn on_timeout(&mut self) -> (r: Vec<Burst>)
        requires
            old(self).wf(),
        ensures
            final(self).wf(),
            (final(self)@, burst_models(r@)) == timeout_step(old(self)@),
    {
        self.tracker.on_timeout()
    }
}

} // verus!
