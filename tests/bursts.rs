use burst_capture::{Burst, BurstTracker, FlowKey, IpBursts, IpPacket, WlanBursts, WlanPacket};

const SEC: u64 = 1_000_000;

fn ip(time: u64, src: &str, dst: &str, src_port: u16, dst_port: u16, data_len: u32) -> IpPacket {
    IpPacket {
        time,
        src: src.to_string(),
        dst: dst.to_string(),
        src_port,
        dst_port,
        data_len,
    }
}

fn key(src: &str, dst: &str) -> FlowKey {
    FlowKey {
        src: src.to_string(),
        dst: dst.to_string(),
        src_port: None,
        dst_port: None,
    }
}

#[test]
fn gap_closes_first_burst() {
    let mut e = IpBursts::new(2 * SEC, true);
    assert!(e.on_packet(&ip(0, "A", "B", 1, 2, 100)).is_empty());
    assert!(e.on_packet(&ip(SEC / 2, "A", "B", 3, 4, 50)).is_empty());
    let out = e.on_packet(&ip(3 * SEC, "A", "B", 5, 6, 80));
    assert_eq!(out.len(), 1);
    let b = &out[0];
    assert_eq!(b.src, "A");
    assert_eq!(b.dst, "B");
    assert_eq!(b.src_port, None);
    assert_eq!(b.dst_port, None);
    assert_eq!(b.start, 0);
    assert_eq!(b.end, SEC / 2);
    assert_eq!(b.num_packets, 2);
    assert_eq!(b.size, 150);
    assert_eq!(b.completion_time, 3 * SEC);
    // The second burst began at the third packet and closes on the timeout.
    let out = e.on_timeout();
    assert_eq!(out.len(), 1);
    assert_eq!(out[0].start, 3 * SEC);
    assert_eq!(out[0].end, 3 * SEC);
    assert_eq!(out[0].num_packets, 1);
    assert_eq!(out[0].size, 80);
    assert_eq!(out[0].completion_time, 5 * SEC);
}

#[test]
fn interleaved_flows_stay_apart() {
    let mut e = IpBursts::new(SEC, true);
    let mut all: Vec<Burst> = Vec::new();
    for i in 0..10u64 {
        all.extend(e.on_packet(&ip(i * 100_000, "A", "B", 1, 1, 10)));
        all.extend(e.on_packet(&ip(i * 100_000 + 50_000, "C", "D", 1, 1, 1000)));
    }
    all.extend(e.on_timeout());
    assert_eq!(all.len(), 2);
    for b in &all {
        if b.src == "A" {
            assert_eq!(b.dst, "B");
            assert_eq!(b.num_packets, 10);
            assert_eq!(b.size, 100);
        } else {
            assert_eq!(b.src, "C");
            assert_eq!(b.dst, "D");
            assert_eq!(b.num_packets, 10);
            assert_eq!(b.size, 10_000);
        }
    }
}

#[test]
fn double_touch_closes_once() {
    let mut t = BurstTracker::new(SEC);
    assert!(t.on_packet(key("A", "B"), 10, 5).is_empty());
    assert!(t.on_packet(key("A", "B"), 20, 7).is_empty());
    assert_eq!(t.pending(), 2);
    let out = t.on_timeout();
    assert_eq!(out.len(), 1);
    assert_eq!(out[0].start, 10);
    assert_eq!(out[0].end, 20);
    assert_eq!(out[0].num_packets, 2);
    assert_eq!(out[0].size, 12);
    assert_eq!(out[0].completion_time, 20 + SEC);
    assert_eq!(t.pending(), 0);
    assert!(t.on_timeout().is_empty());
}

#[test]
fn same_time_twice_closes_once() {
    let mut t = BurstTracker::new(SEC);
    t.on_packet(key("A", "B"), 0, 1);
    t.on_packet(key("A", "B"), 0, 1);
    let out = t.create_bursts(5 * SEC);
    assert_eq!(out.len(), 1);
    assert_eq!(out[0].num_packets, 2);
}

#[test]
fn exactly_inactive_time_is_closed() {
    let mut t = BurstTracker::new(2 * SEC);
    t.on_packet(key("A", "B"), SEC, 10);
    assert!(t.create_bursts(3 * SEC - 1).is_empty());
    let out = t.create_bursts(3 * SEC);
    assert_eq!(out.len(), 1);
    assert_eq!(out[0].completion_time, 3 * SEC);
}

#[test]
fn packet_after_close_starts_new_burst() {
    let mut t = BurstTracker::new(SEC);
    t.on_packet(key("A", "B"), 0, 1);
    let out = t.on_packet(key("A", "B"), 2 * SEC, 9);
    assert_eq!(out.len(), 1);
    assert_eq!(out[0].size, 1);
    let out = t.on_timeout();
    assert_eq!(out.len(), 1);
    assert_eq!(out[0].start, 2 * SEC);
    assert_eq!(out[0].size, 9);
}

#[test]
fn ports_split_flows_unless_ignored() {
    let mut e = IpBursts::new(SEC, false);
    e.on_packet(&ip(0, "10.0.0.1", "10.0.0.2", 80, 5000, 10));
    e.on_packet(&ip(1, "10.0.0.1", "10.0.0.2", 81, 5000, 10));
    let out = e.on_timeout();
    assert_eq!(out.len(), 2);
    assert_eq!(out[0].src_port, Some(80));
    assert_eq!(out[0].dst_port, Some(5000));
    assert_eq!(out[1].src_port, Some(81));

    let mut e = IpBursts::new(SEC, true);
    e.on_packet(&ip(0, "10.0.0.1", "10.0.0.2", 80, 5000, 10));
    e.on_packet(&ip(1, "10.0.0.1", "10.0.0.2", 81, 5000, 10));
    let out = e.on_timeout();
    assert_eq!(out.len(), 1);
    assert_eq!(out[0].num_packets, 2);
}

#[test]
fn direction_matters() {
    let mut t = BurstTracker::new(SEC);
    t.on_packet(key("A", "B"), 0, 1);
    t.on_packet(key("B", "A"), 1, 1);
    assert_eq!(t.on_timeout().len(), 2);
}

#[test]
fn sorted_stream_gives_well_timed_bursts() {
    let mut t = BurstTracker::new(300);
    let names = ["A", "B", "C"];
    let mut all: Vec<Burst> = Vec::new();
    let mut time: u64 = 0;
    for i in 0..500u64 {
        time += (i * 37) % 400;
        let n = names[(i % 3) as usize];
        all.extend(t.on_packet(key(n, "Z"), time, (i % 1500) as u32));
        if i % 50 == 0 {
            all.extend(t.on_timeout());
        }
    }
    all.extend(t.on_timeout());
    assert!(!all.is_empty());
    for b in &all {
        assert!(b.start <= b.end);
        assert!(b.end <= b.completion_time);
    }
}

fn run_stream() -> Vec<Burst> {
    let mut t = BurstTracker::new(250);
    let mut out = Vec::new();
    for i in 0..300u64 {
        let src = if i % 4 == 0 { "X" } else { "Y" };
        out.extend(t.on_packet(key(src, "Z"), i * i % 1000 + i * 100, i as u32));
    }
    out.extend(t.on_timeout());
    out
}

#[test]
fn replay_gives_identical_bursts() {
    let a = run_stream();
    let b = run_stream();
    assert_eq!(a.len(), b.len());
    assert!(!a.is_empty());
    for (x, y) in a.iter().zip(b.iter()) {
        assert_eq!(x.completion_time, y.completion_time);
        assert_eq!(x.src, y.src);
        assert_eq!(x.dst, y.dst);
        assert_eq!(x.start, y.start);
        assert_eq!(x.end, y.end);
        assert_eq!(x.num_packets, y.num_packets);
        assert_eq!(x.size, y.size);
    }
}

#[test]
fn counters_saturate() {
    let mut t = BurstTracker::new(SEC);
    t.on_packet(key("A", "B"), 0, u32::MAX - 1);
    t.on_packet(key("A", "B"), 1, 5);
    let out = t.on_timeout();
    assert_eq!(out[0].size, u32::MAX);

    let mut t = BurstTracker::new(SEC);
    for i in 0..70_000u64 {
        t.on_packet(key("A", "B"), i, 0);
    }
    let out = t.on_timeout();
    assert_eq!(out.len(), 1);
    assert_eq!(out[0].num_packets, u16::MAX);
}

#[test]
fn zero_length_packet_is_fine() {
    let mut t = BurstTracker::new(SEC);
    t.on_packet(key("A", "B"), 5, 0);
    let out = t.on_timeout();
    assert_eq!(out.len(), 1);
    assert_eq!(out[0].size, 0);
    assert_eq!(out[0].num_packets, 1);
}

#[test]
fn timeout_before_any_packet_closes_nothing() {
    let mut t = BurstTracker::new(SEC);
    assert!(t.on_timeout().is_empty());
    assert_eq!(t.pending(), 0);
}

#[test]
fn flow_keys_compare_by_all_fields() {
    let a = key("A", "B");
    assert!(a.same_as(&key("A", "B")));
    assert!(!a.same_as(&key("A", "C")));
    let mut p = key("A", "B");
    p.src_port = Some(1);
    assert!(!a.same_as(&p));
    assert!(p.same_as(&p.duplicate()));
}

#[test]
fn wlan_bursts_use_mac_text() {
    let mut e = WlanBursts::new(SEC, false, 10);
    let frame = |time: u64, seq_number: u16| WlanPacket {
        time,
        src: [0x00, 0x1a, 0x2b, 0x3c, 0x4d, 0xef],
        dst: [0xff, 0xff, 0xff, 0xff, 0xff, 0x01],
        data_len: 60,
        seq_number,
    };
    e.on_packet(&frame(0, 1));
    e.on_packet(&frame(10, 2));
    let out = e.on_timeout();
    assert_eq!(out.len(), 1);
    assert_eq!(out[0].src, "00:1A:2B:3C:4D:EF");
    assert_eq!(out[0].dst, "FF:FF:FF:FF:FF:01");
    assert_eq!(out[0].src_port, None);
    assert_eq!(out[0].num_packets, 2);
    assert_eq!(out[0].size, 120);
    assert_eq!(out[0].completion_time, 10 + SEC);
}
