//! Flow table, idle-queue sweep and burst lifecycle.
//!
//! Times are integer microseconds. A flow is identified by its endpoints and,
//! when ports are not ignored, its ports. Each packet extends its flow's
//! current burst and records "flow touched at this time" in a FIFO; a sweep
//! pops the records that are at least `inactive_time` old and closes the
//! bursts of the flows that have not been touched since.
use vstd::prelude::*;

use crate::fifo::Fifo;

verus! {

/// The identity of a flow, as plain values.
pub struct FlowKeyModel {
    pub src: Seq<char>,
    pub dst: Seq<char>,
    pub src_port: Option<u16>,
    pub dst_port: Option<u16>,
}

/// A burst, as plain values.
pub struct BurstModel {
    pub completion_time: u64,
    pub src: Seq<char>,
    pub dst: Seq<char>,
    pub src_port: Option<u16>,
    pub dst_port: Option<u16>,
    pub start: u64,
    pub end: u64,
    pub num_packets: u16,
    pub size: u32,
}

/// A flow of the table, as plain values.
pub struct FlowModel {
    pub key: FlowKeyModel,
    pub burst: Option<BurstModel>,
}

/// The identity of a flow: its endpoints and, where ports are taken into
/// account, its ports.
pub struct FlowKey {
    pub src: String,
    pub dst: String,
    pub src_port: Option<u16>,
    pub dst_port: Option<u16>,
}

impl View for FlowKey {
    type V = FlowKeyModel;

    open spec fn view(&self) -> FlowKeyModel {
        FlowKeyModel {
            src: self.src@,
            dst: self.dst@,
            src_port: self.src_port,
            dst_port: self.dst_port,
        }
    }
}

/// A maximal run of packets of one flow. Times are in microseconds.
#[derive(Debug)]
pub struct Burst {
    /// When the burst was closed.
    pub completion_time: u64,
    pub src: String,
    pub dst: String,
    pub src_port: Option<u16>,
    pub dst_port: Option<u16>,
    /// Time of the first packet.
    pub start: u64,
    /// Time of the last packet.
    pub end: u64,
    /// Number of packets, saturating at `u16::MAX`.
    pub num_packets: u16,
    /// Sum of the payload lengths, saturating at `u32::MAX`.
    pub size: u32,
}

impl View for Burst {
    type V = BurstModel;

    open spec fn view(&self) -> BurstModel {
        BurstModel {
            completion_time: self.completion_time,
            src: self.src@,
            dst: self.dst@,
            src_port: self.src_port,
            dst_port: self.dst_port,
            start: self.start,
            end: self.end,
            num_packets: self.num_packets,
            size: self.size,
        }
    }
}

/// The models of a sequence of bursts.
pub open spec fn burst_models(v: Seq<Burst>) -> Seq<BurstModel> {
    v.map_values(|b: Burst| b@)
}

/// `x`, or `u16::MAX` where `x` is larger.
pub open spec fn saturate_u16(x: int) -> u16 {
    if x > u16::MAX {
        u16::MAX
    } else {
        x as u16
    }
}

/// `x`, or `u32::MAX` where `x` is larger.
pub open spec fn saturate_u32(x: int) -> u32 {
    if x > u32::MAX {
        u32::MAX
    } else {
        x as u32
    }
}

/// The burst that a first packet of `key`, at `time` with `len` bytes of
/// payload, starts.
pub open spec fn new_burst(key: FlowKeyModel, time: u64, len: u32) -> BurstModel {
    BurstModel {
        completion_time: time,
        src: key.src,
        dst: key.dst,
        src_port: key.src_port,
        dst_port: key.dst_port,
        start: time,
        end: time,
        num_packets: 1,
        size: len,
    }
}

/// Burst `b` extended by a packet at `time` with `len` bytes of payload.
pub open spec fn extend_burst(b: BurstModel, time: u64, len: u32) -> BurstModel {
    BurstModel {
        end: time,
        num_packets: saturate_u16(b.num_packets + 1),
        size: saturate_u32(b.size + len),
        ..b
    }
}

/// The burst of flow `key` after a packet: the current one extended, or a
/// new one where the flow has none.
pub open spec fn touched_burst(cur: Option<BurstModel>, key: FlowKeyModel, time: u64, len: u32) -> BurstModel {
    match cur {
        Some(b) => extend_burst(b, time, len),
        None => new_burst(key, time, len),
    }
}

/// The position of flow `key` in the table, or -1 where it has none.
pub open spec fn find_flow(flows: Seq<FlowModel>, key: FlowKeyModel) -> int {
    if exists|i: int| 0 <= i < flows.len() && #[trigger] flows[i].key == key {
        choose|i: int| 0 <= i < flows.len() && #[trigger] flows[i].key == key
    } else {
        -1
    }
}

/// No two flows of the table have the same key.
pub open spec fn keys_distinct(flows: Seq<FlowModel>) -> bool {
    forall|i: int, j: int|
        0 <= i < flows.len() && 0 <= j < flows.len() && #[trigger] flows[i].key == #[trigger] flows[j].key
            ==> i == j
}

/// The table after a packet of `key` at `time` with `len` bytes of payload:
/// the flow's burst is extended (or started), and a flow is created where
/// the key has none.
pub open spec fn touch(flows: Seq<FlowModel>, key: FlowKeyModel, time: u64, len: u32) -> Seq<FlowModel> {
    let i = find_flow(flows, key);
    if i >= 0 {
        flows.update(i, FlowModel { key, burst: Some(touched_burst(flows[i].burst, key, time, len)) })
    } else {
        flows.push(FlowModel { key, burst: Some(new_burst(key, time, len)) })
    }
}

/// The record at `queue_time` is at least `inactive_time` old at `now`.
pub open spec fn is_due(now: u64, queue_time: u64, inactive_time: u64) -> bool {
    now - queue_time >= inactive_time
}

/// The eviction sweep at `now`: the table and queue it leaves, and the bursts
/// it closes, in order. Records are popped while the oldest one is due; a
/// popped record closes its flow's burst where that burst still ends at the
/// record's time, and is discarded otherwise.
pub open spec fn sweep(
    flows: Seq<FlowModel>,
    queue: Seq<(usize, u64)>,
    now: u64,
    inactive_time: u64,
) -> (Seq<FlowModel>, Seq<(usize, u64)>, Seq<BurstModel>)
    decreases queue.len(),
{
    if queue.len() == 0 || !is_due(now, queue[0].1, inactive_time) {
        (flows, queue, Seq::empty())
    } else {
        let idx = queue[0].0 as int;
        let t = queue[0].1;
        let rest = queue.drop_first();
        if 0 <= idx < flows.len() && flows[idx].burst is Some && flows[idx].burst->Some_0.end == t {
            let b = BurstModel { completion_time: now, ..flows[idx].burst->Some_0 };
            let r = sweep(flows.update(idx, FlowModel { burst: None, ..flows[idx] }), rest, now, inactive_time);
            (r.0, r.1, seq![b] + r.2)
        } else {
            sweep(flows, rest, now, inactive_time)
        }
    }
}

/// The sweep time used when no packet came within the inactivity interval:
/// the last packet's time plus the interval, saturating at `u64::MAX`.
pub open spec fn timeout_time(last_time: u64, inactive_time: u64) -> u64 {
    if last_time + inactive_time > u64::MAX {
        u64::MAX
    } else {
        (last_time + inactive_time) as u64
    }
}

/// The state of a tracker, as plain values.
pub struct TrackerModel {
    pub inactive_time: u64,
    pub last_time: u64,
    pub flows: Seq<FlowModel>,
    pub queue: Seq<(usize, u64)>,
}

/// A tracker that has seen no packet.
pub open spec fn fresh_tracker(inactive_time: u64) -> TrackerModel {
    TrackerModel { inactive_time, last_time: 0, flows: Seq::empty(), queue: Seq::empty() }
}

/// A packet arrives: sweep at its time, then touch its flow and record the
/// touch. Gives the new state and the bursts closed.
pub open spec fn packet_step(s: TrackerModel, key: FlowKeyModel, time: u64, len: u32) -> (
    TrackerModel,
    Seq<BurstModel>,
) {
    let r = sweep(s.flows, s.queue, time, s.inactive_time);
    let flows = touch(r.0, key, time, len);
    (
        TrackerModel {
            inactive_time: s.inactive_time,
            last_time: time,
            flows,
            queue: r.1.push((find_flow(flows, key) as usize, time)),
        },
        r.2,
    )
}

/// No packet arrived within the interval: sweep at the estimated time.
pub open spec fn timeout_step(s: TrackerModel) -> (TrackerModel, Seq<BurstModel>) {
    let r = sweep(s.flows, s.queue, timeout_time(s.last_time, s.inactive_time), s.inactive_time);
    (TrackerModel { flows: r.0, queue: r.1, ..s }, r.2)
}

/// A flow of the table: its key and its current burst.
pub struct Flow {
    pub key: FlowKey,
    /// The current burst; `None` once it was closed and until the next packet.
    pub current_burst: Option<Burst>,
}

impl View for Flow {
    type V = FlowModel;

    open spec fn view(&self) -> FlowModel {
        FlowModel {
            key: self.key@,
            burst: match self.current_burst {
                Some(b) => Some(b@),
                None => None,
            },
        }
    }
}

/// Equality of two optional ports.
fn same_port(a: Option<u16>, b: Option<u16>) -> (r: bool)
    ensures
        r == (a == b),
{
    match (a, b) {
        (Some(x), Some(y)) => x == y,
        (None, None) => true,
        _ => false,
    }
}

impl FlowKey {
    /// Whether the two keys name the same flow.
    pub fn same_as(&self, other: &FlowKey) -> (r: bool)
        ensures
            r == (self@ == other@),
    {
        self.src == other.src && self.dst == other.dst && same_port(self.src_port, other.src_port)
            && same_port(self.dst_port, other.dst_port)
    }

    /// A copy of the key.
    pub fn duplicate(&self) -> (r: FlowKey)
        ensures
            r@ == self@,
    {
        FlowKey {
            src: self.src.clone(),
            dst: self.dst.clone(),
            src_port: self.src_port,
            dst_port: self.dst_port,
        }
    }
}

impl Burst {
    /// The burst that a first packet of `key` starts.
    pub fn from_packet(key: &FlowKey, time: u64, data_len: u32) -> (r: Burst)
        ensures
            r@ == new_burst(key@, time, data_len),
    {
        Burst {
            completion_time: time,
            src: key.src.clone(),
            dst: key.dst.clone(),
            src_port: key.src_port,
            dst_port: key.dst_port,
            start: time,
            end: time,
            num_packets: 1,
            size: data_len,
        }
    }
}

impl Flow {
    /// A new flow whose burst is started by a packet.
    pub fn new(key: FlowKey, time: u64, data_len: u32) -> (r: Flow)
        ensures
            r@ == (FlowModel { key: key@, burst: Some(new_burst(key@, time, data_len)) }),
    {
        let burst = Burst::from_packet(&key, time, data_len);
        Flow { key, current_burst: Some(burst) }
    }

    /// Extends the current burst by a packet, or starts one where the flow
    /// has none.
    pub fn add_packet(&mut self, time: u64, data_len: u32)
        ensures
            final(self)@ == (FlowModel {
                key: old(self)@.key,
                burst: Some(touched_burst(old(self)@.burst, old(self)@.key, time, data_len)),
            }),
    {
        match &mut self.current_burst {
            Some(burst) => {
                burst.end = time;
                burst.num_packets = if burst.num_packets < u16::MAX {
                    burst.num_packets + 1
                } else {
                    u16::MAX
                };
                burst.size = if burst.size <= u32::MAX - data_len {
                    burst.size + data_len
                } else {
                    u32::MAX
                };
            },
            None => {
                self.current_burst = Some(Burst::from_packet(&self.key, time, data_len));
            },
        }
    }
}

impl Flow {
    /// Takes the current burst out of the flow, leaving none.
    fn take_burst(&mut self) -> (r: Option<Burst>)
        ensures
            r == old(self).current_burst,
            final(self).key == old(self).key,
            final(self).current_burst is None,
    {
        let mut taken: Option<Burst> = None;
        std::mem::swap(&mut self.current_burst, &mut taken);
        taken
    }
}

/// The burst detector of one traffic domain: the flow table, the FIFO of
/// touch records, and the time of the latest packet. Times are microseconds.
pub struct BurstTracker {
    inactive_time: u64,
    last_time: u64,
    flows: Vec<Flow>,
    key_time_queue: Fifo<(usize, u64)>,
}

impl View for BurstTracker {
    type V = TrackerModel;

    closed spec fn view(&self) -> TrackerModel {
        TrackerModel {
            inactive_time: self.inactive_time,
            last_time: self.last_time,
            flows: self.flows@.map_values(|f: Flow| f@),
            queue: self.key_time_queue@,
        }
    }
}

impl BurstTracker {
    /// The tracker is consistent: flow keys are distinct, and every touch
    /// record names a flow of the table.
    pub closed spec fn wf(&self) -> bool {
        &&& self.inactive_time > 0
        &&& self.key_time_queue.wf()
        &&& keys_distinct(self@.flows)
        &&& forall|k: int|
            0 <= k < self@.queue.len() ==> (#[trigger] self@.queue[k]).0 < self@.flows.len()
    }

    /// A tracker that closes a burst after `inactive_time` microseconds of
    /// silence on its flow.
    pub fn new(inactive_time: u64) -> (r: BurstTracker)
        requires
            inactive_time > 0,
        ensures
            r.wf(),
            r@ == fresh_tracker(inactive_time),
    {
        let r = BurstTracker {
            inactive_time,
            last_time: 0,
            flows: Vec::new(),
            key_time_queue: Fifo::new(),
        };
        assert(r@.flows =~= Seq::<FlowModel>::empty());
        r
    }

    /// The number of touch records waiting in the queue.
    pub fn pending(&self) -> (r: usize)
        requires
            self.wf(),
        ensures
            r == self@.queue.len(),
    {
        self.key_time_queue.len()
    }

    /// The position of flow `key` in the table, by a linear search.
    fn find(&self, key: &FlowKey) -> (r: Option<usize>)
        requires
            self.wf(),
        ensures
            match r {
                Some(i) => i < self@.flows.len() && find_flow(self@.flows, key@) == i,
                None => find_flow(self@.flows, key@) == -1,
            },
    {
        let mut i: usize = 0;
        while i < self.flows.len()
            invariant
                self.wf(),
                i <= self.flows@.len(),
                forall|j: int| 0 <= j < i ==> self@.flows[j].key != key@,
            decreases self.flows@.len() - i,
        {
            if self.flows[i].key.same_as(key) {
                assert(self@.flows[i as int].key == key@);
                return Some(i);
            }
            i += 1;
        }
        None
    }

    /// Touches flow `key` with a packet and records the touch.
    fn add_packet(&mut self, key: FlowKey, time: u64, data_len: u32)
        requires
            old(self).wf(),
            old(self)@.queue.len() < usize::MAX / 2,
        ensures
            final(self).wf(),
            final(self)@ == (TrackerModel {
                flows: touch(old(self)@.flows, key@, time, data_len),
                queue: old(self)@.queue.push(
                    (find_flow(touch(old(self)@.flows, key@, time, data_len), key@) as usize, time),
                ),
                ..old(self)@
            }),
    {
        let ghost s0 = self@;
        let ghost k = key@;
        let ghost flows1 = touch(s0.flows, k, time, data_len);
        let i: usize = match self.find(&key) {
            Some(i) => {
                self.flows[i].add_packet(time, data_len);
                assert(self@.flows =~= flows1);
                i
            },
            None => {
                self.flows.push(Flow::new(key, time, data_len));
                assert(self@.flows =~= flows1);
                assert(self@.flows[self@.flows.len() - 1].key == k);
                self.flows.len() - 1
            },
        };
        assert(flows1[i as int].key == k);
        assert(keys_distinct(flows1)) by {
            assert forall|a: int, b: int|
                0 <= a < flows1.len() && 0 <= b < flows1.len() && #[trigger] flows1[a].key
                    == #[trigger] flows1[b].key implies a == b by {
                if a < s0.flows.len() && b < s0.flows.len() {
                    assert(s0.flows[a].key == flows1[a].key);
                    assert(s0.flows[b].key == flows1[b].key);
                }
            }
        }
        assert(find_flow(flows1, k) == i as int) by {
            let c = choose|c: int| 0 <= c < flows1.len() && #[trigger] flows1[c].key == k;
            assert(flows1[c].key == flows1[i as int].key);
        }
        self.key_time_queue.enqueue((i, time));
    }

    /// The eviction sweep at `current_time`: pops every touch record that is
    /// at least the inactivity interval old, and closes (with completion time
    /// `current_time`) the burst of each flow not touched since its record.
    /// Returns the closed bursts in the order they were closed.
    pub fn create_bursts(&mut self, current_time: u64) -> (r: Vec<Burst>)
        requires
            old(self).wf(),
        ensures
            final(self).wf(),
            final(self)@ == (TrackerModel {
                flows: sweep(old(self)@.flows, old(self)@.queue, current_time, old(self)@.inactive_time).0,
                queue: sweep(old(self)@.flows, old(self)@.queue, current_time, old(self)@.inactive_time).1,
                ..old(self)@
            }),
            burst_models(r@) == sweep(
                old(self)@.flows,
                old(self)@.queue,
                current_time,
                old(self)@.inactive_time,
            ).2,
    {
        let ghost s0 = self@;
        let ghost target = sweep(s0.flows, s0.queue, current_time, s0.inactive_time);
        let mut out: Vec<Burst> = Vec::new();
        loop
            invariant
                self.wf(),
                self@.inactive_time == s0.inactive_time,
                self@.last_time == s0.last_time,
                sweep(self@.flows, self@.queue, current_time, s0.inactive_time).0 == target.0,
                sweep(self@.flows, self@.queue, current_time, s0.inactive_time).1 == target.1,
                burst_models(out@) + sweep(self@.flows, self@.queue, current_time, s0.inactive_time).2
                    == target.2,
            ensures
                self.wf(),
                self@.inactive_time == s0.inactive_time,
                self@.last_time == s0.last_time,
                self@.flows == target.0,
                self@.queue == target.1,
                burst_models(out@) == target.2,
            decreases self@.queue.len(),
        {
            let ghost flows0 = self@.flows;
            let ghost queue0 = self@.queue;
            let ghost out0 = burst_models(out@);
            let (idx, queue_time) = match self.key_time_queue.peek() {
                Some(e) => *e,
                None => {
                    assert(out0 + Seq::<BurstModel>::empty() =~= out0);
                    break ;
                },
            };
            if !(current_time >= queue_time && current_time - queue_time >= self.inactive_time) {
                assert(out0 + Seq::<BurstModel>::empty() =~= out0);
                break ;
            }
            let _ = self.key_time_queue.dequeue();
            assert(self@.queue =~= queue0.drop_first());
            let live = match &self.flows[idx].current_burst {
                Some(b) => b.end == queue_time,
                None => false,
            };
            if live {
                let taken = self.flows[idx].take_burst();
                match taken {
                    Some(mut b) => {
                        b.completion_time = current_time;
                        let ghost bm = b@;
                        out.push(b);
                        assert(self@.flows =~= flows0.update(
                            idx as int,
                            FlowModel { burst: None, ..flows0[idx as int] },
                        ));
                        assert(burst_models(out@) =~= out0.push(bm));
                        assert(out0.push(bm) + sweep(self@.flows, self@.queue, current_time, s0.inactive_time).2
                            =~= out0 + (seq![bm] + sweep(self@.flows, self@.queue, current_time, s0.inactive_time).2));
                    },
                    None => {},
                }
            }
            assert(keys_distinct(self@.flows)) by {
                assert forall|a: int, b: int|
                    0 <= a < self@.flows.len() && 0 <= b < self@.flows.len() && #[trigger] self@.flows[a].key
                        == #[trigger] self@.flows[b].key implies a == b by {
                    assert(flows0[a].key == self@.flows[a].key);
                    assert(flows0[b].key == self@.flows[b].key);
                }
            }
            assert forall|k: int| 0 <= k < self@.queue.len() implies (#[trigger] self@.queue[k]).0
                < self@.flows.len() by {
                assert(self@.queue[k] == queue0[k + 1]);
            }
        }
        out
    }

    /// A packet of flow `key` arrived at `time` with `data_len` bytes of
    /// payload: sweep at the packet's time, then extend (or start) the flow's
    /// burst and record the touch. Returns the bursts that the sweep closed.
    pub fn on_packet(&mut self, key: FlowKey, time: u64, data_len: u32) -> (r: Vec<Burst>)
        requires
            old(self).wf(),
            old(self)@.queue.len() < usize::MAX / 2,
        ensures
            final(self).wf(),
            (final(self)@, burst_models(r@)) == packet_step(old(self)@, key@, time, data_len),
    {
        let ghost s0 = self@;
        proof {
            lemma_sweep_keeps_or_shrinks(s0.flows, s0.queue, time, s0.inactive_time);
        }
        self.last_time = time;
        let out = self.create_bursts(time);
        self.add_packet(key, time, data_len);
        out
    }

    /// No packet arrived within the inactivity interval: sweep at the time
    /// of the latest packet plus the interval. Returns the bursts closed.
    pub fn on_timeout(&mut self) -> (r: Vec<Burst>)
        requires
            old(self).wf(),
        ensures
            final(self).wf(),
            (final(self)@, burst_models(r@)) == timeout_step(old(self)@),
    {
        let now: u64 = if self.last_time > u64::MAX - self.inactive_time {
            u64::MAX
        } else {
            self.last_time + self.inactive_time
        };
        self.create_bursts(now)
    }
}

/// A sweep never adds touch records.
proof fn lemma_sweep_keeps_or_shrinks(
    flows: Seq<FlowModel>,
    queue: Seq<(usize, u64)>,
    now: u64,
    inactive_time: u64,
)
    ensures
        sweep(flows, queue, now, inactive_time).1.len() <= queue.len(),
    decreases queue.len(),
{
    if queue.len() > 0 && is_due(now, queue[0].1, inactive_time) {
        let idx = queue[0].0 as int;
        lemma_sweep_keeps_or_shrinks(flows, queue.drop_first(), now, inactive_time);
        if 0 <= idx < flows.len() {
            lemma_sweep_keeps_or_shrinks(
                flows.update(idx, FlowModel { burst: None, ..flows[idx] }),
                queue.drop_first(),
                now,
                inactive_time,
            );
        }
    }
}

/// An event of the input: a packet `(key, time, payload length)`, or `None`
/// where no packet came within the inactivity interval.
pub type Event = Option<(FlowKeyModel, u64, u32)>;

/// Feeds `events` to a tracker in state `s`, following the contracts of
/// `BurstTracker::on_packet` and `BurstTracker::on_timeout`. Gives the final
/// state and every burst closed, in order.
pub open spec fn run_events(s: TrackerModel, events: Seq<Event>) -> (TrackerModel, Seq<BurstModel>)
    decreases events.len(),
{
    if events.len() == 0 {
        (s, Seq::empty())
    } else {
        let step = match events[0] {
            Some(p) => packet_step(s, p.0, p.1, p.2),
            None => timeout_step(s),
        };
        let rest = run_events(step.0, events.drop_first());
        (rest.0, step.1 + rest.1)
    }
}

/// The packets of `events` come in non-decreasing time order.
pub open spec fn packets_sorted(events: Seq<Event>) -> bool {
    forall|i: int, j: int|
        0 <= i < j < events.len() && events[i] is Some && events[j] is Some ==> (
        #[trigger] events[i])->Some_0.1 <= (#[trigger] events[j])->Some_0.1
}

/// Every open burst of the table starts no later than it ends, and ends no
/// later than `t`.
pub open spec fn bursts_within(flows: Seq<FlowModel>, t: u64) -> bool {
    forall|i: int|
        0 <= i < flows.len() && (#[trigger] flows[i]).burst is Some ==> flows[i].burst->Some_0.start
            <= flows[i].burst->Some_0.end <= t
}

/// A closed burst starts no later than it ends, and ends no later than it
/// was closed.
pub open spec fn well_timed(b: BurstModel) -> bool {
    b.start <= b.end <= b.completion_time
}

proof fn lemma_sweep_well_timed(flows: Seq<FlowModel>, queue: Seq<(usize, u64)>, now: u64, inactive_time: u64, t: u64)
    requires
        bursts_within(flows, t),
    ensures
        bursts_within(sweep(flows, queue, now, inactive_time).0, t),
        forall|k: int|
            0 <= k < sweep(flows, queue, now, inactive_time).2.len() ==> well_timed(
                #[trigger] sweep(flows, queue, now, inactive_time).2[k],
            ),
    decreases queue.len(),
{
    if queue.len() > 0 && is_due(now, queue[0].1, inactive_time) {
        let idx = queue[0].0 as int;
        let rest = queue.drop_first();
        if 0 <= idx < flows.len() && flows[idx].burst is Some && flows[idx].burst->Some_0.end == queue[0].1 {
            let flows1 = flows.update(idx, FlowModel { burst: None, ..flows[idx] });
            assert(bursts_within(flows1, t)) by {
                assert forall|i: int| 0 <= i < flows1.len() && (#[trigger] flows1[i]).burst is Some implies flows1[i].burst->Some_0.start
                    <= flows1[i].burst->Some_0.end <= t by {
                    assert(flows1[i] == flows[i]);
                }
            }
            lemma_sweep_well_timed(flows1, rest, now, inactive_time, t);
            let b = BurstModel { completion_time: now, ..flows[idx].burst->Some_0 };
            let r = sweep(flows1, rest, now, inactive_time);
            assert(well_timed(b));
            assert forall|k: int| 0 <= k < (seq![b] + r.2).len() implies well_timed(#[trigger] (seq![b] + r.2)[k]) by {
                if k > 0 {
                    assert((seq![b] + r.2)[k] == r.2[k - 1]);
                }
            }
        } else {
            lemma_sweep_well_timed(flows, rest, now, inactive_time, t);
        }
    }
}

proof fn lemma_touch_within(flows: Seq<FlowModel>, key: FlowKeyModel, time: u64, len: u32, t: u64)
    requires
        bursts_within(flows, t),
        t <= time,
    ensures
        bursts_within(touch(flows, key, time, len), time),
{
    let f = touch(flows, key, time, len);
    let i = find_flow(flows, key);
    if i >= 0 {
        assert(0 <= i < flows.len() && flows[i].key == key);
    }
    assert forall|j: int| 0 <= j < f.len() && (#[trigger] f[j]).burst is Some implies f[j].burst->Some_0.start
        <= f[j].burst->Some_0.end <= time by {
        if j < flows.len() && j != i {
            assert(f[j] == flows[j]);
        }
    }
}

proof fn lemma_run_well_timed(s: TrackerModel, events: Seq<Event>)
    requires
        bursts_within(s.flows, s.last_time),
        packets_sorted(events),
        forall|i: int| 0 <= i < events.len() && (#[trigger] events[i]) is Some ==> s.last_time <= events[i]->Some_0.1,
    ensures
        forall|k: int| 0 <= k < run_events(s, events).1.len() ==> well_timed(#[trigger] run_events(s, events).1[k]),
    decreases events.len(),
{
    if events.len() > 0 {
        let rest = events.drop_first();
        let step = match events[0] {
            Some(p) => packet_step(s, p.0, p.1, p.2),
            None => timeout_step(s),
        };
        match events[0] {
            Some(p) => {
                lemma_sweep_well_timed(s.flows, s.queue, p.1, s.inactive_time, s.last_time);
                let r = sweep(s.flows, s.queue, p.1, s.inactive_time);
                lemma_touch_within(r.0, p.0, p.1, p.2, s.last_time);
                assert forall|i: int| 0 <= i < rest.len() && (#[trigger] rest[i]) is Some implies step.0.last_time <= rest[i]->Some_0.1 by {
                    assert(rest[i] == events[i + 1]);
                    assert(events[0] is Some);
                }
            },
            None => {
                lemma_sweep_well_timed(
                    s.flows,
                    s.queue,
                    timeout_time(s.last_time, s.inactive_time),
                    s.inactive_time,
                    s.last_time,
                );
                assert forall|i: int| 0 <= i < rest.len() && (#[trigger] rest[i]) is Some implies step.0.last_time <= rest[i]->Some_0.1 by {
                    assert(rest[i] == events[i + 1]);
                }
            },
        }
        assert(packets_sorted(rest)) by {
            assert forall|i: int, j: int|
                0 <= i < j < rest.len() && rest[i] is Some && rest[j] is Some implies (
                #[trigger] rest[i])->Some_0.1 <= (#[trigger] rest[j])->Some_0.1 by {
                assert(rest[i] == events[i + 1]);
                assert(rest[j] == events[j + 1]);
            }
        }
        lemma_run_well_timed(step.0, rest);
        let r = run_events(step.0, rest);
        assert forall|k: int| 0 <= k < (step.1 + r.1).len() implies well_timed(#[trigger] (step.1 + r.1)[k]) by {
            if k >= step.1.len() {
                assert((step.1 + r.1)[k] == r.1[k - step.1.len()]);
            }
        }
    }
}

/// For every inactivity interval and every stream whose packets come in
/// non-decreasing time order, each burst closed starts no later than it
/// ends, and ends no later than it was closed.
pub proof fn lemma_bursts_well_timed(inactive_time: u64, events: Seq<Event>)
    requires
        inactive_time > 0,
        packets_sorted(events),
    ensures
        forall|k: int|
            0 <= k < run_events(fresh_tracker(inactive_time), events).1.len() ==> well_timed(
                #[trigger] run_events(fresh_tracker(inactive_time), events).1[k],
            ),
{
    lemma_run_well_timed(fresh_tracker(inactive_time), events);
}

/// Replaying the same stream through two fresh trackers with the same
/// interval gives the same bursts, in the same order, and the same state.
pub proof fn lemma_replay_identical(inactive_time: u64, a: TrackerModel, b: TrackerModel, events: Seq<Event>)
    requires
        a == fresh_tracker(inactive_time),
        b == fresh_tracker(inactive_time),
    ensures
        run_events(a, events) == run_events(b, events),
{
}

/// A flow whose oldest touch record is exactly `inactive_time` old is
/// closed: the equality counts as idle.
pub proof fn lemma_closed_at_boundary(flows: Seq<FlowModel>, queue: Seq<(usize, u64)>, inactive_time: u64)
    requires
        queue.len() > 0,
        queue[0].0 < flows.len(),
        flows[queue[0].0 as int].burst is Some,
        flows[queue[0].0 as int].burst->Some_0.end == queue[0].1,
        queue[0].1 + inactive_time <= u64::MAX,
    ensures
        ({
            let now = (queue[0].1 + inactive_time) as u64;
            let r = sweep(flows, queue, now, inactive_time);
            r.2.len() > 0 && r.2[0] == (BurstModel {
                completion_time: now,
                ..flows[queue[0].0 as int].burst->Some_0
            })
        }),
{
}

/// Two packets of one flow, less than the interval apart, leave two touch
/// records; when the flow then goes idle exactly one burst is closed, and it
/// holds both packets.
pub proof fn lemma_retouch_closes_once(
    inactive_time: u64,
    key: FlowKeyModel,
    t1: u64,
    len1: u32,
    t2: u64,
    len2: u32,
)
    requires
        inactive_time > 0,
        t1 <= t2,
        t2 - t1 < inactive_time,
        t2 + inactive_time <= u64::MAX,
    ensures
        run_events(
            fresh_tracker(inactive_time),
            seq![Some((key, t1, len1)), Some((key, t2, len2)), None],
        ).1 == seq![
            BurstModel {
                completion_time: (t2 + inactive_time) as u64,
                end: t2,
                num_packets: 2,
                size: saturate_u32(len1 + len2),
                ..new_burst(key, t1, len1)
            },
        ],
{
    let events: Seq<Event> = seq![Some((key, t1, len1)), Some((key, t2, len2)), None];
    let s0 = fresh_tracker(inactive_time);
    // First packet: a new flow at position 0, one record.
    let f1 = seq![FlowModel { key, burst: Some(new_burst(key, t1, len1)) }];
    assert(touch(Seq::empty(), key, t1, len1) =~= f1);
    assert(find_flow(f1, key) == 0) by {
        assert(f1[0].key == key);
    }
    let s1 = packet_step(s0, key, t1, len1).0;
    assert(s1.flows == f1);
    assert(s1.queue =~= seq![(0usize, t1)]);
    assert(packet_step(s0, key, t1, len1).1 =~= Seq::<BurstModel>::empty());
    // Second packet: the record of the first is not yet due; the burst grows.
    assert(sweep(f1, s1.queue, t2, inactive_time) == (f1, s1.queue, Seq::<BurstModel>::empty()));
    let b2 = extend_burst(new_burst(key, t1, len1), t2, len2);
    let f2 = seq![FlowModel { key, burst: Some(b2) }];
    assert(find_flow(f1, key) == 0);
    assert(touch(f1, key, t2, len2) =~= f2);
    assert(find_flow(f2, key) == 0) by {
        assert(f2[0].key == key);
    }
    let s2 = packet_step(s1, key, t2, len2).0;
    assert(s2.flows == f2);
    assert(s2.queue =~= seq![(0usize, t1), (0usize, t2)]);
    // The timeout: both records are due; exactly one of them is live.
    let now = timeout_time(s2.last_time, inactive_time);
    assert(now == t2 + inactive_time);
    let b = BurstModel { completion_time: now, ..b2 };
    let f3 = seq![FlowModel { key, burst: None }];
    let q = s2.queue;
    let q1 = q.drop_first();
    assert(q1 =~= seq![(0usize, t2)]);
    assert(q1.drop_first() =~= Seq::<(usize, u64)>::empty());
    assert(is_due(now, t2, inactive_time));
    assert(is_due(now, t1, inactive_time));
    assert(sweep(f3, q1.drop_first(), now, inactive_time).2 == Seq::<BurstModel>::empty());
    assert(seq![b] + Seq::<BurstModel>::empty() =~= seq![b]);
    if t1 == t2 {
        assert(f2.update(0, FlowModel { burst: None, ..f2[0] }) =~= f3);
        assert(sweep(f3, q1, now, inactive_time).2 == Seq::<BurstModel>::empty());
        assert(sweep(f2, q, now, inactive_time).2 =~= seq![b]);
    } else {
        assert(f2.update(0, FlowModel { burst: None, ..f2[0] }) =~= f3);
        assert(f2[0].burst->Some_0.end == t2);
        assert(sweep(f2, q1, now, inactive_time).2 =~= seq![b]);
        assert(sweep(f2, q, now, inactive_time).2 =~= seq![b]);
    }
    let st3 = timeout_step(s2);
    assert(st3.1 =~= seq![b]);
    assert(events.drop_first().drop_first().drop_first() =~= Seq::<Event>::empty());
    assert(run_events(st3.0, events.drop_first().drop_first().drop_first()).1 =~= Seq::<BurstModel>::empty());
    assert(run_events(s2, events.drop_first().drop_first()).1 =~= seq![b]);
    assert(run_events(s1, events.drop_first()).1 =~= seq![b]);
    assert(run_events(s0, events).1 =~= seq![b]);
}

/// The endpoints and ports of a burst, as a flow key.
pub open spec fn burst_key(b: BurstModel) -> FlowKeyModel {
    FlowKeyModel { src: b.src, dst: b.dst, src_port: b.src_port, dst_port: b.dst_port }
}

/// Every open burst of the table carries the key of its own flow.
pub open spec fn bursts_match_keys(flows: Seq<FlowModel>) -> bool {
    forall|i: int|
        0 <= i < flows.len() && (#[trigger] flows[i]).burst is Some ==> burst_key(
            flows[i].burst->Some_0,
        ) == flows[i].key
}

/// `k` is the key of some packet of `events`.
pub open spec fn key_of_packet(events: Seq<Event>, k: FlowKeyModel) -> bool {
    exists|i: int| 0 <= i < events.len() && (#[trigger] events[i]) is Some && events[i]->Some_0.0 == k
}

proof fn lemma_sweep_keeps_keys(
    flows: Seq<FlowModel>,
    queue: Seq<(usize, u64)>,
    now: u64,
    inactive_time: u64,
    seen: Set<FlowKeyModel>,
)
    requires
        bursts_match_keys(flows),
        forall|i: int| 0 <= i < flows.len() ==> seen.contains(#[trigger] flows[i].key),
    ensures
        bursts_match_keys(sweep(flows, queue, now, inactive_time).0),
        forall|i: int|
            0 <= i < sweep(flows, queue, now, inactive_time).0.len() ==> seen.contains(
                #[trigger] sweep(flows, queue, now, inactive_time).0[i].key,
            ),
        forall|k: int|
            0 <= k < sweep(flows, queue, now, inactive_time).2.len() ==> seen.contains(
                burst_key(#[trigger] sweep(flows, queue, now, inactive_time).2[k]),
            ),
    decreases queue.len(),
{
    if queue.len() > 0 && is_due(now, queue[0].1, inactive_time) {
        let idx = queue[0].0 as int;
        let rest = queue.drop_first();
        if 0 <= idx < flows.len() && flows[idx].burst is Some && flows[idx].burst->Some_0.end == queue[0].1 {
            let flows1 = flows.update(idx, FlowModel { burst: None, ..flows[idx] });
            assert forall|i: int| 0 <= i < flows1.len() implies seen.contains(#[trigger] flows1[i].key) by {
                assert(flows1[i].key == flows[i].key);
            }
            assert(bursts_match_keys(flows1)) by {
                assert forall|i: int| 0 <= i < flows1.len() && (#[trigger] flows1[i]).burst is Some implies burst_key(
                    flows1[i].burst->Some_0,
                ) == flows1[i].key by {
                    assert(flows1[i] == flows[i]);
                }
            }
            lemma_sweep_keeps_keys(flows1, rest, now, inactive_time, seen);
            let b = BurstModel { completion_time: now, ..flows[idx].burst->Some_0 };
            let r = sweep(flows1, rest, now, inactive_time);
            assert(seen.contains(burst_key(b))) by {
                assert(seen.contains(flows[idx].key));
            }
            assert forall|k: int| 0 <= k < (seq![b] + r.2).len() implies seen.contains(
                burst_key(#[trigger] (seq![b] + r.2)[k]),
            ) by {
                if k > 0 {
                    assert((seq![b] + r.2)[k] == r.2[k - 1]);
                }
            }
        } else {
            lemma_sweep_keeps_keys(flows, rest, now, inactive_time, seen);
        }
    }
}

proof fn lemma_touch_keeps_keys(flows: Seq<FlowModel>, key: FlowKeyModel, time: u64, len: u32, seen: Set<FlowKeyModel>)
    requires
        bursts_match_keys(flows),
        forall|i: int| 0 <= i < flows.len() ==> seen.contains(#[trigger] flows[i].key),
    ensures
        bursts_match_keys(touch(flows, key, time, len)),
        forall|i: int|
            0 <= i < touch(flows, key, time, len).len() ==> seen.insert(key).contains(
                #[trigger] touch(flows, key, time, len)[i].key,
            ),
{
    let f = touch(flows, key, time, len);
    let i = find_flow(flows, key);
    if i >= 0 {
        assert(0 <= i < flows.len() && flows[i].key == key);
    }
    assert forall|j: int| 0 <= j < f.len() implies seen.insert(key).contains(#[trigger] f[j].key) by {
        if j < flows.len() && j != i {
            assert(f[j] == flows[j]);
        }
    }
    assert forall|j: int| 0 <= j < f.len() && (#[trigger] f[j]).burst is Some implies burst_key(f[j].burst->Some_0)
        == f[j].key by {
        if j < flows.len() && j != i {
            assert(f[j] == flows[j]);
        }
    }
}

proof fn lemma_run_keeps_keys(s: TrackerModel, events: Seq<Event>, seen: Set<FlowKeyModel>)
    requires
        bursts_match_keys(s.flows),
        forall|i: int| 0 <= i < s.flows.len() ==> seen.contains(#[trigger] s.flows[i].key),
    ensures
        forall|k: int|
            0 <= k < run_events(s, events).1.len() ==> seen.contains(burst_key(#[trigger] run_events(s, events).1[k]))
                || key_of_packet(events, burst_key(run_events(s, events).1[k])),
    decreases events.len(),
{
    if events.len() > 0 {
        let rest = events.drop_first();
        let step = match events[0] {
            Some(p) => packet_step(s, p.0, p.1, p.2),
            None => timeout_step(s),
        };
        let seen1 = match events[0] {
            Some(p) => seen.insert(p.0),
            None => seen,
        };
        match events[0] {
            Some(p) => {
                lemma_sweep_keeps_keys(s.flows, s.queue, p.1, s.inactive_time, seen);
                let r = sweep(s.flows, s.queue, p.1, s.inactive_time);
                lemma_touch_keeps_keys(r.0, p.0, p.1, p.2, seen);
            },
            None => {
                lemma_sweep_keeps_keys(
                    s.flows,
                    s.queue,
                    timeout_time(s.last_time, s.inactive_time),
                    s.inactive_time,
                    seen,
                );
            },
        }
        lemma_run_keeps_keys(step.0, rest, seen1);
        let r = run_events(step.0, rest);
        assert forall|k: int| 0 <= k < (step.1 + r.1).len() implies seen.contains(burst_key(#[trigger] (step.1 + r.1)[k]))
            || key_of_packet(events, burst_key((step.1 + r.1)[k])) by {
            let bk = burst_key((step.1 + r.1)[k]);
            if k >= step.1.len() {
                assert((step.1 + r.1)[k] == r.1[k - step.1.len()]);
                if key_of_packet(rest, bk) {
                    let i = choose|i: int| 0 <= i < rest.len() && (#[trigger] rest[i]) is Some && rest[i]->Some_0.0 == bk;
                    assert(events[i + 1] == rest[i]);
                } else if !seen.contains(bk) {
                    assert(events[0] is Some && events[0]->Some_0.0 == bk);
                }
            }
        }
    }
}

/// Flows never mix: every burst closed carries the endpoints and ports of a
/// packet of the stream, and a packet only ever extends the burst of the
/// flow with its own key (see `touch`).
pub proof fn lemma_bursts_keep_their_flow(inactive_time: u64, events: Seq<Event>)
    ensures
        forall|k: int|
            0 <= k < run_events(fresh_tracker(inactive_time), events).1.len() ==> key_of_packet(
                events,
                burst_key(#[trigger] run_events(fresh_tracker(inactive_time), events).1[k]),
            ),
{
    lemma_run_keeps_keys(fresh_tracker(inactive_time), events, Set::empty());
}

} // verus!
