//! The playback engine: a state machine over the immutable event stream,
//! with a current position and simulated time, pause and loop flags, two
//! optional range markers, per-object breakpoints, and per-object running
//! counters for presentation.
//!
//! The active play window is `[marker_a.unwrap_or(0),
//! marker_b.unwrap_or(num_events))`; batch advancement never crosses the
//! window end, and an event of a breakpoint-flagged object halts the batch
//! immediately after that event.

use vstd::prelude::*;
use crate::kind::EventKind;
use crate::records::{Records, EventRecord};

verus! {

/// Ticks per second of the periodic timer driving `Realtime` playback.
pub const TICK_FPS: u64 = 30;

/// The timing discipline a tick advances the stream under.
#[derive(Debug, Clone, Copy, PartialEq, Eq, Structural)]
pub enum PlaybackMode {
    /// Each tick advances a fixed number of events.
    FrameStep,
    /// Each tick advances the target time by the play speed in seconds.
    FrameTime,
    /// Each tick advances the target time by one tick's worth of trace time.
    Realtime,
}

/// Mutable playback session state.
#[derive(Debug, Clone, Copy, PartialEq, Eq, Structural)]
pub struct Status {
    /// Total number of events in the stream.
    pub num_events: usize,
    /// Current position: index of the next unconsumed event.
    pub cur_event: usize,
    /// Timestamp of the last event in the stream, in nanoseconds.
    pub end_time_ns: u64,
    /// Current simulated time, in nanoseconds.
    pub cur_time_ns: u64,
    /// Optional lower bound of the play window.
    pub marker_a: Option<usize>,
    /// Optional upper bound of the play window.
    pub marker_b: Option<usize>,
    /// Whether reaching the window end wraps back to its start.
    pub looping: bool,
    /// Whether playback is paused.
    pub paused: bool,
}

/// First position of the active play window.
pub open spec fn first_play(st: Status) -> int {
    match st.marker_a {
        Some(a) => a as int,
        None => 0,
    }
}

/// One past the last position of the active play window.
pub open spec fn last_play(st: Status) -> int {
    match st.marker_b {
        Some(b) => if b < st.num_events {
            b as int
        } else {
            st.num_events as int
        },
        None => st.num_events as int,
    }
}

/// Largest `time_ns` in the stream; zero when it is empty.
pub open spec fn spec_max_time(recs: Seq<EventRecord>) -> u64
    decreases recs.len(),
{
    if recs.len() == 0 {
        0
    } else if recs.last().time_ns > spec_max_time(recs.drop_last()) {
        recs.last().time_ns
    } else {
        spec_max_time(recs.drop_last())
    }
}

impl Status {
    /// A fresh session over the given record stream: positioned at the
    /// start, time zero, no markers, looping on, paused.
    pub fn new(records: &Records) -> (r: Status)
        ensures
            r == (Status {
                num_events: records.records().len() as usize,
                cur_event: 0,
                end_time_ns: spec_max_time(records.records()),
                cur_time_ns: 0,
                marker_a: None::<usize>,
                marker_b: None::<usize>,
                looping: true,
                paused: true,
            }),
    {
        let recs = records.slice();
        let mut end: u64 = 0;
        let mut i: usize = 0;
        proof {
            assert(records.records().take(0) =~= Seq::<EventRecord>::empty());
        }
        while i < recs.len()
            invariant
                0 <= i <= records.records().len(),
                recs@ == records.records(),
                end == spec_max_time(records.records().take(i as int)),
            decreases records.records().len() - i,
        {
            proof {
                assert(records.records().take(i as int + 1).drop_last() =~= records.records().take(
                    i as int,
                ));
            }
            if recs[i].time_ns > end {
                end = recs[i].time_ns;
            }
            i = i + 1;
        }
        proof {
            assert(records.records().take(records.records().len() as int) =~= records.records());
        }
        Status {
            num_events: recs.len(),
            cur_event: 0,
            end_time_ns: end,
            cur_time_ns: 0,
            marker_a: None,
            marker_b: None,
            looping: true,
            paused: true,
        }
    }

    /// Reset the position and simulated time to the stream start.
    pub fn reset(&mut self)
        ensures
            *final(self) == (Status { cur_event: 0, cur_time_ns: 0, ..*old(self) }),
    {
        self.cur_event = 0;
        self.cur_time_ns = 0;
    }
}

/// Outcome of one batch advancement: how many events were consumed, and
/// whether a breakpoint halted the batch.
#[derive(Debug, Clone, Copy, PartialEq, Eq, Structural)]
pub struct FaultProcessResult {
    /// Whether the batch halted on a breakpoint-flagged object's event.
    pub hit_breakpoint: bool,
    /// Number of events consumed, the halting event included.
    pub count: usize,
}

/// Per-object running counters accumulated during playback.
#[derive(Debug, Clone, Copy, PartialEq, Eq, Structural)]
pub struct ObjCount {
    /// Stable index of the object.
    pub obj_id: usize,
    /// Fault-side events consumed for this object since the last reset.
    pub faults: u64,
    /// Miss-side events consumed for this object since the last reset.
    pub misses: u64,
}

/// Whether object `id` is breakpoint-flagged.
pub open spec fn flagged(bs: Seq<usize>, id: usize) -> bool {
    bs.contains(id)
}

/// The flag list holds each object id at most once.
pub open spec fn distinct_ids(bs: Seq<usize>) -> bool {
    forall|i: int, j: int| 0 <= i < j < bs.len() ==> bs[i] != bs[j]
}

/// The batch scan: consume up to `budget` events from `start` without
/// crossing `last`; an event of a flagged object is consumed and halts the
/// batch. Returns the number consumed and whether a flag halted it.
pub open spec fn spec_scan_batch(
    recs: Seq<EventRecord>,
    start: int,
    last: int,
    budget: int,
    bs: Seq<usize>,
) -> (int, bool)
    decreases last - start,
{
    if budget <= 0 || start >= last {
        (0, false)
    } else if flagged(bs, recs[start].obj_id as usize) {
        (1, true)
    } else {
        let r = spec_scan_batch(recs, start + 1, last, budget - 1, bs);
        (r.0 + 1, r.1)
    }
}

/// The batch scan consumes at most its budget and never crosses the window
/// end.
pub proof fn lemma_scan_batch_bounds(
    recs: Seq<EventRecord>,
    start: int,
    last: int,
    budget: int,
    bs: Seq<usize>,
)
    ensures
        0 <= spec_scan_batch(recs, start, last, budget, bs).0,
        spec_scan_batch(recs, start, last, budget, bs).0 <= budget || budget < 0,
        start + spec_scan_batch(recs, start, last, budget, bs).0 <= last || start >= last,
    decreases last - start,
{
    if !(budget <= 0 || start >= last) {
        lemma_scan_batch_bounds(recs, start + 1, last, budget - 1, bs);
    }
}

/// Breakpoint law: when the first flagged event within reach sits `k`
/// events ahead, the batch consumes exactly those `k` events and the
/// flagged one, and reports the hit; with no flagged event in reach, the
/// batch runs to its budget or the window end without a hit.
pub proof fn lemma_scan_batch_breakpoint(
    recs: Seq<EventRecord>,
    start: int,
    last: int,
    budget: int,
    bs: Seq<usize>,
    k: int,
)
    requires
        0 <= k,
        start + k < last,
        k < budget,
        flagged(bs, recs[start + k].obj_id as usize),
        forall|j: int| start <= j < start + k ==> !flagged(bs, (#[trigger] recs[j]).obj_id as usize),
    ensures
        spec_scan_batch(recs, start, last, budget, bs) == (k + 1, true),
    decreases k,
{
    if k > 0 {
        lemma_scan_batch_breakpoint(recs, start + 1, last, budget - 1, bs, k - 1);
    }
}

/// With no flagged event among the next `n = min(budget, last - start)`
/// events, the batch consumes exactly `n` and reports no hit.
pub proof fn lemma_scan_batch_no_hit(
    recs: Seq<EventRecord>,
    start: int,
    last: int,
    budget: int,
    bs: Seq<usize>,
)
    requires
        forall|j: int|
            start <= j < last && j - start < budget ==> !flagged(
                bs,
                (#[trigger] recs[j]).obj_id as usize,
            ),
    ensures
        spec_scan_batch(recs, start, last, budget, bs).1 == false,
        budget >= 0 && start <= last ==> spec_scan_batch(recs, start, last, budget, bs).0 == (
        if budget <= last - start {
            budget
        } else {
            last - start
        }),
    decreases last - start,
{
    if !(budget <= 0 || start >= last) {
        lemma_scan_batch_no_hit(recs, start + 1, last, budget - 1, bs);
    }
}

/// Bump one object counter by one consumed record, saturating at
/// `u64::MAX`.
pub open spec fn spec_bumped(c: ObjCount, r: EventRecord) -> ObjCount {
    if EventKind::spec_from_code(r.kind).spec_is_miss() {
        ObjCount {
            misses: if c.misses < u64::MAX {
                (c.misses + 1) as u64
            } else {
                c.misses
            },
            ..c
        }
    } else {
        ObjCount {
            faults: if c.faults < u64::MAX {
                (c.faults + 1) as u64
            } else {
                c.faults
            },
            ..c
        }
    }
}

/// First counter slot for object `id`, or `-1`.
pub open spec fn spec_find_count(s: Seq<ObjCount>, id: usize) -> int
    decreases s.len(),
{
    if s.len() == 0 {
        -1
    } else if s[0].obj_id == id {
        0
    } else {
        let r = spec_find_count(s.drop_first(), id);
        if r == -1 {
            -1
        } else {
            r + 1
        }
    }
}

/// `spec_find_count` returns either `-1` with no slot for `id`, or the
/// first slot index holding `id`.
pub proof fn lemma_spec_find_count(s: Seq<ObjCount>, id: usize)
    ensures
        spec_find_count(s, id) == -1 ==> forall|j: int|
            0 <= j < s.len() ==> (#[trigger] s[j]).obj_id != id,
        spec_find_count(s, id) != -1 ==> {
            let r = spec_find_count(s, id);
            &&& 0 <= r < s.len()
            &&& s[r].obj_id == id
            &&& forall|j: int| 0 <= j < r ==> (#[trigger] s[j]).obj_id != id
        },
    decreases s.len(),
{
    if s.len() > 0 {
        lemma_spec_find_count(s.drop_first(), id);
        assert(forall|j: int| 1 <= j < s.len() ==> s[j] == s.drop_first()[j - 1]);
    }
}

/// Fold one consumed record into the counter list: bump the object's slot,
/// creating it at zero first when absent.
pub open spec fn spec_bump_counts(s: Seq<ObjCount>, r: EventRecord) -> Seq<ObjCount> {
    let id = r.obj_id as usize;
    let i = spec_find_count(s, id);
    if i == -1 {
        s.push(spec_bumped(ObjCount { obj_id: id, faults: 0, misses: 0 }, r))
    } else {
        s.update(i, spec_bumped(s[i], r))
    }
}

/// Fold `count` consumed records starting at `start` into the counter list.
pub open spec fn spec_bump_all(
    s: Seq<ObjCount>,
    recs: Seq<EventRecord>,
    start: int,
    count: int,
) -> Seq<ObjCount>
    decreases count,
{
    if count <= 0 {
        s
    } else {
        spec_bump_counts(spec_bump_all(s, recs, start, count - 1), recs[start + count - 1])
    }
}

/// The playback engine: session status, breakpoint flags, and per-object
/// counters, advancing over an immutable record stream.
#[derive(Debug)]
pub struct Player {
    /// Mutable session state.
    pub status: Status,
    /// Breakpoint-flagged object ids. Mutate only through `toggle_break`.
    pub breaks: Vec<usize>,
    /// Per-object running counters. Mutate only through the engine.
    pub counts: Vec<ObjCount>,
}

impl Player {
    /// The breakpoint-flagged object ids.
    pub open spec fn breaks(&self) -> Seq<usize> {
        self.breaks@
    }

    /// The per-object running counters.
    pub open spec fn counts(&self) -> Seq<ObjCount> {
        self.counts@
    }

    /// The engine is well-formed over a record stream: the status counts
    /// that stream's events and stays within it.
    pub open spec fn wf(&self, records: Records) -> bool {
        &&& self.status.num_events == records.records().len()
        &&& distinct_ids(self.breaks@)
        &&& self.status.cur_event <= self.status.num_events
        &&& (self.status.marker_a matches Some(a) ==> a <= self.status.num_events)
        &&& (self.status.marker_b matches Some(b) ==> b <= self.status.num_events)
    }

    /// A fresh engine over the given status: no breakpoints, no counters.
    pub fn new(status: Status) -> (r: Player)
        ensures
            r.status == status,
            r.breaks() == Seq::<usize>::empty(),
            r.counts() == Seq::<ObjCount>::empty(),
    {
        let r = Player { status, breaks: Vec::new(), counts: Vec::new() };
        proof {
            assert(r.breaks() =~= Seq::<usize>::empty());
            assert(r.counts() =~= Seq::<ObjCount>::empty());
        }
        r
    }

    /// First position of the active play window.
    pub fn get_first_play_event(&self) -> (r: usize)
        ensures
            r == first_play(self.status),
    {
        match self.status.marker_a {
            Some(a) => a,
            None => 0,
        }
    }

    /// One past the last position of the active play window.
    pub fn get_last_play_event(&self) -> (r: usize)
        ensures
            r == last_play(self.status),
    {
        match self.status.marker_b {
            Some(b) => if b < self.status.num_events {
                b
            } else {
                self.status.num_events
            },
            None => self.status.num_events,
        }
    }

    /// Pause or resume playback.
    pub fn set_pause(&mut self, pause: bool)
        ensures
            final(self).status == (Status { paused: pause, ..old(self).status }),
            final(self).breaks() == old(self).breaks(),
            final(self).counts() == old(self).counts(),
    {
        self.status.paused = pause;
    }

    /// Toggle looping.
    pub fn toggle_loop(&mut self)
        ensures
            final(self).status == (Status { looping: !old(self).status.looping, ..old(self).status }),
            final(self).breaks() == old(self).breaks(),
            final(self).counts() == old(self).counts(),
    {
        self.status.looping = !self.status.looping;
    }

    /// Toggle marker A at the current position: setting it again at the
    /// same position clears it.
    pub fn toggle_marker_a(&mut self)
        ensures
            final(self).status == (Status {
                marker_a: if old(self).status.marker_a == Some(old(self).status.cur_event) {
                    None
                } else {
                    Some(old(self).status.cur_event)
                },
                ..old(self).status
            }),
            final(self).breaks() == old(self).breaks(),
            final(self).counts() == old(self).counts(),
    {
        let clear = match self.status.marker_a {
            Some(a) => a == self.status.cur_event,
            None => false,
        };
        if clear {
            self.status.marker_a = None;
        } else {
            self.status.marker_a = Some(self.status.cur_event);
        }
    }

    /// Toggle marker B at the current position: setting it again at the
    /// same position clears it.
    pub fn toggle_marker_b(&mut self)
        ensures
            final(self).status == (Status {
                marker_b: if old(self).status.marker_b == Some(old(self).status.cur_event) {
                    None
                } else {
                    Some(old(self).status.cur_event)
                },
                ..old(self).status
            }),
            final(self).breaks() == old(self).breaks(),
            final(self).counts() == old(self).counts(),
    {
        let clear = match self.status.marker_b {
            Some(b) => b == self.status.cur_event,
            None => false,
        };
        if clear {
            self.status.marker_b = None;
        } else {
            self.status.marker_b = Some(self.status.cur_event);
        }
    }

    /// Whether object `id` is breakpoint-flagged.
    pub fn is_flagged(&self, id: usize) -> (r: bool)
        ensures
            r == flagged(self.breaks(), id),
    {
        let mut i: usize = 0;
        while i < self.breaks.len()
            invariant
                0 <= i <= self.breaks@.len(),
                forall|j: int| 0 <= j < i ==> self.breaks@[j] != id,
            decreases self.breaks@.len() - i,
        {
            if self.breaks[i] == id {
                return true;
            }
            i = i + 1;
        }
        proof {
            assert(forall|j: int| 0 <= j < self.breaks@.len() ==> self.breaks@[j] != id);
        }
        false
    }

    /// Toggle the breakpoint flag of object `id`.
    pub fn toggle_break(&mut self, id: usize)
        requires
            distinct_ids(old(self).breaks()),
        ensures
            final(self).status == old(self).status,
            final(self).counts() == old(self).counts(),
            distinct_ids(final(self).breaks()),
            flagged(final(self).breaks(), id) == !flagged(old(self).breaks(), id),
            forall|o: usize|
                o != id ==> flagged(final(self).breaks(), o) == flagged(old(self).breaks(), o),
    {
        let mut i: usize = 0;
        while i < self.breaks.len()
            invariant
                0 <= i <= self.breaks@.len(),
                forall|j: int| 0 <= j < i ==> self.breaks@[j] != id,
                self.breaks@ == old(self).breaks(),
                distinct_ids(self.breaks@),
                self.status == old(self).status,
                self.counts@ == old(self).counts(),
            decreases self.breaks@.len() - i,
        {
            if self.breaks[i] == id {
                let ghost prev = self.breaks@;
                self.breaks.remove(i);
                proof {
                    assert(self.breaks@ =~= prev.subrange(0, i as int) + prev.subrange(
                        i as int + 1,
                        prev.len() as int,
                    ));
                    assert(distinct_ids(self.breaks@)) by {
                        assert forall|a: int, b: int|
                            0 <= a < b < self.breaks@.len() implies self.breaks@[a]
                            != self.breaks@[b] by {
                            let pa: int = if a < i { a } else { a + 1 };
                            let pb: int = if b < i { b } else { b + 1 };
                            assert(self.breaks@[a] == prev[pa]);
                            assert(self.breaks@[b] == prev[pb]);
                            assert(prev[pa] != prev[pb]);
                        }
                    }
                    assert(!flagged(self.breaks@, id)) by {
                        assert forall|j: int| 0 <= j < self.breaks@.len() implies self.breaks@[j]
                            != id by {
                            if j < i {
                                assert(self.breaks@[j] == prev[j]);
                            } else {
                                assert(self.breaks@[j] == prev[j + 1]);
                                assert(prev[i as int] == id);
                                assert(i < j + 1 < prev.len());
                                assert(prev[j + 1] != prev[i as int]);
                            }
                        }
                    }
                    assert forall|o: usize| o != id implies flagged(self.breaks@, o) == flagged(
                        prev,
                        o,
                    ) by {
                        if flagged(prev, o) {
                            let j = choose|j: int| 0 <= j < prev.len() && prev[j] == o;
                            if j < i {
                                assert(self.breaks@[j] == o);
                            } else {
                                assert(j > i);
                                assert(self.breaks@[j - 1] == o);
                            }
                        } else {
                            if flagged(self.breaks@, o) {
                                let j = choose|j: int|
                                    0 <= j < self.breaks@.len() && self.breaks@[j] == o;
                                if j < i {
                                    assert(prev[j] == o);
                                } else {
                                    assert(prev[j + 1] == o);
                                }
                            }
                        }
                    }
                }
                return ;
            }
            i = i + 1;
        }
        let ghost prev = self.breaks@;
        proof {
            assert(forall|j: int| 0 <= j < prev.len() ==> prev[j] != id);
            assert(!flagged(prev, id));
        }
        self.breaks.push(id);
        proof {
            assert(self.breaks@ == prev.push(id));
            assert(distinct_ids(self.breaks@)) by {
                assert forall|a: int, b: int| 0 <= a < b < self.breaks@.len() implies self.breaks@[a]
                    != self.breaks@[b] by {
                    if b == prev.len() {
                        assert(self.breaks@[a] == prev[a]);
                        assert(prev[a] != id);
                    }
                }
            }
            assert(flagged(self.breaks@, id)) by {
                assert(self.breaks@[prev.len() as int] == id);
            }
            assert forall|o: usize| o != id implies flagged(self.breaks@, o) == flagged(
                prev,
                o,
            ) by {
                if flagged(prev, o) {
                    let j = choose|j: int| 0 <= j < prev.len() && prev[j] == o;
                    assert(self.breaks@[j] == o);
                } else {
                    if flagged(self.breaks@, o) {
                        let j = choose|j: int| 0 <= j < self.breaks@.len() && self.breaks@[j] == o;
                        assert(j < prev.len());
                        assert(prev[j] == o);
                    }
                }
            }
        }
    }

    /// Bump the counter of the consumed record's object.
    fn bump_count(&mut self, rec: &EventRecord)
        ensures
            final(self).status == old(self).status,
            final(self).breaks() == old(self).breaks(),
            final(self).counts() == spec_bump_counts(old(self).counts(), *rec),
    {
        proof {
            lemma_spec_find_count(self.counts@, rec.obj_id as usize);
        }
        let id = rec.obj_id();
        let is_miss = rec.kind().is_miss();
        let mut i: usize = 0;
        while i < self.counts.len()
            invariant
                0 <= i <= self.counts@.len(),
                forall|j: int| 0 <= j < i ==> (#[trigger] self.counts@[j]).obj_id != id,
                spec_find_count(self.counts@, id) == -1 || spec_find_count(self.counts@, id) >= i,
                id == rec.obj_id as usize,
                is_miss == EventKind::spec_from_code(rec.kind).spec_is_miss(),
                self.counts@ == old(self).counts(),
                self.status == old(self).status,
                self.breaks@ == old(self).breaks(),
            decreases self.counts@.len() - i,
        {
            proof {
                lemma_spec_find_count(self.counts@, id);
            }
            if self.counts[i].obj_id == id {
                let c = self.counts[i];
                let updated = if is_miss {
                    ObjCount {
                        misses: if c.misses < u64::MAX {
                            c.misses + 1
                        } else {
                            c.misses
                        },
                        ..c
                    }
                } else {
                    ObjCount {
                        faults: if c.faults < u64::MAX {
                            c.faults + 1
                        } else {
                            c.faults
                        },
                        ..c
                    }
                };
                self.counts.set(i, updated);
                return ;
            }
            i = i + 1;
        }
        proof {
            lemma_spec_find_count(self.counts@, id);
            assert(spec_find_count(self.counts@, id) == -1);
        }
        let fresh = ObjCount { obj_id: id, faults: 0, misses: 0 };
        let bumped = if is_miss {
            ObjCount { misses: 1, ..fresh }
        } else {
            ObjCount { faults: 1, ..fresh }
        };
        self.counts.push(bumped);
    }

    /// Clear all per-object counters.
    pub fn clear_counts(&mut self)
        ensures
            final(self).status == old(self).status,
            final(self).breaks() == old(self).breaks(),
            final(self).counts() == Seq::<ObjCount>::empty(),
    {
        self.counts = Vec::new();
        proof {
            assert(self.counts@ =~= Seq::<ObjCount>::empty());
        }
    }

    /// The counter of object `id`: `(faults, misses)`, zero when absent.
    pub fn count_of(&self, id: usize) -> (r: (u64, u64))
        ensures
            ({
                let i = spec_find_count(self.counts(), id);
                if i == -1 {
                    r == (0u64, 0u64)
                } else {
                    r == (self.counts()[i].faults, self.counts()[i].misses)
                }
            }),
    {
        proof {
            lemma_spec_find_count(self.counts@, id);
        }
        let mut i: usize = 0;
        while i < self.counts.len()
            invariant
                0 <= i <= self.counts@.len(),
                forall|j: int| 0 <= j < i ==> (#[trigger] self.counts@[j]).obj_id != id,
                spec_find_count(self.counts@, id) == -1 || spec_find_count(self.counts@, id) >= i,
            decreases self.counts@.len() - i,
        {
            proof {
                lemma_spec_find_count(self.counts@, id);
            }
            if self.counts[i].obj_id == id {
                return (self.counts[i].faults, self.counts[i].misses);
            }
            i = i + 1;
        }
        (0, 0)
    }

    /// Batch advancement: consume up to `budget` events from the current
    /// position without crossing the window end. An event of a flagged
    /// object halts the batch immediately after that event (inclusive) and
    /// pauses playback; reaching the window end halts without a hit. The
    /// position never leaves `[old position, window end]`.
    pub fn advance(&mut self, records: &Records, budget: usize) -> (r: FaultProcessResult)
        requires
            old(self).wf(*records),
        ensures
            final(self).wf(*records),
            final(self).breaks() == old(self).breaks(),
            ({
                let cur = old(self).status.cur_event as int;
                let last = last_play(old(self).status);
                if cur >= last {
                    &&& *final(self) == *old(self)
                    &&& r == (FaultProcessResult { hit_breakpoint: false, count: 0 })
                } else {
                    let sc = spec_scan_batch(
                        records.records(),
                        cur,
                        last,
                        budget as int,
                        old(self).breaks(),
                    );
                    &&& r.count == sc.0
                    &&& r.hit_breakpoint == sc.1
                    &&& final(self).status == (Status {
                        cur_event: (cur + sc.0) as usize,
                        cur_time_ns: if sc.0 > 0 {
                            records.records()[cur + sc.0 - 1].time_ns
                        } else {
                            old(self).status.cur_time_ns
                        },
                        paused: old(self).status.paused || sc.1,
                        ..old(self).status
                    })
                    &&& final(self).counts() == spec_bump_all(
                        old(self).counts(),
                        records.records(),
                        cur,
                        sc.0,
                    )
                    &&& old(self).status.cur_event <= final(self).status.cur_event
                    &&& final(self).status.cur_event <= last
                }
            }),
    {
        let last = self.get_last_play_event();
        let cur = self.status.cur_event;
        if cur >= last {
            return FaultProcessResult { hit_breakpoint: false, count: 0 };
        }
        let recs = records.slice();
        let ghost rseq = records.records();
        let ghost bs = self.breaks@;
        let ghost total = spec_scan_batch(rseq, cur as int, last as int, budget as int, bs);
        proof {
            lemma_scan_batch_bounds(rseq, cur as int, last as int, budget as int, bs);
        }
        let mut i: usize = 0;
        let mut hit = false;
        while i < budget && cur + i < last && !hit
            invariant
                0 <= i,
                i <= budget,
                cur + i <= last <= rseq.len(),
                cur < last,
                recs@ == rseq,
                bs == old(self).breaks(),
                self.breaks@ == bs,
                self.status == old(self).status,
                last == last_play(old(self).status),
                cur == old(self).status.cur_event,
                self.counts@ == spec_bump_all(old(self).counts(), rseq, cur as int, i as int),
                !hit ==> total == (
                i + spec_scan_batch(
                    rseq,
                    cur + i as int,
                    last as int,
                    budget - i as int,
                    bs,
                ).0, spec_scan_batch(rseq, cur + i as int, last as int, budget - i as int, bs).1),
                hit ==> total == (i as int, true),
                hit ==> i > 0,
            decreases budget - i,
        {
            let rec = recs[cur + i];
            self.bump_count(&rec);
            let f = self.is_flagged(rec.obj_id());
            proof {
                assert(spec_bump_all(old(self).counts(), rseq, cur as int, i as int + 1)
                    == spec_bump_counts(
                    spec_bump_all(old(self).counts(), rseq, cur as int, i as int),
                    rseq[cur + i as int],
                ));
            }
            if f {
                hit = true;
            }
            i = i + 1;
        }
        let count = i;
        proof {
            if !hit {
                assert(spec_scan_batch(rseq, cur + i as int, last as int, budget - i as int, bs).0
                    == 0);
            }
            assert(total == (count as int, hit));
        }
        self.status.cur_event = cur + count;
        if count > 0 {
            self.status.cur_time_ns = recs[cur + count - 1].time_ns;
        }
        if hit {
            self.status.paused = true;
        }
        FaultProcessResult { hit_breakpoint: hit, count }
    }

    /// The timestamp of the next unconsumed event, or `None` when the
    /// position has reached the window end.
    pub fn next_event_time(&self, records: &Records) -> (r: Option<u64>)
        requires
            self.wf(*records),
        ensures
            (self.status.cur_event as int) >= last_play(self.status) ==> r is None,
            (self.status.cur_event as int) < last_play(self.status) ==> r == Some(
                records.records()[self.status.cur_event as int].time_ns,
            ),
    {
        let last = self.get_last_play_event();
        if self.status.cur_event >= last {
            return None;
        }
        Some(records.slice()[self.status.cur_event].time_ns)
    }

    /// Time-bounded advancement: consume events from the current position
    /// while their timestamps are at or before `target`, without crossing
    /// the window end; an event of a flagged object halts the batch after
    /// that event (inclusive) and pauses playback.
    pub fn advance_until(&mut self, records: &Records, target: u64) -> (r: FaultProcessResult)
        requires
            old(self).wf(*records),
        ensures
            final(self).wf(*records),
            final(self).breaks() == old(self).breaks(),
            ({
                let cur = old(self).status.cur_event as int;
                let last = last_play(old(self).status);
                let sc = spec_time_scan(records.records(), cur, last, target, old(self).breaks());
                &&& r.count == sc.0
                &&& r.hit_breakpoint == sc.1
                &&& final(self).status == (Status {
                    cur_event: (cur + sc.0) as usize,
                    cur_time_ns: if sc.0 > 0 {
                        records.records()[cur + sc.0 - 1].time_ns
                    } else {
                        old(self).status.cur_time_ns
                    },
                    paused: old(self).status.paused || sc.1,
                    ..old(self).status
                })
                &&& final(self).counts() == spec_bump_all(
                    old(self).counts(),
                    records.records(),
                    cur,
                    sc.0,
                )
                &&& old(self).status.cur_event <= final(self).status.cur_event
                &&& ((final(self).status.cur_event as int) <= last || cur >= last)
            }),
    {
        let last = self.get_last_play_event();
        let cur = self.status.cur_event;
        let recs = records.slice();
        let ghost rseq = records.records();
        let ghost bs = self.breaks@;
        let ghost total = spec_time_scan(rseq, cur as int, last as int, target, bs);
        proof {
            lemma_time_scan_bounds(rseq, cur as int, last as int, target, bs);
        }
        if cur >= last {
            return FaultProcessResult { hit_breakpoint: false, count: 0 };
        }
        let mut i: usize = 0;
        let mut hit = false;
        while cur + i < last && !hit && recs[cur + i].time_ns <= target
            invariant
                0 <= i,
                cur + i <= last <= rseq.len(),
                cur < last,
                recs@ == rseq,
                bs == old(self).breaks(),
                self.breaks@ == bs,
                self.status == old(self).status,
                last == last_play(old(self).status),
                cur == old(self).status.cur_event,
                self.counts@ == spec_bump_all(old(self).counts(), rseq, cur as int, i as int),
                !hit ==> total == (
                i + spec_time_scan(rseq, cur + i as int, last as int, target, bs).0, spec_time_scan(
                    rseq,
                    cur + i as int,
                    last as int,
                    target,
                    bs,
                ).1),
                hit ==> total == (i as int, true),
                hit ==> i > 0,
            decreases last - cur - i,
        {
            let rec = recs[cur + i];
            self.bump_count(&rec);
            let f = self.is_flagged(rec.obj_id());
            proof {
                assert(spec_bump_all(old(self).counts(), rseq, cur as int, i as int + 1)
                    == spec_bump_counts(
                    spec_bump_all(old(self).counts(), rseq, cur as int, i as int),
                    rseq[cur + i as int],
                ));
            }
            if f {
                hit = true;
            }
            i = i + 1;
        }
        let count = i;
        proof {
            if !hit {
                assert(spec_time_scan(rseq, cur + i as int, last as int, target, bs).0 == 0);
            }
            assert(total == (count as int, hit));
        }
        self.status.cur_event = cur + count;
        if count > 0 {
            self.status.cur_time_ns = recs[cur + count - 1].time_ns;
        }
        if hit {
            self.status.paused = true;
        }
        FaultProcessResult { hit_breakpoint: hit, count }
    }

    /// Jump to position `e` and immediately process one event from there
    /// (so presentation reflects the destination event); at or past the
    /// window end, only the position moves.
    pub fn goto_event(&mut self, records: &Records, e: usize)
        requires
            old(self).wf(*records),
            e <= old(self).status.num_events,
        ensures
            final(self).wf(*records),
            final(self).breaks() == old(self).breaks(),
            ({
                let last = last_play(old(self).status);
                if (e as int) >= last {
                    &&& final(self).status == (Status { cur_event: e, ..old(self).status })
                    &&& final(self).counts() == old(self).counts()
                } else {
                    let sc = spec_scan_batch(records.records(), e as int, last, 1, old(self).breaks());
                    &&& final(self).status == (Status {
                        cur_event: (e + sc.0) as usize,
                        cur_time_ns: if sc.0 > 0 {
                            records.records()[e + sc.0 - 1].time_ns
                        } else {
                            old(self).status.cur_time_ns
                        },
                        paused: old(self).status.paused || sc.1,
                        ..old(self).status
                    })
                    &&& final(self).counts() == spec_bump_all(
                        old(self).counts(),
                        records.records(),
                        e as int,
                        sc.0,
                    )
                }
            }),
    {
        self.status.cur_event = e;
        self.advance(records, 1);
    }

    /// The loop wrap: clear the per-object counters, reset position and
    /// time to the stream start, and jump to the window's first position,
    /// processing one event from there.
    pub fn loop_reset(&mut self, records: &Records)
        requires
            old(self).wf(*records),
        ensures
            final(self).wf(*records),
            final(self).breaks() == old(self).breaks(),
            final(self).status == spec_loop_reset(
                old(self).status,
                old(self).breaks(),
                records.records(),
            ).0,
            final(self).counts() == spec_loop_reset(
                old(self).status,
                old(self).breaks(),
                records.records(),
            ).1,
    {
        self.clear_counts();
        self.status.reset();
        let first = self.get_first_play_event();
        self.goto_event(records, first);
    }
}

/// The time scan: consume events from `start` while their timestamps are at
/// or before `target`, without crossing `last`; an event of a flagged
/// object is consumed and halts the scan.
pub open spec fn spec_time_scan(
    recs: Seq<EventRecord>,
    start: int,
    last: int,
    target: u64,
    bs: Seq<usize>,
) -> (int, bool)
    decreases last - start,
{
    if start >= last {
        (0, false)
    } else if recs[start].time_ns > target {
        (0, false)
    } else if flagged(bs, recs[start].obj_id as usize) {
        (1, true)
    } else {
        let r = spec_time_scan(recs, start + 1, last, target, bs);
        (r.0 + 1, r.1)
    }
}

/// The time scan never crosses the window end.
pub proof fn lemma_time_scan_bounds(
    recs: Seq<EventRecord>,
    start: int,
    last: int,
    target: u64,
    bs: Seq<usize>,
)
    ensures
        0 <= spec_time_scan(recs, start, last, target, bs).0,
        start + spec_time_scan(recs, start, last, target, bs).0 <= last || start >= last,
        start < last && recs[start].time_ns <= target ==> spec_time_scan(
            recs,
            start,
            last,
            target,
            bs,
        ).0 >= 1,
    decreases last - start,
{
    if start < last && recs[start].time_ns <= target && !flagged(
        bs,
        recs[start].obj_id as usize,
    ) {
        lemma_time_scan_bounds(recs, start + 1, last, target, bs);
    }
}

/// `a + b`, saturating at `u64::MAX`.
pub open spec fn spec_sat_add(a: u64, b: u64) -> u64 {
    if a + b > u64::MAX {
        u64::MAX
    } else {
        (a + b) as u64
    }
}

/// Add two durations, saturating at `u64::MAX`.
pub fn sat_add(a: u64, b: u64) -> (r: u64)
    ensures
        r == spec_sat_add(a, b),
{
    if b > u64::MAX - a {
        u64::MAX
    } else {
        a + b
    }
}

/// Events one `FrameStep` tick consumes: the smallest whole number of
/// events strictly greater than the play speed in seconds (so a speed of
/// two and a half consumes three, and a whole-number speed of two also
/// consumes three), clamped to `usize::MAX`.
pub open spec fn spec_frame_step_budget(speed_ns: u64) -> int {
    if speed_ns / 1_000_000_000 + 1 > usize::MAX {
        usize::MAX as int
    } else {
        speed_ns / 1_000_000_000 + 1
    }
}

/// The loop wrap, at the spec level: counters cleared, position and time
/// reset, then one event processed from the window's first position (none
/// when the window is empty or inverted). Breakpoint flags are kept.
pub open spec fn spec_loop_reset(st: Status, bs: Seq<usize>, recs: Seq<EventRecord>) -> (
    Status,
    Seq<ObjCount>,
) {
    let first = first_play(st);
    let last = last_play(st);
    if first >= last {
        (Status { cur_event: first as usize, cur_time_ns: 0, ..st }, Seq::<ObjCount>::empty())
    } else {
        let sc = spec_scan_batch(recs, first, last, 1, bs);
        (
            Status {
                cur_event: (first + sc.0) as usize,
                cur_time_ns: if sc.0 > 0 {
                    recs[first + sc.0 - 1].time_ns
                } else {
                    0
                },
                paused: st.paused || sc.1,
                ..st
            },
            spec_bump_all(Seq::<ObjCount>::empty(), recs, first, sc.0),
        )
    }
}

/// One tick's mode-driven advancement, at the spec level. `FrameStep`
/// consumes a batch of `spec_frame_step_budget(speed_ns)` events.
/// `FrameTime` moves the target time forward by `speed_ns` and consumes
/// every event at or before it. `Realtime` moves the target by one tick's
/// worth of trace time, and when the next event lies beyond the target,
/// only time passes. All modes stop at the window end, and stop and pause
/// after an event of a breakpoint-flagged object.
pub open spec fn spec_tick_play(
    st: Status,
    counts: Seq<ObjCount>,
    bs: Seq<usize>,
    recs: Seq<EventRecord>,
    mode: PlaybackMode,
    speed_ns: u64,
) -> (Status, Seq<ObjCount>) {
    let cur = st.cur_event as int;
    let last = last_play(st);
    match mode {
        PlaybackMode::FrameStep => {
            if cur >= last {
                (st, counts)
            } else {
                let sc = spec_scan_batch(recs, cur, last, spec_frame_step_budget(speed_ns), bs);
                (
                    Status {
                        cur_event: (cur + sc.0) as usize,
                        cur_time_ns: if sc.0 > 0 {
                            recs[cur + sc.0 - 1].time_ns
                        } else {
                            st.cur_time_ns
                        },
                        paused: st.paused || sc.1,
                        ..st
                    },
                    spec_bump_all(counts, recs, cur, sc.0),
                )
            }
        },
        PlaybackMode::FrameTime => {
            let target = spec_sat_add(st.cur_time_ns, speed_ns);
            let sc = spec_time_scan(recs, cur, last, target, bs);
            (
                Status {
                    cur_event: (cur + sc.0) as usize,
                    cur_time_ns: if sc.0 > 0 {
                        recs[cur + sc.0 - 1].time_ns
                    } else {
                        st.cur_time_ns
                    },
                    paused: st.paused || sc.1,
                    ..st
                },
                spec_bump_all(counts, recs, cur, sc.0),
            )
        },
        PlaybackMode::Realtime => {
            let target = spec_sat_add(st.cur_time_ns, speed_ns / TICK_FPS);
            if cur >= last {
                (st, counts)
            } else if recs[cur].time_ns > target {
                (Status { cur_time_ns: target, ..st }, counts)
            } else {
                let sc = spec_time_scan(recs, cur, last, target, bs);
                (
                    Status {
                        cur_event: (cur + sc.0) as usize,
                        cur_time_ns: if !sc.1 && cur + sc.0 < last {
                            target
                        } else if sc.0 > 0 {
                            recs[cur + sc.0 - 1].time_ns
                        } else {
                            st.cur_time_ns
                        },
                        paused: st.paused || sc.1,
                        ..st
                    },
                    spec_bump_all(counts, recs, cur, sc.0),
                )
            }
        },
    }
}

/// One whole timer tick, at the spec level: nothing while paused; with
/// looping enabled and the position at or past the window end, the loop
/// wrap runs first and, unless it hit a breakpoint, the mode-driven
/// advancement follows from the wrapped state.
pub open spec fn spec_tick(
    st: Status,
    counts: Seq<ObjCount>,
    bs: Seq<usize>,
    recs: Seq<EventRecord>,
    mode: PlaybackMode,
    speed_ns: u64,
) -> (Status, Seq<ObjCount>) {
    if st.paused {
        (st, counts)
    } else if st.looping && (st.cur_event as int) >= last_play(st) {
        let wrapped = spec_loop_reset(st, bs, recs);
        if wrapped.0.paused {
            wrapped
        } else {
            spec_tick_play(wrapped.0, wrapped.1, bs, recs, mode, speed_ns)
        }
    } else {
        spec_tick_play(st, counts, bs, recs, mode, speed_ns)
    }
}

impl Player {
    /// One tick's worth of mode-driven advancement from the current state.
    ///
    /// `FrameStep` consumes a fixed batch of `spec_frame_step_budget`
    /// events. `FrameTime` moves the target time forward by `speed_ns` and
    /// consumes every event at or before it. `Realtime` moves the target
    /// time by one tick's worth of trace time; when the next event lies
    /// beyond the target, time passes with no events firing. All modes stop
    /// at the window end, and stop and pause on a breakpoint.
    pub fn tick_play(&mut self, records: &Records, mode: PlaybackMode, speed_ns: u64)
        requires
            old(self).wf(*records),
        ensures
            final(self).wf(*records),
            final(self).breaks() == old(self).breaks(),
            final(self).status == spec_tick_play(
                old(self).status,
                old(self).counts(),
                old(self).breaks(),
                records.records(),
                mode,
                speed_ns,
            ).0,
            final(self).counts() == spec_tick_play(
                old(self).status,
                old(self).counts(),
                old(self).breaks(),
                records.records(),
                mode,
                speed_ns,
            ).1,
    {
        match mode {
            PlaybackMode::FrameStep => {
                if self.status.cur_event >= self.get_last_play_event() {
                    return ;
                }
                let q = speed_ns / 1_000_000_000;
                let budget: usize = if q >= usize::MAX as u64 {
                    usize::MAX
                } else {
                    (q + 1) as usize
                };
                proof {
                    assert(budget as int == spec_frame_step_budget(speed_ns));
                }
                self.advance(records, budget);
            },
            PlaybackMode::FrameTime => {
                let target = sat_add(self.status.cur_time_ns, speed_ns);
                self.advance_until(records, target);
            },
            PlaybackMode::Realtime => {
                let target = sat_add(self.status.cur_time_ns, speed_ns / TICK_FPS);
                let last = self.get_last_play_event();
                if self.status.cur_event >= last {
                    return ;
                }
                let nt = records.slice()[self.status.cur_event].time_ns;
                if nt > target {
                    self.status.cur_time_ns = target;
                    return ;
                }
                let r = self.advance_until(records, target);
                if !r.hit_breakpoint && self.status.cur_event < self.get_last_play_event() {
                    self.status.cur_time_ns = target;
                }
                proof {
                    lemma_time_scan_bounds(
                        records.records(),
                        old(self).status.cur_event as int,
                        last_play(old(self).status),
                        target,
                        old(self).breaks(),
                    );
                }
            },
        }
    }

    /// One timer tick: does nothing while paused; with looping enabled and
    /// the position at or past the window end, wraps to the window start
    /// first (clearing the per-object counters); then advances under the
    /// given mode, unless the wrap itself hit a breakpoint.
    pub fn tick(&mut self, records: &Records, mode: PlaybackMode, speed_ns: u64)
        requires
            old(self).wf(*records),
        ensures
            final(self).wf(*records),
            final(self).breaks() == old(self).breaks(),
            final(self).status == spec_tick(
                old(self).status,
                old(self).counts(),
                old(self).breaks(),
                records.records(),
                mode,
                speed_ns,
            ).0,
            final(self).counts() == spec_tick(
                old(self).status,
                old(self).counts(),
                old(self).breaks(),
                records.records(),
                mode,
                speed_ns,
            ).1,
    {
        if self.status.paused {
            return ;
        }
        let last = self.get_last_play_event();
        if self.status.looping && self.status.cur_event >= last {
            self.loop_reset(records);
            proof {
                lemma_scan_batch_bounds(
                    records.records(),
                    first_play(old(self).status),
                    last_play(old(self).status),
                    1,
                    old(self).breaks(),
                );
            }
            if self.status.paused {
                return ;
            }
        }
        self.tick_play(records, mode, speed_ns);
    }
}

} // verus!
