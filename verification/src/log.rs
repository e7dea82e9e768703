//! The event log as the analyses read it.
//!
//! An object-centric log holds typed objects and timestamped events; each
//! event names the objects it touches (its E2O relationships), by index into
//! `objects`. Attributes and qualifiers play no part in any analysis and are
//! not carried.
use vstd::prelude::*;

verus! {

/// A UTC instant: whole seconds since the Unix epoch and the nanoseconds
/// within that second.
#[derive(Clone, Copy, Debug, PartialEq, Eq)]
pub struct Timestamp {
    pub secs: i64,
    pub nanos: u32,
}

/// One object: its id and its type.
#[derive(Clone, Debug)]
pub struct LogObject {
    pub id: String,
    pub object_type: String,
}

/// One event: its id, activity (event type), time and touched objects.
#[derive(Clone, Debug)]
pub struct LogEvent {
    pub id: String,
    pub activity: String,
    pub time: Timestamp,
    /// Indices into [`EventLog::objects`].
    pub objects: Vec<usize>,
}

/// An object-centric event log.
#[derive(Clone, Debug)]
pub struct EventLog {
    /// Declared object types.
    pub object_types: Vec<String>,
    pub objects: Vec<LogObject>,
    pub events: Vec<LogEvent>,
}

/// Seconds handled by the analyses: the whole range `chrono` can represent
/// fits well inside.
pub open spec fn secs_bound() -> int {
    0x10_0000_0000_0000
}

pub open spec fn time_ok(t: Timestamp) -> bool {
    -secs_bound() < t.secs < secs_bound() && t.nanos < 1_000_000_000
}

/// Nanoseconds since the epoch.
pub open spec fn time_nanos(t: Timestamp) -> int {
    t.secs * 1_000_000_000 + t.nanos
}

/// Whole seconds from `from` to `to` (`to` not before `from`).
pub open spec fn span_secs(from: Timestamp, to: Timestamp) -> int {
    (time_nanos(to) - time_nanos(from)) / 1_000_000_000
}

impl EventLog {
    /// Every relationship names an existing object, every time is in range,
    /// and each object id occurs once (an object is its id).
    pub open spec fn wf(&self) -> bool {
        &&& forall|o1: int, o2: int| 0 <= o1 < o2 < self.objects.len() ==> #[trigger] self.objects[o1].id@ != #[trigger] self.objects[o2].id@
        &&& forall|e: int, k: int|
            0 <= e < self.events.len() && 0 <= k < self.events[e].objects.len()
                ==> #[trigger] self.events[e].objects[k] < self.objects.len()
        &&& forall|e: int| 0 <= e < self.events.len() ==> time_ok(#[trigger] self.events[e].time)
    }

    /// Event `e` touches object `o`.
    pub open spec fn related(&self, e: int, o: int) -> bool {
        exists|k: int|
            0 <= k < self.events[e].objects.len() && #[trigger] self.events[e].objects[k] == o
    }

    /// Object `o` is of type `ty`.
    pub open spec fn is_member(&self, o: int, ty: Seq<char>) -> bool {
        self.objects[o].object_type@ == ty
    }

    /// Event `e` touches some object of type `ty`.
    pub open spec fn is_target(&self, e: int, ty: Seq<char>) -> bool {
        exists|k: int|
            0 <= k < self.events[e].objects.len() && self.is_member(
                #[trigger] self.events[e].objects[k] as int,
                ty,
            )
    }

    /// The trace order: by time, equal times by position in `events`.
    pub open spec fn before(&self, a: int, b: int) -> bool {
        let ta = self.events[a].time;
        let tb = self.events[b].time;
        ||| ta.secs < tb.secs
        ||| ta.secs == tb.secs && ta.nanos < tb.nanos
        ||| ta.secs == tb.secs && ta.nanos == tb.nanos && a < b
    }

    /// The objects of type `ty` among the first `k`, in log order.
    pub open spec fn members_upto(&self, ty: Seq<char>, k: int) -> Seq<usize>
        decreases k,
    {
        if k <= 0 {
            Seq::empty()
        } else if self.is_member(k - 1, ty) {
            self.members_upto(ty, k - 1).push((k - 1) as usize)
        } else {
            self.members_upto(ty, k - 1)
        }
    }

    /// The objects of type `ty`, in log order.
    pub open spec fn members(&self, ty: Seq<char>) -> Seq<usize> {
        self.members_upto(ty, self.objects.len() as int)
    }
}

pub proof fn lemma_before_strict(log: EventLog, a: int, b: int)
    ensures
        !(log.before(a, b) && log.before(b, a)),
        a != b ==> log.before(a, b) || log.before(b, a),
{
}

/// `s` lists exactly the events touching object `o`, each once, in trace order.
pub open spec fn is_trace(log: EventLog, o: int, s: Seq<int>) -> bool {
    &&& forall|k: int| 0 <= k < s.len() ==> 0 <= #[trigger] s[k] < log.events.len() && log.related(s[k], o)
    &&& forall|k1: int, k2: int| 0 <= k1 < k2 < s.len() ==> log.before(#[trigger] s[k1], #[trigger] s[k2])
    &&& forall|e: int| 0 <= e < log.events.len() && #[trigger] log.related(e, o) ==> s.contains(e)
}

/// The trace of object `o`: its events in trace order.
pub open spec fn trace_of(log: EventLog, o: int) -> Seq<int> {
    choose|s: Seq<int>| is_trace(log, o, s)
}

/// The activities of object `o`'s trace.
pub open spec fn activities_of(log: EventLog, o: int) -> Seq<Seq<char>> {
    trace_of(log, o).map_values(|e: int| log.events[e].activity@)
}

/// Two orderings of the same event set in trace order are the same list.
pub proof fn lemma_trace_unique(log: EventLog, s1: Seq<int>, s2: Seq<int>)
    requires
        forall|k1: int, k2: int| 0 <= k1 < k2 < s1.len() ==> log.before(#[trigger] s1[k1], #[trigger] s1[k2]),
        forall|k1: int, k2: int| 0 <= k1 < k2 < s2.len() ==> log.before(#[trigger] s2[k1], #[trigger] s2[k2]),
        forall|x: int| s1.contains(x) <==> s2.contains(x),
    ensures
        s1 == s2,
    decreases s1.len(),
{
    if s1.len() == 0 {
        if s2.len() > 0 {
            assert(s2.contains(s2[0]));
        }
        assert(s1 =~= s2);
    } else {
        assert(s1.contains(s1[0]));
        let j = choose|j: int| 0 <= j < s2.len() && s2[j] == s1[0];
        if j > 0 {
            assert(s2.contains(s2[0]));
            let i = choose|i: int| 0 <= i < s1.len() && s1[i] == s2[0];
            assert(log.before(s2[0], s2[j]));
            if i == 0 {
                lemma_before_strict(log, s2[0], s2[j]);
            } else {
                assert(log.before(s1[0], s1[i]));
                lemma_before_strict(log, s1[0], s2[0]);
            }
        }
        let t1 = s1.drop_first();
        let t2 = s2.drop_first();
        assert forall|x: int| t1.contains(x) <==> t2.contains(x) by {
            if t1.contains(x) {
                let i = choose|i: int| 0 <= i < t1.len() && t1[i] == x;
                assert(s1[i + 1] == x);
                assert(log.before(s1[0], s1[i + 1]));
                lemma_before_strict(log, s1[0], x);
                assert(s2.contains(x));
                let j2 = choose|j2: int| 0 <= j2 < s2.len() && s2[j2] == x;
                assert(j2 != 0);
                assert(t2[j2 - 1] == x);
            }
            if t2.contains(x) {
                let i = choose|i: int| 0 <= i < t2.len() && t2[i] == x;
                assert(s2[i + 1] == x);
                assert(log.before(s2[0], s2[i + 1]));
                lemma_before_strict(log, s2[0], x);
                assert(s1.contains(x));
                let j2 = choose|j2: int| 0 <= j2 < s1.len() && s1[j2] == x;
                assert(j2 != 0);
                assert(t1[j2 - 1] == x);
            }
        }
        assert forall|k1: int, k2: int| 0 <= k1 < k2 < t1.len() implies log.before(#[trigger] t1[k1], #[trigger] t1[k2]) by {
            assert(t1[k1] == s1[k1 + 1] && t1[k2] == s1[k2 + 1]);
        }
        assert forall|k1: int, k2: int| 0 <= k1 < k2 < t2.len() implies log.before(#[trigger] t2[k1], #[trigger] t2[k2]) by {
            assert(t2[k1] == s2[k1 + 1] && t2[k2] == s2[k2 + 1]);
        }
        lemma_trace_unique(log, t1, t2);
        assert(s1 =~= seq![s1[0]] + t1);
        assert(s2 =~= seq![s2[0]] + t2);
    }
}

/// Any list with the trace properties is the trace.
pub proof fn lemma_trace_of(log: EventLog, o: int, s: Seq<int>)
    requires
        is_trace(log, o, s),
    ensures
        trace_of(log, o) == s,
{
    let t = trace_of(log, o);
    assert(is_trace(log, o, t));
    assert forall|x: int| t.contains(x) <==> s.contains(x) by {
        if t.contains(x) {
            let i = choose|i: int| 0 <= i < t.len() && t[i] == x;
            assert(0 <= t[i] < log.events.len() && log.related(t[i], o));
        }
        if s.contains(x) {
            let i = choose|i: int| 0 <= i < s.len() && s[i] == x;
            assert(0 <= s[i] < log.events.len() && log.related(s[i], o));
        }
    }
    lemma_trace_unique(log, t, s);
}

/// Every object of the type among the first `k` is listed.
pub proof fn lemma_members_complete(log: EventLog, ty: Seq<char>, k: int, o: int)
    requires
        0 <= o < k,
        log.is_member(o, ty),
    ensures
        log.members_upto(ty, k).contains(o as usize),
    decreases k,
{
    if o < k - 1 {
        lemma_members_complete(log, ty, k - 1, o);
        let m0 = log.members_upto(ty, k - 1);
        let i = choose|i: int| 0 <= i < m0.len() && m0[i] == o as usize;
        if log.is_member(k - 1, ty) {
            assert(log.members_upto(ty, k)[i] == o as usize);
        }
    } else {
        let m0 = log.members_upto(ty, k - 1);
        assert(log.members_upto(ty, k)[m0.len() as int] == o as usize);
    }
}

/// The objects of a type are indices of objects, in increasing order.
pub proof fn lemma_members_bound(log: EventLog, ty: Seq<char>, k: int)
    requires
        0 <= k <= log.objects.len(),
    ensures
        forall|s: int| 0 <= s < log.members_upto(ty, k).len() ==> #[trigger] log.members_upto(ty, k)[s] < k,
        forall|s1: int, s2: int|
            0 <= s1 < s2 < log.members_upto(ty, k).len() ==> #[trigger] log.members_upto(ty, k)[s1]
                < #[trigger] log.members_upto(ty, k)[s2],
        forall|s: int| 0 <= s < log.members_upto(ty, k).len() ==> log.is_member(#[trigger] log.members_upto(ty, k)[s] as int, ty),
    decreases k,
{
    if k > 0 {
        lemma_members_bound(log, ty, k - 1);
        let m0 = log.members_upto(ty, k - 1);
        let m = log.members_upto(ty, k);
        if log.is_member(k - 1, ty) {
            assert(m == m0.push((k - 1) as usize));
            assert forall|s: int| 0 <= s < m.len() implies #[trigger] m[s] < k by {
                if s < m0.len() {
                    assert(m[s] == m0[s]);
                }
            }
            assert forall|s1: int, s2: int| 0 <= s1 < s2 < m.len() implies #[trigger] m[s1] < #[trigger] m[s2] by {
                assert(m[s1] == m0[s1]);
                if s2 < m0.len() {
                    assert(m[s2] == m0[s2]);
                }
            }
            assert forall|s: int| 0 <= s < m.len() implies log.is_member(#[trigger] m[s] as int, ty) by {
                if s < m0.len() {
                    assert(m[s] == m0[s]);
                }
            }
        }
    }
}

/// Whole seconds from `from` to `to`, `to` not before `from`.
pub fn seconds_between(from: Timestamp, to: Timestamp) -> (r: i64)
    requires
        time_ok(from),
        time_ok(to),
        time_nanos(from) <= time_nanos(to),
    ensures
        r == span_secs(from, to),
        r >= 0,
{
    let nanos = (to.secs as i128 - from.secs as i128) * 1_000_000_000 + (to.nanos as i128
        - from.nanos as i128);
    assert(nanos == time_nanos(to) - time_nanos(from));
    let secs = nanos / 1_000_000_000;
    assert(0 <= secs <= nanos);
    assert(secs < 0x8000_0000_0000_0000);
    secs as i64
}

/// Events listed in trace order are listed once each, so there are no more
/// of them than events in the log.
pub proof fn lemma_ordered_len(log: EventLog, t: Seq<int>)
    requires
        forall|k: int| 0 <= k < t.len() ==> 0 <= #[trigger] t[k] < log.events.len(),
        forall|k1: int, k2: int| 0 <= k1 < k2 < t.len() ==> log.before(#[trigger] t[k1], #[trigger] t[k2]),
    ensures
        t.len() <= log.events.len(),
{
    assert(t.no_duplicates()) by {
        assert forall|i: int, j: int| 0 <= i < t.len() && 0 <= j < t.len() && i != j implies t[i] != t[j] by {
            if i < j {
                assert(log.before(t[i], t[j]));
                lemma_before_strict(log, t[i], t[j]);
            } else {
                assert(log.before(t[j], t[i]));
                lemma_before_strict(log, t[j], t[i]);
            }
        }
    }
    t.unique_seq_to_set();
    let range = vstd::set_lib::set_int_range(0, log.events.len() as int);
    vstd::set_lib::lemma_int_range(0, log.events.len() as int);
    assert(t.to_set().subset_of(range)) by {
        assert forall|e: int| t.to_set().contains(e) implies range.contains(e) by {
            assert(t.contains(e));
            let k = choose|k: int| 0 <= k < t.len() && t[k] == e;
            assert(0 <= t[k] < log.events.len());
        }
    }
    vstd::set_lib::lemma_len_subset(t.to_set(), range);
}

} // verus!
