//! Per-type descriptive statistics: the numbers to judge which object type
//! is the most case-like (a workable median trace length, high coverage)
//! without re-deriving trace semantics.
use vstd::prelude::*;
use crate::log::{EventLog, span_secs, time_ok, seconds_between};
use crate::trace::{Step, Traces, build};
use crate::keysort::{is_permutation, key_le, key_lt, occurs, sort_by_keys, sorted_by_keys};
use crate::text::{count_before, name_ranks, text_lt, texts, lemma_count_before_monotone, lemma_text_lt_total};
use crate::variants::descending;
use crate::dfg::{act_count, busy_slots, lemma_key_three, lemma_members_len};
use crate::metrics::slot_lead;
use crate::spread::{Spread, p90_rank, seq_sum, sorts, spread, spread_of};
use crate::oc_dfg::has_name;

verus! {

/// Descriptive statistics of one object type.
#[derive(Clone, Debug)]
pub struct TypeStats {
    pub object_type: String,
    /// Objects of the type in the log.
    pub objects: usize,
    /// Objects with at least one event.
    pub with_events: usize,
    /// Trace lengths over the objects with events.
    pub trace_len: Spread,
    /// First-to-last spans in seconds over the objects with at least two
    /// events.
    pub active_span: Spread,
    /// Distinct activities appearing in the type's traces.
    pub activity_types: usize,
}

/// The lengths of the nonempty traces among the first `k` slots.
pub open spec fn trace_lengths(steps: Seq<Vec<Step>>, k: int) -> Seq<i64>
    decreases k,
{
    if k <= 0 {
        Seq::empty()
    } else if steps[k - 1].len() > 0 {
        trace_lengths(steps, k - 1).push(steps[k - 1].len() as i64)
    } else {
        trace_lengths(steps, k - 1)
    }
}

/// The first-to-last spans of the traces with at least two steps among the
/// first `k` slots.
pub open spec fn active_spans(steps: Seq<Vec<Step>>, k: int) -> Seq<i64>
    decreases k,
{
    if k <= 0 {
        Seq::empty()
    } else if steps[k - 1].len() >= 2 {
        active_spans(steps, k - 1).push(slot_lead(steps, k - 1))
    } else {
        active_spans(steps, k - 1)
    }
}

/// Activity ids below `k` that occur in the traces.
pub open spec fn seen_count(steps: Seq<Vec<Step>>, k: int) -> nat
    decreases k,
{
    if k <= 0 {
        0
    } else {
        seen_count(steps, k - 1) + if act_count(steps, k - 1, steps.len() as int) > 0 {
            1nat
        } else {
            0nat
        }
    }
}

/// `r` describes the traces `t` of type `ty`.
pub open spec fn stats_of(t: Traces, ty: Seq<char>, r: TypeStats) -> bool {
    let steps = t.steps@;
    let n = steps.len() as int;
    &&& r.object_type@ == ty
    &&& r.objects == n
    &&& r.with_events == busy_slots(steps, n)
    &&& spread_of(trace_lengths(steps, n), r.trace_len)
    &&& spread_of(active_spans(steps, n), r.active_span)
    &&& r.activity_types == seen_count(steps, t.activity_names.len() as int)
}

/// `r` describes type `ty` in `log`.
pub open spec fn type_ok(log: EventLog, ty: Seq<char>, r: TypeStats) -> bool {
    exists|t: Traces| #[trigger] t.describes(log, ty) && stats_of(t, ty, r)
}

/// The types of the log: the declared ones, then the types of objects not
/// declared, each once, in order of first appearance among the first `k`
/// objects.
pub open spec fn type_names(log: EventLog, k: int) -> Seq<Seq<char>>
    decreases k,
{
    if k <= 0 {
        texts(log.object_types@)
    } else {
        let prev = type_names(log, k - 1);
        let x = log.objects[k - 1].object_type@;
        if prev.contains(x) {
            prev
        } else {
            prev.push(x)
        }
    }
}

/// More objects, or as many and a name not after.
pub open spec fn stats_before(a: TypeStats, b: TypeStats) -> bool {
    a.objects > b.objects || (a.objects == b.objects && (text_lt(a.object_type@, b.object_type@) || a.object_type@ == b.object_type@))
}

/// The statistics of one object type.
pub fn stats_for(log: &EventLog, object_type: &str) -> (r: TypeStats)
    requires
        log.wf(),
        log.events.len() <= i64::MAX,
    ensures
        type_ok(*log, object_type@, r),
        r.object_type@ == object_type@,
        r.objects == log.members(object_type@).len(),
        r.trace_len.count == r.with_events,
        r.with_events <= r.objects,
        r.trace_len.sum >= r.trace_len.count,
        r.with_events > 0 ==> r.trace_len.low >= 1 && r.trace_len.high >= 1 && r.trace_len.p90 >= 1,
        r.active_span.count <= r.with_events,
{
    let t = build(log, object_type);
    let ghost steps = t.steps@;
    let ns = t.steps.len();
    let n = t.activity_names.len();
    proof {
        assert forall|s: int, k: int| 0 <= s < t.steps.len() && 0 <= k < t.steps[s].len() implies #[trigger] t.steps[s]@[k].activity < n by {
            assert(t.step_ok(*log, s, k));
        }
        assert(t.object_ids@ == log.members(object_type@));
    }
    let mut lengths: Vec<i64> = Vec::new();
    let mut spans: Vec<i64> = Vec::new();
    let mut seen: Vec<bool> = Vec::new();
    let mut a: usize = 0;
    while a < n
        invariant
            a <= n,
            seen.len() == a,
            forall|b: int| 0 <= b < a ==> !#[trigger] seen[b],
        decreases n - a,
    {
        seen.push(false);
        a = a + 1;
    }
    let mut s: usize = 0;
    while s < ns
        invariant
            log.wf(),
            log.events.len() <= i64::MAX,
            t.describes(*log, object_type@),
            ns == t.steps.len(),
            steps == t.steps@,
            n == t.activity_names.len(),
            forall|s2: int, k: int| 0 <= s2 < ns && 0 <= k < steps[s2].len() ==> #[trigger] steps[s2]@[k].activity < n,
            s <= ns,
            lengths@ == trace_lengths(steps, s as int),
            spans@ == active_spans(steps, s as int),
            lengths.len() <= s,
            seen.len() == n,
            forall|b: int| 0 <= b < n ==> #[trigger] seen[b] == (act_count(steps, b, s as int) > 0),
        decreases ns - s,
    {
        let row = &t.steps[s];
        let len = row.len();
        proof {
            crate::replay::lemma_slot_len(*log, object_type@, t, s as int);
        }
        if len > 0 {
            lengths.push(len as i64);
        }
        if len >= 2 {
            proof {
                assert(t.step_ok(*log, s as int, 0));
                assert(t.step_ok(*log, s as int, (len - 1) as int));
                assert(log.before(row@[0].event as int, row@[len - 1].event as int));
                assert(row@.last() == row@[len - 1]);
            }
            let span = seconds_between(row[0].time, row[len - 1].time);
            spans.push(span);
        }
        let mut k: usize = 0;
        while k < len
            invariant
                s < ns,
                row == &t.steps[s as int],
                len == row.len(),
                steps == t.steps@,
                forall|k2: int| 0 <= k2 < len ==> #[trigger] row@[k2].activity < n,
                k <= len,
                seen.len() == n,
                forall|b: int| 0 <= b < n ==> #[trigger] seen[b] == (act_count(steps, b, s as int) > 0 || crate::dfg::row_count(row@, b, k as int) > 0),
            decreases len - k,
        {
            seen.set(row[k].activity, true);
            k = k + 1;
        }
        proof {
            assert(steps[s as int]@ == row@);
        }
        s = s + 1;
    }
    let mut count: usize = 0;
    let mut b: usize = 0;
    while b < n
        invariant
            b <= n,
            seen.len() == n,
            steps == t.steps@,
            ns == t.steps.len(),
            forall|c: int| 0 <= c < n ==> #[trigger] seen[c] == (act_count(steps, c, ns as int) > 0),
            count <= b,
            count == seen_count(steps, b as int),
        decreases n - b,
    {
        if seen[b] {
            count = count + 1;
        }
        b = b + 1;
    }
    let mut with_events: usize = 0;
    let mut s: usize = 0;
    while s < ns
        invariant
            ns == t.steps.len(),
            steps == t.steps@,
            s <= ns,
            with_events == busy_slots(steps, s as int),
            with_events <= s,
        decreases ns - s,
    {
        if t.steps[s].len() > 0 {
            with_events = with_events + 1;
        }
        s = s + 1;
    }
    let r = TypeStats {
        object_type: object_type.to_owned(),
        objects: ns,
        with_events,
        trace_len: spread(&lengths),
        active_span: spread(&spans),
        activity_types: count,
    };
    assert(stats_of(t, object_type@, r));
    proof {
        assert forall|s2: int| 0 <= s2 < t.steps.len() implies #[trigger] t.steps@[s2].len() <= i64::MAX by {
            crate::replay::lemma_slot_len(*log, object_type@, t, s2);
        }
        law_trace_len_covers_busy_objects(t, object_type@, r);
    }
    r
}


/// Entry `q` of `r` describes type `names[perm[q]]`.
pub open spec fn stats_listed(log: EventLog, names: Seq<Seq<char>>, perm: Seq<usize>, r: Seq<TypeStats>) -> bool {
    &&& r.len() == perm.len()
    &&& forall|q: int| 0 <= q < r.len() ==> #[trigger] type_ok(log, names[perm[q] as int], r[q]) && r[q].object_type@ == names[perm[q] as int]
}

/// The types of the log, in the order `type_names` gives them.
fn log_types(log: &EventLog) -> (names: Vec<String>)
    ensures
        texts(names@) == type_names(*log, log.objects.len() as int),
{
    let mut names: Vec<String> = Vec::new();
    let mut i: usize = 0;
    while i < log.object_types.len()
        invariant
            i <= log.object_types.len(),
            texts(names@) == texts(log.object_types@).take(i as int),
        decreases log.object_types.len() - i,
    {
        let ghost n0 = names@;
        names.push(log.object_types[i].clone());
        proof {
            assert(texts(names@) =~= texts(n0).push(log.object_types@[i as int]@));
            assert(texts(log.object_types@).take(i + 1) =~= texts(log.object_types@).take(i as int).push(log.object_types@[i as int]@));
        }
        i = i + 1;
    }
    assert(texts(log.object_types@).take(log.object_types.len() as int) =~= texts(log.object_types@));
    let mut k: usize = 0;
    while k < log.objects.len()
        invariant
            k <= log.objects.len(),
            texts(names@) == type_names(*log, k as int),
        decreases log.objects.len() - k,
    {
        let ghost n0 = names@;
        if !has_name(&names, &log.objects[k].object_type) {
            names.push(log.objects[k].object_type.clone());
            assert(texts(names@) =~= texts(n0).push(log.objects@[k as int].object_type@));
        }
        k = k + 1;
    }
    names
}

/// Compute the statistics of every object type of the log, by descending
/// object count, ties by name.
pub fn type_stats(log: &EventLog) -> (r: Vec<TypeStats>)
    requires
        log.wf(),
        log.events.len() <= i64::MAX,
    ensures
        exists|perm: Seq<usize>|
            is_permutation(perm, type_names(*log, log.objects.len() as int).len()) && #[trigger] stats_listed(
                *log,
                type_names(*log, log.objects.len() as int),
                perm,
                r@,
            ),
        forall|i: int, j: int| 0 <= i < j < r.len() ==> stats_before(#[trigger] r[i], #[trigger] r[j]),
{
    let names = log_types(log);
    let ghost tn = texts(names@);
    let ranks = name_ranks(&names);
    let nn = names.len();
    let mut keys: Vec<Vec<i128>> = Vec::new();
    let mut objs: Vec<usize> = Vec::new();
    let mut i: usize = 0;
    while i < nn
        invariant
            log.wf(),
            log.events.len() <= i64::MAX,
            nn == names.len(),
            ranks.len() == nn,
            i <= nn,
            keys.len() == i,
            objs.len() == i,
            forall|h: int| 0 <= h < i ==> #[trigger] objs[h] == log.members(names[h]@).len(),
            forall|h: int| 0 <= h < i ==> #[trigger] keys[h]@ == seq![descending(objs[h]), ranks@[h] as i128, h as i128],
        decreases nn - i,
    {
        let st = stats_for(log, names[i].as_str());
        let d: i128 = 0 - (st.objects as i128);
        keys.push(vec![d, ranks[i] as i128, i as i128]);
        objs.push(st.objects);
        i = i + 1;
    }
    let perm = sort_by_keys(&keys);
    let ghost ks = keys@.map_values(|k: Vec<i128>| k@);
    let mut out: Vec<TypeStats> = Vec::new();
    let mut j: usize = 0;
    while j < nn
        invariant
            log.wf(),
            log.events.len() <= i64::MAX,
            nn == names.len(),
            objs.len() == nn,
            forall|h: int| 0 <= h < nn ==> #[trigger] objs[h] == log.members(names[h]@).len(),
            is_permutation(perm@, nn as nat),
            j <= nn,
            out.len() == j,
            forall|h: int| 0 <= h < j ==> #[trigger] type_ok(*log, names[perm[h] as int]@, out[h]),
            forall|h: int| 0 <= h < j ==> #[trigger] out[h].object_type@ == names[perm[h] as int]@,
            forall|h: int| 0 <= h < j ==> #[trigger] out[h].objects == objs[perm[h] as int],
        decreases nn - j,
    {
        let c = perm[j];
        let st = stats_for(log, names[c].as_str());
        out.push(st);
        j = j + 1;
    }
    proof {
        assert(stats_listed(*log, tn, perm@, out@));
        assert forall|i2: int, j2: int| 0 <= i2 < j2 < out.len() implies stats_before(#[trigger] out[i2], #[trigger] out[j2]) by {
            let ci = perm[i2] as int;
            let cj = perm[j2] as int;
            assert(key_le(ks[ci], ks[cj]));
            lemma_key_three(descending(objs[ci]), ranks@[ci] as i128, ci as i128, descending(objs[cj]), ranks@[cj] as i128, cj as i128);
            lemma_key_three(descending(objs[cj]), ranks@[cj] as i128, cj as i128, descending(objs[ci]), ranks@[ci] as i128, ci as i128);
            let a = names[ci]@;
            let b = names[cj]@;
            assert(tn[ci] == a && tn[cj] == b);
            if a != b {
                lemma_text_lt_total(a, b);
                if text_lt(a, b) {
                    lemma_count_before_monotone(tn, a, b, nn as int);
                } else {
                    lemma_count_before_monotone(tn, b, a, nn as int);
                }
            }
            assert(ci != cj);
        }
    }
    out
}

/// The trace lengths of the first `k` slots: one per slot with events,
/// each at least one, summing to at least their number.
proof fn lemma_trace_lengths(steps: Seq<Vec<Step>>, k: int)
    requires
        0 <= k <= steps.len(),
        forall|s: int| 0 <= s < steps.len() ==> #[trigger] steps[s].len() <= i64::MAX,
    ensures
        trace_lengths(steps, k).len() == busy_slots(steps, k),
        busy_slots(steps, k) <= k,
        forall|i: int| 0 <= i < trace_lengths(steps, k).len() ==> #[trigger] trace_lengths(steps, k)[i] >= 1,
        seq_sum(trace_lengths(steps, k)) >= trace_lengths(steps, k).len(),
        active_spans(steps, k).len() <= busy_slots(steps, k),
    decreases k,
{
    if k > 0 {
        lemma_trace_lengths(steps, k - 1);
        let xs = trace_lengths(steps, k - 1);
        if steps[k - 1].len() > 0 {
            let x = steps[k - 1].len() as i64;
            assert(x >= 1);
            assert(xs.push(x).drop_last() =~= xs);
            assert forall|i: int| 0 <= i < xs.push(x).len() implies #[trigger] xs.push(x)[i] >= 1 by {
                if i < xs.len() {
                    assert(xs.push(x)[i] == xs[i]);
                }
            }
        }
    }
}

/// The trace-length summary of a type covers exactly its objects with
/// events: it counts as many values as there are such objects, never more
/// than the objects of the type, and every value it summarizes is a length
/// of at least one; the span summary covers no object without events.
pub proof fn law_trace_len_covers_busy_objects(t: Traces, ty: Seq<char>, r: TypeStats)
    requires
        stats_of(t, ty, r),
        forall|s: int| 0 <= s < t.steps.len() ==> #[trigger] t.steps@[s].len() <= i64::MAX,
    ensures
        r.trace_len.count == r.with_events,
        r.with_events <= r.objects,
        r.trace_len.sum >= r.trace_len.count,
        r.with_events > 0 ==> r.trace_len.low >= 1 && r.trace_len.high >= 1 && r.trace_len.p90 >= 1,
        r.active_span.count <= r.with_events,
{
    let steps = t.steps@;
    let n = steps.len() as int;
    lemma_trace_lengths(steps, n);
    let xs = trace_lengths(steps, n);
    if r.with_events > 0 {
        let m = xs.len() as int;
        let perm = choose|perm: Seq<usize>|
            #[trigger] sorts(xs, perm) && r.trace_len.low == xs[perm[(m - 1) / 2] as int] && r.trace_len.high == xs[perm[m / 2] as int]
                && r.trace_len.p90 == xs[perm[p90_rank(m)] as int];
        assert(0 <= p90_rank(m) < m) by (nonlinear_arith)
            requires
                m >= 1,
                p90_rank(m) == (9 * m + 9) / 10 - 1;
        assert(perm[(m - 1) / 2] < m && perm[m / 2] < m && perm[p90_rank(m)] < m);
        assert(xs[perm[(m - 1) / 2] as int] >= 1);
        assert(xs[perm[m / 2] as int] >= 1);
        assert(xs[perm[p90_rank(m)] as int] >= 1);
    }
}

} // verus!
