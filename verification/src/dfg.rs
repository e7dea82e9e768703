//! Directly-follows graphs of one object type, and their object-centric
//! overlay.
//!
//! Edges are counted within one object type only: each edge keeps its type,
//! and shared events are never double-counted across types.
use vstd::prelude::*;
use crate::log::{EventLog, Timestamp, span_secs, time_nanos, time_ok, seconds_between};
use crate::trace::{Step, Traces, build};
use crate::keysort::{is_permutation, key_le, key_lt, lemma_key_lt_total, occurs, sort_by_keys, sorted_by_keys};
use crate::text::{name_ranks, ranks_of, text_lt, lemma_rank_pair};
use crate::variants::{descending, lemma_key_head};
use crate::spread::{Spread, spread, spread_of};

verus! {

/// How many of the first `k` steps of `row` have activity `a`.
pub open spec fn row_count(row: Seq<Step>, a: int, k: int) -> nat
    decreases k,
{
    if k <= 0 {
        0
    } else {
        row_count(row, a, k - 1) + if row[k - 1].activity == a {
            1nat
        } else {
            0nat
        }
    }
}

/// Trace steps with activity `a` over the first `s` slots.
pub open spec fn act_count(steps: Seq<Vec<Step>>, a: int, s: int) -> nat
    decreases s,
{
    if s <= 0 {
        0
    } else {
        act_count(steps, a, s - 1) + row_count(steps[s - 1]@, a, steps[s - 1].len() as int)
    }
}

/// Slots among the first `s` whose trace holds activity `a`.
pub open spec fn slots_with(steps: Seq<Vec<Step>>, a: int, s: int) -> nat
    decreases s,
{
    if s <= 0 {
        0
    } else {
        slots_with(steps, a, s - 1) + if row_count(steps[s - 1]@, a, steps[s - 1].len() as int) > 0 {
            1nat
        } else {
            0nat
        }
    }
}

/// Slots among the first `s` whose trace starts (`first`) or ends with `a`.
pub open spec fn edge_count(steps: Seq<Vec<Step>>, a: int, s: int, first: bool) -> nat
    decreases s,
{
    if s <= 0 {
        0
    } else {
        let row = steps[s - 1]@;
        edge_count(steps, a, s - 1, first) + if row.len() > 0 && (if first { row[0].activity } else { row.last().activity }) == a {
            1nat
        } else {
            0nat
        }
    }
}

/// All trace steps over the first `s` slots.
pub open spec fn total_steps(steps: Seq<Vec<Step>>, s: int) -> nat
    decreases s,
{
    if s <= 0 {
        0
    } else {
        total_steps(steps, s - 1) + steps[s - 1]@.len()
    }
}

/// The gap in seconds between step `k` of `row` and the next.
pub open spec fn gap(row: Seq<Step>, k: int) -> i64 {
    span_secs(row[k].time, row[k + 1].time) as i64
}

/// The gaps of the steps `a` directly followed by `b` among the first `k`
/// steps of `row`.
pub open spec fn row_gaps(row: Seq<Step>, a: int, b: int, k: int) -> Seq<i64>
    decreases k,
{
    if k <= 1 {
        Seq::empty()
    } else if row[k - 2].activity == a && row[k - 1].activity == b {
        row_gaps(row, a, b, k - 1).push(gap(row, k - 2))
    } else {
        row_gaps(row, a, b, k - 1)
    }
}

/// The gaps of `a` directly followed by `b` over the first `s` slots, in
/// trace order.
pub open spec fn pair_gaps(steps: Seq<Vec<Step>>, a: int, b: int, s: int) -> Seq<i64>
    decreases s,
{
    if s <= 0 {
        Seq::empty()
    } else {
        pair_gaps(steps, a, b, s - 1) + row_gaps(steps[s - 1]@, a, b, steps[s - 1].len() as int)
    }
}

/// Slots among the first `s` where `a` is directly followed by `b`.
pub open spec fn pair_slots(steps: Seq<Vec<Step>>, a: int, b: int, s: int) -> nat
    decreases s,
{
    if s <= 0 {
        0
    } else {
        pair_slots(steps, a, b, s - 1) + if row_gaps(steps[s - 1]@, a, b, steps[s - 1].len() as int).len() > 0 {
            1nat
        } else {
            0nat
        }
    }
}

pub proof fn lemma_row_count_bound(row: Seq<Step>, a: int, k: int)
    requires
        k >= 0,
    ensures
        row_count(row, a, k) <= k,
    decreases k,
{
    if k > 0 {
        lemma_row_count_bound(row, a, k - 1);
    }
}

pub proof fn lemma_act_count_bound(steps: Seq<Vec<Step>>, a: int, s: int)
    requires
        0 <= s <= steps.len(),
    ensures
        act_count(steps, a, s) <= total_steps(steps, s),
        slots_with(steps, a, s) <= s,
        edge_count(steps, a, s, true) <= s,
        edge_count(steps, a, s, false) <= s,
    decreases s,
{
    if s > 0 {
        lemma_act_count_bound(steps, a, s - 1);
        lemma_row_count_bound(steps[s - 1]@, a, steps[s - 1].len() as int);
    }
}

pub proof fn lemma_total_steps_monotone(steps: Seq<Vec<Step>>, s1: int, s2: int)
    requires
        0 <= s1 <= s2 <= steps.len(),
    ensures
        total_steps(steps, s1) <= total_steps(steps, s2),
    decreases s2 - s1,
{
    if s1 < s2 {
        lemma_total_steps_monotone(steps, s1, s2 - 1);
    }
}

/// Per activity below `n`: its trace steps, the slots holding it, and the
/// slots starting and ending with it.
pub(crate) fn node_counts(t: &Traces, n: usize) -> (r: (Vec<usize>, Vec<usize>, Vec<usize>, Vec<usize>))
    requires
        forall|s: int, k: int| 0 <= s < t.steps.len() && 0 <= k < t.steps[s].len() ==> #[trigger] t.steps[s]@[k].activity < n,
        total_steps(t.steps@, t.steps.len() as int) <= usize::MAX,
    ensures
        r.0.len() == n,
        r.1.len() == n,
        r.2.len() == n,
        r.3.len() == n,
        forall|a: int| 0 <= a < n ==> #[trigger] r.0[a] == act_count(t.steps@, a, t.steps.len() as int),
        forall|a: int| 0 <= a < n ==> #[trigger] r.1[a] == slots_with(t.steps@, a, t.steps.len() as int),
        forall|a: int| 0 <= a < n ==> #[trigger] r.2[a] == edge_count(t.steps@, a, t.steps.len() as int, true),
        forall|a: int| 0 <= a < n ==> #[trigger] r.3[a] == edge_count(t.steps@, a, t.steps.len() as int, false),
{
    let ghost steps = t.steps@;
    let ns = t.steps.len();
    let mut events: Vec<usize> = Vec::new();
    let mut objects: Vec<usize> = Vec::new();
    let mut starts: Vec<usize> = Vec::new();
    let mut ends: Vec<usize> = Vec::new();
    let mut last_slot: Vec<usize> = Vec::new();
    let mut a: usize = 0;
    while a < n
        invariant
            a <= n,
            events.len() == a,
            objects.len() == a,
            starts.len() == a,
            ends.len() == a,
            last_slot.len() == a,
            forall|b: int| 0 <= b < a ==> #[trigger] events[b] == 0,
            forall|b: int| 0 <= b < a ==> #[trigger] objects[b] == 0,
            forall|b: int| 0 <= b < a ==> #[trigger] starts[b] == 0,
            forall|b: int| 0 <= b < a ==> #[trigger] ends[b] == 0,
            forall|b: int| 0 <= b < a ==> #[trigger] last_slot[b] == usize::MAX,
        decreases n - a,
    {
        events.push(0);
        objects.push(0);
        starts.push(0);
        ends.push(0);
        last_slot.push(usize::MAX);
        a = a + 1;
    }
    let mut s: usize = 0;
    while s < ns
        invariant
            ns == t.steps.len(),
            steps == t.steps@,
            forall|s2: int, k: int| 0 <= s2 < ns && 0 <= k < steps[s2].len() ==> #[trigger] steps[s2]@[k].activity < n,
            total_steps(steps, ns as int) <= usize::MAX,
            s <= ns,
            events.len() == n,
            objects.len() == n,
            starts.len() == n,
            ends.len() == n,
            last_slot.len() == n,
            forall|b: int| 0 <= b < n ==> #[trigger] events[b] == act_count(steps, b, s as int),
            forall|b: int| 0 <= b < n ==> #[trigger] objects[b] == slots_with(steps, b, s as int),
            forall|b: int| 0 <= b < n ==> #[trigger] starts[b] == edge_count(steps, b, s as int, true),
            forall|b: int| 0 <= b < n ==> #[trigger] ends[b] == edge_count(steps, b, s as int, false),
            forall|b: int| 0 <= b < n ==> #[trigger] last_slot[b] == usize::MAX || last_slot[b] < s,
        decreases ns - s,
    {
        let row = &t.steps[s];
        let len = row.len();
        let ghost s1 = s + 1;
        proof {
            lemma_total_steps_monotone(steps, s1, ns as int);
            assert forall|b: int| 0 <= b < n implies #[trigger] act_count(steps, b, s1) <= usize::MAX by {
                lemma_act_count_bound(steps, b, s1);
            }
            assert forall|b: int| 0 <= b < n implies #[trigger] slots_with(steps, b, s1) <= s1 by {
                lemma_act_count_bound(steps, b, s1);
            }
        }
        let mut k: usize = 0;
        while k < len
            invariant
                ns == t.steps.len(),
                steps == t.steps@,
                s < ns,
                row == &t.steps[s as int],
                len == row.len(),
                forall|k2: int| 0 <= k2 < len ==> #[trigger] row@[k2].activity < n,
                s1 == s + 1,
                forall|b: int| 0 <= b < n ==> #[trigger] act_count(steps, b, s1) <= usize::MAX,
                forall|b: int| 0 <= b < n ==> #[trigger] slots_with(steps, b, s1) <= s1,
                k <= len,
                events.len() == n,
                objects.len() == n,
                last_slot.len() == n,
                forall|b: int| 0 <= b < n ==> #[trigger] events[b] == act_count(steps, b, s as int) + row_count(row@, b, k as int),
                forall|b: int| 0 <= b < n ==> #[trigger] objects[b] == slots_with(steps, b, s as int) + if row_count(row@, b, k as int) > 0 { 1nat } else { 0nat },
                forall|b: int| 0 <= b < n ==> (#[trigger] last_slot[b] == s) == (row_count(row@, b, k as int) > 0),
                forall|b: int| 0 <= b < n ==> #[trigger] last_slot[b] == usize::MAX || last_slot[b] <= s,
            decreases len - k,
        {
            let x = row[k].activity;
            proof {
                lemma_row_count_bound(row@, x as int, k as int);
                let k1 = k + 1;
                assert forall|b: int| 0 <= b < n implies #[trigger] row_count(row@, b, k1) == row_count(row@, b, k as int) + if row@[k as int].activity == b { 1nat } else { 0nat } by {}
                assert(row_count(row@, x as int, len as int) >= row_count(row@, x as int, k + 1)) by {
                    lemma_row_count_monotone(row@, x as int, k + 1, len as int);
                }
                assert(act_count(steps, x as int, s1) <= usize::MAX);
                assert(steps[s as int]@ == row@);
                lemma_act_count_bound(steps, x as int, s as int);
            }
            events.set(x, events[x] + 1);
            if last_slot[x] != s {
                last_slot.set(x, s);
                objects.set(x, objects[x] + 1);
            }
            k = k + 1;
        }
        if len > 0 {
            let first = row[0].activity;
            let last = row[len - 1].activity;
            proof {
                lemma_act_count_bound(steps, first as int, s1);
                lemma_act_count_bound(steps, last as int, s1);
            }
            starts.set(first, starts[first] + 1);
            ends.set(last, ends[last] + 1);
        }
        s = s + 1;
    }
    (events, objects, starts, ends)
}

pub proof fn lemma_row_count_monotone(row: Seq<Step>, a: int, k1: int, k2: int)
    requires
        k1 <= k2,
    ensures
        row_count(row, a, k1) <= row_count(row, a, k2),
    decreases k2 - k1,
{
    if k1 < k2 {
        lemma_row_count_monotone(row, a, k1, k2 - 1);
    }
}


/// Consecutive steps of every trace are in time order, with times in range.
pub open spec fn timed(steps: Seq<Vec<Step>>) -> bool {
    forall|s: int, k: int|
        0 <= s < steps.len() && 0 <= k && k + 1 < steps[s].len() ==> {
            &&& time_ok(#[trigger] steps[s]@[k].time)
            &&& time_ok(steps[s]@[k + 1].time)
            &&& time_nanos(steps[s]@[k].time) <= time_nanos(steps[s]@[k + 1].time)
        }
}

pub proof fn lemma_pair_slots_bound(steps: Seq<Vec<Step>>, a: int, b: int, s: int)
    requires
        0 <= s,
    ensures
        pair_slots(steps, a, b, s) <= s,
    decreases s,
{
    if s > 0 {
        lemma_pair_slots_bound(steps, a, b, s - 1);
    }
}

/// The gaps of `a` directly followed by `b` in the traces, and the slots
/// holding the pair.
fn pair_scan(t: &Traces, a: usize, b: usize) -> (r: (Vec<i64>, usize))
    requires
        timed(t.steps@),
    ensures
        r.0@ == pair_gaps(t.steps@, a as int, b as int, t.steps.len() as int),
        r.1 == pair_slots(t.steps@, a as int, b as int, t.steps.len() as int),
{
    let ghost steps = t.steps@;
    let ns = t.steps.len();
    let mut gaps: Vec<i64> = Vec::new();
    let mut slots: usize = 0;
    let mut s: usize = 0;
    while s < ns
        invariant
            ns == t.steps.len(),
            steps == t.steps@,
            timed(steps),
            s <= ns,
            gaps@ == pair_gaps(steps, a as int, b as int, s as int),
            slots == pair_slots(steps, a as int, b as int, s as int),
            slots <= s,
        decreases ns - s,
    {
        let row = &t.steps[s];
        let len = row.len();
        let ghost g0 = gaps@;
        let mut hit = false;
        let mut k: usize = 1;
        while k < len
            invariant
                ns == t.steps.len(),
                steps == t.steps@,
                timed(steps),
                s < ns,
                row == &t.steps[s as int],
                len == row.len(),
                1 <= k,
                k <= len || k == 1,
                gaps@ == g0 + row_gaps(row@, a as int, b as int, k as int),
                hit == (row_gaps(row@, a as int, b as int, k as int).len() > 0),
            decreases len - k,
        {
            if row[k - 1].activity == a && row[k].activity == b {
                proof {
                    let k0 = (k - 1) as int;
                    assert(time_ok(steps[s as int]@[k0].time));
                }
                let g = seconds_between(row[k - 1].time, row[k].time);
                gaps.push(g);
                hit = true;
            }
            k = k + 1;
        }
        proof {
            if len == 0 {
                assert(row_gaps(row@, a as int, b as int, k as int) =~= row_gaps(row@, a as int, b as int, len as int));
            }
            assert(row_gaps(row@, a as int, b as int, k as int) == row_gaps(row@, a as int, b as int, len as int));
            assert(steps[s as int]@ == row@);
        }
        if hit {
            slots = slots + 1;
        }
        s = s + 1;
    }
    (gaps, slots)
}

/// Some pair `a`, `b` occurs among the first `k` steps of `row`.
pub proof fn lemma_row_gaps_occurs(row: Seq<Step>, a: int, b: int, k: int)
    requires
        k <= row.len(),
    ensures
        (row_gaps(row, a, b, k).len() > 0) == exists|j: int| 0 <= j && j + 1 < k && #[trigger] row[j].activity == a && row[j + 1].activity == b,
    decreases k,
{
    if k > 1 {
        lemma_row_gaps_occurs(row, a, b, k - 1);
        if exists|j: int| 0 <= j && j + 1 < k && #[trigger] row[j].activity == a && row[j + 1].activity == b {
            let j = choose|j: int| 0 <= j && j + 1 < k && #[trigger] row[j].activity == a && row[j + 1].activity == b;
            if j + 1 < k - 1 {
                assert(row_gaps(row, a, b, k - 1).len() > 0);
            }
        }
    }
}

/// The pair `a`, `b` occurs in the traces of the first `s` slots exactly
/// when its gaps there are not empty.
pub proof fn lemma_pair_gaps_occurs(steps: Seq<Vec<Step>>, a: int, b: int, s: int)
    requires
        0 <= s <= steps.len(),
    ensures
        (pair_gaps(steps, a, b, s).len() > 0) == crate::alpha::df_before(steps, s, 0, a, b),
    decreases s,
{
    if s > 0 {
        lemma_pair_gaps_occurs(steps, a, b, s - 1);
        let row = steps[s - 1]@;
        lemma_row_gaps_occurs(row, a, b, row.len() as int);
        if crate::alpha::df_before(steps, s, 0, a, b) {
            let (s2, k2) = choose|s2: int, k2: int|
                0 <= s2 < steps.len() && 0 <= k2 && k2 + 1 < steps[s2].len() && (s2 < s || (s2 == s && k2 < 0))
                    && #[trigger] steps[s2]@[k2].activity == a && steps[s2]@[k2 + 1].activity == b;
            if s2 < s - 1 {
                assert(crate::alpha::df_before(steps, s - 1, 0, a, b));
            } else {
                assert(row[k2].activity == a);
            }
        }
        if row_gaps(row, a, b, row.len() as int).len() > 0 {
            let j = choose|j: int| 0 <= j && j + 1 < row.len() && #[trigger] row[j].activity == a && row[j + 1].activity == b;
            assert(steps[s - 1]@[j].activity == a);
        }
        if crate::alpha::df_before(steps, s - 1, 0, a, b) {
            let (s2, k2) = choose|s2: int, k2: int|
                0 <= s2 < steps.len() && 0 <= k2 && k2 + 1 < steps[s2].len() && (s2 < s - 1 || (s2 == s - 1 && k2 < 0))
                    && #[trigger] steps[s2]@[k2].activity == a && steps[s2]@[k2 + 1].activity == b;
            assert(crate::alpha::df_before(steps, s, 0, a, b));
        }
    }
}

/// The directly-follows pairs of the traces, in order of their activity
/// ids: their gaps in trace order, and the slots holding each.
fn edge_lists(t: &Traces, n: usize) -> (r: (Vec<usize>, Vec<usize>, Vec<Vec<i64>>, Vec<usize>))
    requires
        n == t.activity_names.len(),
        forall|s: int, k: int| 0 <= s < t.steps.len() && 0 <= k < t.steps[s].len() ==> #[trigger] t.steps[s]@[k].activity < n,
        timed(t.steps@),
    ensures
        r.1.len() == r.0.len(),
        r.2.len() == r.0.len(),
        r.3.len() == r.0.len(),
        forall|e: int| 0 <= e < r.0.len() ==> #[trigger] r.0[e] < n && r.1[e] < n,
        forall|e: int| 0 <= e < r.0.len() ==> #[trigger] r.2[e]@ == pair_gaps(t.steps@, r.0[e] as int, r.1[e] as int, t.steps.len() as int),
        forall|e: int| 0 <= e < r.0.len() ==> #[trigger] r.3[e] == pair_slots(t.steps@, r.0[e] as int, r.1[e] as int, t.steps.len() as int),
        forall|e: int| 0 <= e < r.0.len() ==> #[trigger] r.2[e].len() > 0,
        forall|a: int, b: int| 0 <= a < n && 0 <= b < n && #[trigger] pair_gaps(t.steps@, a, b, t.steps.len() as int).len() > 0 ==> exists|e: int|
            0 <= e < r.0.len() && r.0[e] == a && #[trigger] r.1[e] == b,
        forall|e1: int, e2: int| 0 <= e1 < e2 < r.0.len() ==> #[trigger] r.0[e1] != #[trigger] r.0[e2] || r.1[e1] != r.1[e2],
{
    let ghost steps = t.steps@;
    let ghost ns = t.steps.len() as int;
    let (follows, _starts, _ends) = crate::alpha::footprint(t);
    let mut from: Vec<usize> = Vec::new();
    let mut to: Vec<usize> = Vec::new();
    let mut gaps: Vec<Vec<i64>> = Vec::new();
    let mut objs: Vec<usize> = Vec::new();
    let mut a: usize = 0;
    while a < n
        invariant
            n == t.activity_names.len(),
            steps == t.steps@,
            ns == t.steps.len(),
            timed(steps),
            crate::alpha::square_n(follows@, n as int),
            forall|x: int, y: int| 0 <= x < n && 0 <= y < n ==> #[trigger] follows@[x]@[y] == crate::alpha::df_ids(steps, x, y),
            a <= n,
            to.len() == from.len(),
            gaps.len() == from.len(),
            objs.len() == from.len(),
            forall|e: int| 0 <= e < from.len() ==> #[trigger] from[e] < a && to[e] < n,
            forall|e: int| 0 <= e < from.len() ==> #[trigger] gaps[e]@ == pair_gaps(steps, from[e] as int, to[e] as int, ns),
            forall|e: int| 0 <= e < from.len() ==> #[trigger] objs[e] == pair_slots(steps, from[e] as int, to[e] as int, ns),
            forall|e: int| 0 <= e < from.len() ==> #[trigger] gaps[e].len() > 0,
            forall|x: int, y: int| 0 <= x < a && 0 <= y < n && #[trigger] pair_gaps(steps, x, y, ns).len() > 0 ==> exists|e: int|
                0 <= e < from.len() && from[e] == x && #[trigger] to[e] == y,
            forall|e1: int, e2: int| 0 <= e1 < e2 < from.len() ==> #[trigger] from[e1] < #[trigger] from[e2] || (from[e1] == from[e2] && to[e1] < to[e2]),
        decreases n - a,
    {
        let mut b: usize = 0;
        assert(follows@[a as int].len() == n);
        while b < n
            invariant
                n == t.activity_names.len(),
                steps == t.steps@,
                ns == t.steps.len(),
                timed(steps),
                crate::alpha::square_n(follows@, n as int),
                forall|x: int, y: int| 0 <= x < n && 0 <= y < n ==> #[trigger] follows@[x]@[y] == crate::alpha::df_ids(steps, x, y),
                a < n,
                b <= n,
                follows@[a as int].len() == n,
                to.len() == from.len(),
                gaps.len() == from.len(),
                objs.len() == from.len(),
                forall|e: int| 0 <= e < from.len() ==> #[trigger] from[e] <= a && to[e] < n,
                forall|e: int| 0 <= e < from.len() && from[e] == a ==> #[trigger] to[e] < b,
                forall|e: int| 0 <= e < from.len() ==> #[trigger] gaps[e]@ == pair_gaps(steps, from[e] as int, to[e] as int, ns),
                forall|e: int| 0 <= e < from.len() ==> #[trigger] objs[e] == pair_slots(steps, from[e] as int, to[e] as int, ns),
                forall|e: int| 0 <= e < from.len() ==> #[trigger] gaps[e].len() > 0,
                forall|x: int, y: int| ((0 <= x < a && 0 <= y < n) || (x == a && 0 <= y < b)) && #[trigger] pair_gaps(steps, x, y, ns).len() > 0 ==> exists|e: int|
                    0 <= e < from.len() && from[e] == x && #[trigger] to[e] == y,
                forall|e1: int, e2: int| 0 <= e1 < e2 < from.len() ==> #[trigger] from[e1] < #[trigger] from[e2] || (from[e1] == from[e2] && to[e1] < to[e2]),
            decreases n - b,
        {
            proof {
                lemma_pair_gaps_occurs(steps, a as int, b as int, ns);
            }
            let ghost (f0, t0) = (from@, to@);
            let present = follows[a][b];
            if present {
                let (gs, o) = pair_scan(t, a, b);
                from.push(a);
                to.push(b);
                gaps.push(gs);
                objs.push(o);
            }
            proof {
                assert forall|x: int, y: int| ((0 <= x < a && 0 <= y < n) || (x == a && 0 <= y < b + 1)) && #[trigger] pair_gaps(steps, x, y, ns).len() > 0 implies exists|e: int|
                    0 <= e < from.len() && from[e] == x && #[trigger] to[e] == y by {
                    if x == a && y == b {
                        assert(present);
                        assert(from[from.len() - 1] == x && to[to.len() - 1] == y);
                    } else {
                        let e = choose|e: int| 0 <= e < f0.len() && f0[e] == x && #[trigger] t0[e] == y;
                        assert(from[e] == f0[e] && to[e] == t0[e]);
                    }
                }
            }
            b = b + 1;
        }
        a = a + 1;
    }
    proof {
        assert forall|e1: int, e2: int| 0 <= e1 < e2 < from.len() implies #[trigger] from[e1] != #[trigger] from[e2] || to[e1] != to[e2] by {
            assert(from[e1] < from[e2] || (from[e1] == from[e2] && to[e1] < to[e2]));
        }
    }
    (from, to, gaps, objs)
}


/// An activity node of one type's directly-follows graph.
#[derive(Clone, Debug)]
pub struct DfgNode {
    pub activity: String,
    /// Trace steps with this activity.
    pub events: usize,
    /// Objects whose trace holds the activity.
    pub objects: usize,
    /// Traces starting here.
    pub starts: usize,
    /// Traces ending here.
    pub ends: usize,
}

/// A directly-follows edge of one type's graph.
#[derive(Clone, Debug)]
pub struct DfgEdge {
    pub from: String,
    pub to: String,
    /// Directly-follows occurrences.
    pub frequency: usize,
    /// Objects exhibiting the edge.
    pub objects: usize,
    /// The gaps between the two events, in seconds.
    pub gaps: Spread,
}

/// The directly-follows graph of one object type.
#[derive(Clone, Debug)]
pub struct Dfg {
    pub object_type: String,
    pub objects: usize,
    pub with_events: usize,
    /// Sorted by descending event count, ties by activity name.
    pub nodes: Vec<DfgNode>,
    /// Sorted by descending frequency, ties by (from, to) names.
    pub edges: Vec<DfgEdge>,
}

/// Slots among the first `s` with at least one step.
pub open spec fn busy_slots(steps: Seq<Vec<Step>>, s: int) -> nat
    decreases s,
{
    if s <= 0 {
        0
    } else {
        busy_slots(steps, s - 1) + if steps[s - 1].len() > 0 {
            1nat
        } else {
            0nat
        }
    }
}

/// Node `v` is activity `a`'s.
pub open spec fn node_of(steps: Seq<Vec<Step>>, names: Seq<String>, a: int, v: DfgNode) -> bool {
    let s = steps.len() as int;
    &&& v.activity@ == names[a]@
    &&& v.events == act_count(steps, a, s)
    &&& v.objects == slots_with(steps, a, s)
    &&& v.starts == edge_count(steps, a, s, true)
    &&& v.ends == edge_count(steps, a, s, false)
}

/// Node `v` is the node of an activity with steps.
pub open spec fn some_node(steps: Seq<Vec<Step>>, names: Seq<String>, v: DfgNode) -> bool {
    exists|a: int| 0 <= a < names.len() && act_count(steps, a, steps.len() as int) > 0 && #[trigger] node_of(steps, names, a, v)
}

/// Some node of `nodes` is activity `a`'s.
pub open spec fn listed_node(steps: Seq<Vec<Step>>, names: Seq<String>, a: int, nodes: Seq<DfgNode>) -> bool {
    exists|j: int| 0 <= j < nodes.len() && #[trigger] node_of(steps, names, a, nodes[j])
}

/// `v` sorts before `w`: more events, or as many and a smaller name.
pub open spec fn node_before(v: DfgNode, w: DfgNode) -> bool {
    v.events > w.events || (v.events == w.events && text_lt(v.activity@, w.activity@))
}

/// Edge `x` is the pair `a`, `b`'s.
pub open spec fn edge_of(steps: Seq<Vec<Step>>, names: Seq<String>, a: int, b: int, x: DfgEdge) -> bool {
    let s = steps.len() as int;
    &&& x.from@ == names[a]@
    &&& x.to@ == names[b]@
    &&& x.frequency == pair_gaps(steps, a, b, s).len()
    &&& x.objects == pair_slots(steps, a, b, s)
    &&& spread_of(pair_gaps(steps, a, b, s), x.gaps)
}

/// Edge `x` is the edge of a pair that occurs.
pub open spec fn some_edge(steps: Seq<Vec<Step>>, names: Seq<String>, x: DfgEdge) -> bool {
    exists|a: int, b: int|
        0 <= a < names.len() && 0 <= b < names.len() && pair_gaps(steps, a, b, steps.len() as int).len() > 0 && #[trigger] edge_of(steps, names, a, b, x)
}

/// Some edge of `edges` is the pair `a`, `b`'s.
pub open spec fn listed_edge(steps: Seq<Vec<Step>>, names: Seq<String>, a: int, b: int, edges: Seq<DfgEdge>) -> bool {
    exists|j: int| 0 <= j < edges.len() && #[trigger] edge_of(steps, names, a, b, edges[j])
}

/// `x` sorts before `y`: more frequent, or as frequent and smaller (from,
/// to) names.
pub open spec fn edge_before(x: DfgEdge, y: DfgEdge) -> bool {
    ||| x.frequency > y.frequency
    ||| (x.frequency == y.frequency && text_lt(x.from@, y.from@))
    ||| (x.frequency == y.frequency && x.from@ == y.from@ && text_lt(x.to@, y.to@))
}

/// `r` is the directly-follows graph of the traces `t` of type `ty`.
pub open spec fn dfg_of(t: Traces, ty: Seq<char>, r: Dfg) -> bool {
    let steps = t.steps@;
    let names = t.activity_names@;
    let n = names.len() as int;
    &&& r.object_type@ == ty
    &&& r.objects == steps.len()
    &&& r.with_events == busy_slots(steps, steps.len() as int)
    &&& forall|j: int| 0 <= j < r.nodes.len() ==> some_node(steps, names, #[trigger] r.nodes[j])
    &&& forall|a: int| 0 <= a < n && act_count(steps, a, steps.len() as int) > 0 ==> #[trigger] listed_node(steps, names, a, r.nodes@)
    &&& forall|i: int, j: int| 0 <= i < j < r.nodes.len() ==> node_before(#[trigger] r.nodes[i], #[trigger] r.nodes[j])
    &&& forall|j: int| 0 <= j < r.edges.len() ==> some_edge(steps, names, #[trigger] r.edges[j])
    &&& forall|a: int, b: int|
        0 <= a < n && 0 <= b < n && pair_gaps(steps, a, b, steps.len() as int).len() > 0 ==> #[trigger] listed_edge(steps, names, a, b, r.edges@)
    &&& forall|i: int, j: int| 0 <= i < j < r.edges.len() ==> edge_before(#[trigger] r.edges[i], #[trigger] r.edges[j])
}

/// Two-part keys compare by their first part, then their second.
pub proof fn lemma_key_two(d1: i128, r1: i128, d2: i128, r2: i128)
    ensures
        key_lt(seq![d1, r1], seq![d2, r2]) == (d1 < d2 || (d1 == d2 && r1 < r2)),
        (seq![d1, r1] == seq![d2, r2]) == (d1 == d2 && r1 == r2),
{
    assert(seq![d1, r1] =~= seq![d1] + seq![r1]);
    assert(seq![d2, r2] =~= seq![d2] + seq![r2]);
    lemma_key_head(d1, seq![r1], d2, seq![r2]);
    lemma_key_head(r1, Seq::<i128>::empty(), r2, Seq::<i128>::empty());
    assert(seq![r1] =~= seq![r1] + Seq::<i128>::empty());
    assert(seq![r2] =~= seq![r2] + Seq::<i128>::empty());
    assert(!key_lt(Seq::<i128>::empty(), Seq::<i128>::empty()));
}

/// Three-part keys compare part by part.
pub proof fn lemma_key_three(d1: i128, r1: i128, q1: i128, d2: i128, r2: i128, q2: i128)
    ensures
        key_lt(seq![d1, r1, q1], seq![d2, r2, q2]) == (d1 < d2 || (d1 == d2 && (r1 < r2 || (r1 == r2 && q1 < q2)))),
        (seq![d1, r1, q1] == seq![d2, r2, q2]) == (d1 == d2 && r1 == r2 && q1 == q2),
{
    assert(seq![d1, r1, q1] =~= seq![d1] + seq![r1, q1]);
    assert(seq![d2, r2, q2] =~= seq![d2] + seq![r2, q2]);
    lemma_key_head(d1, seq![r1, q1], d2, seq![r2, q2]);
    lemma_key_two(r1, q1, r2, q2);
}

/// The nodes of the activities with steps, in node order.
fn dfg_nodes(t: &Traces, ranks: &Vec<usize>) -> (nodes: Vec<DfgNode>)
    requires
        ranks_of(t.activity_names@, ranks@),
        forall|s: int, k: int| 0 <= s < t.steps.len() && 0 <= k < t.steps[s].len() ==> #[trigger] t.steps[s]@[k].activity < t.activity_names.len(),
        total_steps(t.steps@, t.steps.len() as int) <= usize::MAX,
    ensures
        forall|j: int| 0 <= j < nodes.len() ==> some_node(t.steps@, t.activity_names@, #[trigger] nodes[j]),
        forall|a: int| 0 <= a < t.activity_names.len() && act_count(t.steps@, a, t.steps.len() as int) > 0 ==> #[trigger] listed_node(
            t.steps@,
            t.activity_names@,
            a,
            nodes@,
        ),
        forall|i: int, j: int| 0 <= i < j < nodes.len() ==> node_before(#[trigger] nodes[i], #[trigger] nodes[j]),
{
    let ghost steps = t.steps@;
    let ghost names = t.activity_names@;
    let n = t.activity_names.len();
    let (events, objects, starts, ends) = node_counts(t, n);
    let mut ids: Vec<usize> = Vec::new();
    let mut keys: Vec<Vec<i128>> = Vec::new();
    let mut a: usize = 0;
    while a < n
        invariant
            n == names.len(),
            ranks@.len() == n,
            events.len() == n,
            forall|b: int| 0 <= b < n ==> #[trigger] events[b] == act_count(steps, b, steps.len() as int),
            a <= n,
            keys.len() == ids.len(),
            forall|c: int| 0 <= c < ids.len() ==> #[trigger] ids[c] < a && events[ids[c] as int] > 0,
            forall|c1: int, c2: int| 0 <= c1 < c2 < ids.len() ==> #[trigger] ids[c1] < #[trigger] ids[c2],
            forall|b: int| 0 <= b < a && events[b] > 0 ==> exists|c: int| 0 <= c < ids.len() && #[trigger] ids[c] == b,
            forall|c: int| 0 <= c < ids.len() ==> #[trigger] keys[c]@ == seq![descending(events[ids[c] as int]), ranks@[ids[c] as int] as i128],
        decreases n - a,
    {
        if events[a] > 0 {
            let ghost i0 = ids@;
            ids.push(a);
            let d: i128 = 0 - (events[a] as i128);
            keys.push(vec![d, ranks[a] as i128]);
            proof {
                assert forall|b: int| 0 <= b < a + 1 && events[b] > 0 implies exists|c: int| 0 <= c < ids.len() && #[trigger] ids[c] == b by {
                    if b == a {
                        assert(ids[ids.len() - 1] == b);
                    } else {
                        let c = choose|c: int| 0 <= c < i0.len() && #[trigger] i0[c] == b;
                        assert(ids[c] == i0[c]);
                    }
                }
            }
        }
        a = a + 1;
    }
    let perm = sort_by_keys(&keys);
    let ghost ks = keys@.map_values(|k: Vec<i128>| k@);
    let mut nodes: Vec<DfgNode> = Vec::new();
    let mut j: usize = 0;
    while j < perm.len()
        invariant
            is_permutation(perm@, ids.len() as nat),
            forall|c: int| 0 <= c < ids.len() ==> #[trigger] ids[c] < n,
            n == names.len(),
            names == t.activity_names@,
            steps == t.steps@,
            events.len() == n,
            objects.len() == n,
            starts.len() == n,
            ends.len() == n,
            forall|b: int| 0 <= b < n ==> #[trigger] events[b] == act_count(steps, b, steps.len() as int),
            forall|b: int| 0 <= b < n ==> #[trigger] objects[b] == slots_with(steps, b, steps.len() as int),
            forall|b: int| 0 <= b < n ==> #[trigger] starts[b] == edge_count(steps, b, steps.len() as int, true),
            forall|b: int| 0 <= b < n ==> #[trigger] ends[b] == edge_count(steps, b, steps.len() as int, false),
            j <= perm.len(),
            nodes.len() == j,
            forall|h: int| 0 <= h < j ==> #[trigger] node_of(steps, names, ids[perm[h] as int] as int, nodes[h]),
        decreases perm.len() - j,
    {
        let b = ids[perm[j]];
        let node = DfgNode { activity: t.activity_names[b].clone(), events: events[b], objects: objects[b], starts: starts[b], ends: ends[b] };
        nodes.push(node);
        j = j + 1;
    }
    proof {
        assert forall|j2: int| 0 <= j2 < nodes.len() implies some_node(steps, names, #[trigger] nodes[j2]) by {
            let b = ids[perm[j2] as int] as int;
            assert(node_of(steps, names, b, nodes[j2]));
        }
        assert forall|b: int| 0 <= b < names.len() && act_count(steps, b, steps.len() as int) > 0 implies #[trigger] listed_node(steps, names, b, nodes@) by {
            assert(events[b] > 0);
            let c = choose|c: int| 0 <= c < ids.len() && #[trigger] ids[c] == b;
            assert(occurs(perm@, c));
            let h = choose|h: int| 0 <= h < perm.len() && perm[h] == c;
            assert(node_of(steps, names, b, nodes[h]));
        }
        assert forall|i: int, j2: int| 0 <= i < j2 < nodes.len() implies node_before(#[trigger] nodes[i], #[trigger] nodes[j2]) by {
            let ci = perm[i] as int;
            let cj = perm[j2] as int;
            let bi = ids[ci] as int;
            let bj = ids[cj] as int;
            assert(key_le(ks[ci], ks[cj]));
            assert(node_of(steps, names, bi, nodes[i]));
            assert(node_of(steps, names, bj, nodes[j2]));
            lemma_key_two(descending(events[bi]), ranks@[bi] as i128, descending(events[bj]), ranks@[bj] as i128);
            lemma_key_two(descending(events[bj]), ranks@[bj] as i128, descending(events[bi]), ranks@[bi] as i128);
            lemma_rank_pair(names, ranks@, bi, bj);
            assert(ci != cj);
            if ci < cj {
                assert(bi < bj);
            } else {
                assert(bj < bi);
            }
        }
    }
    nodes
}


/// The edges of the pairs that occur, in edge order.
fn dfg_edges(t: &Traces, ranks: &Vec<usize>) -> (edges: Vec<DfgEdge>)
    requires
        ranks_of(t.activity_names@, ranks@),
        forall|s: int, k: int| 0 <= s < t.steps.len() && 0 <= k < t.steps[s].len() ==> #[trigger] t.steps[s]@[k].activity < t.activity_names.len(),
        timed(t.steps@),
    ensures
        forall|j: int| 0 <= j < edges.len() ==> some_edge(t.steps@, t.activity_names@, #[trigger] edges[j]),
        forall|a: int, b: int|
            0 <= a < t.activity_names.len() && 0 <= b < t.activity_names.len() && pair_gaps(t.steps@, a, b, t.steps.len() as int).len() > 0
                ==> #[trigger] listed_edge(t.steps@, t.activity_names@, a, b, edges@),
        forall|i: int, j: int| 0 <= i < j < edges.len() ==> edge_before(#[trigger] edges[i], #[trigger] edges[j]),
{
    let ghost steps = t.steps@;
    let ghost names = t.activity_names@;
    let ghost ns = t.steps.len() as int;
    let n = t.activity_names.len();
    let (from, to, gaps, objs) = edge_lists(t, n);
    let ne = from.len();
    let mut keys: Vec<Vec<i128>> = Vec::new();
    let mut e: usize = 0;
    while e < ne
        invariant
            ne == from.len(),
            to.len() == ne,
            gaps.len() == ne,
            ranks@.len() == n,
            forall|e2: int| 0 <= e2 < ne ==> #[trigger] from[e2] < n && to[e2] < n,
            e <= ne,
            keys.len() == e,
            forall|e2: int| 0 <= e2 < e ==> #[trigger] keys[e2]@ == seq![
                descending(gaps[e2].len()),
                ranks@[from[e2] as int] as i128,
                ranks@[to[e2] as int] as i128,
            ],
        decreases ne - e,
    {
        let d: i128 = 0 - (gaps[e].len() as i128);
        keys.push(vec![d, ranks[from[e]] as i128, ranks[to[e]] as i128]);
        e = e + 1;
    }
    let perm = sort_by_keys(&keys);
    let ghost ks = keys@.map_values(|k: Vec<i128>| k@);
    let mut edges: Vec<DfgEdge> = Vec::new();
    let mut j: usize = 0;
    while j < ne
        invariant
            ne == from.len(),
            to.len() == ne,
            gaps.len() == ne,
            objs.len() == ne,
            names == t.activity_names@,
            steps == t.steps@,
            ns == t.steps.len(),
            n == names.len(),
            is_permutation(perm@, ne as nat),
            forall|e2: int| 0 <= e2 < ne ==> #[trigger] from[e2] < n && to[e2] < n,
            forall|e2: int| 0 <= e2 < ne ==> #[trigger] gaps[e2]@ == pair_gaps(steps, from[e2] as int, to[e2] as int, ns),
            forall|e2: int| 0 <= e2 < ne ==> #[trigger] objs[e2] == pair_slots(steps, from[e2] as int, to[e2] as int, ns),
            j <= ne,
            edges.len() == j,
            forall|h: int| 0 <= h < j ==> #[trigger] edge_of(steps, names, from[perm[h] as int] as int, to[perm[h] as int] as int, edges[h]),
        decreases ne - j,
    {
        let c = perm[j];
        let x = from[c];
        let y = to[c];
        let edge = DfgEdge {
            from: t.activity_names[x].clone(),
            to: t.activity_names[y].clone(),
            frequency: gaps[c].len(),
            objects: objs[c],
            gaps: spread(&gaps[c]),
        };
        edges.push(edge);
        j = j + 1;
    }
    proof {
        assert forall|j2: int| 0 <= j2 < edges.len() implies some_edge(steps, names, #[trigger] edges[j2]) by {
            let c = perm[j2] as int;
            assert(edge_of(steps, names, from[c] as int, to[c] as int, edges[j2]));
            assert(gaps[c].len() > 0);
        }
        assert forall|a: int, b: int| 0 <= a < names.len() && 0 <= b < names.len() && pair_gaps(steps, a, b, ns).len() > 0 implies #[trigger] listed_edge(
            steps,
            names,
            a,
            b,
            edges@,
        ) by {
            let c = choose|c: int| 0 <= c < ne && from[c] == a && #[trigger] to[c] == b;
            assert(occurs(perm@, c));
            let h = choose|h: int| 0 <= h < perm.len() && perm[h] == c;
            assert(edge_of(steps, names, a, b, edges[h]));
        }
        assert forall|i: int, j2: int| 0 <= i < j2 < edges.len() implies edge_before(#[trigger] edges[i], #[trigger] edges[j2]) by {
            let ci = perm[i] as int;
            let cj = perm[j2] as int;
            assert(key_le(ks[ci], ks[cj]));
            assert(edge_of(steps, names, from[ci] as int, to[ci] as int, edges[i]));
            assert(edge_of(steps, names, from[cj] as int, to[cj] as int, edges[j2]));
            lemma_key_three(
                descending(gaps[ci].len()), ranks@[from[ci] as int] as i128, ranks@[to[ci] as int] as i128,
                descending(gaps[cj].len()), ranks@[from[cj] as int] as i128, ranks@[to[cj] as int] as i128,
            );
            lemma_key_three(
                descending(gaps[cj].len()), ranks@[from[cj] as int] as i128, ranks@[to[cj] as int] as i128,
                descending(gaps[ci].len()), ranks@[from[ci] as int] as i128, ranks@[to[ci] as int] as i128,
            );
            lemma_rank_pair(names, ranks@, from[ci] as int, from[cj] as int);
            lemma_rank_pair(names, ranks@, to[ci] as int, to[cj] as int);
            assert(ci != cj);
            if ci < cj {
                assert(from[ci] != from[cj] || to[ci] != to[cj]);
            } else {
                assert(from[cj] != from[ci] || to[cj] != to[ci]);
            }
        }
    }
    edges
}

/// Traces stored from a well-formed log step in time order.
pub proof fn lemma_timed(log: EventLog, ty: Seq<char>, t: Traces)
    requires
        log.wf(),
        t.describes(log, ty),
    ensures
        timed(t.steps@),
{
    assert forall|s: int, k: int| 0 <= s < t.steps.len() && 0 <= k && k + 1 < t.steps[s].len() implies {
        &&& time_ok(#[trigger] t.steps@[s]@[k].time)
        &&& time_ok(t.steps@[s]@[k + 1].time)
        &&& time_nanos(t.steps@[s]@[k].time) <= time_nanos(t.steps@[s]@[k + 1].time)
    } by {
        assert(t.step_ok(log, s, k));
        assert(t.step_ok(log, s, k + 1));
        let e1 = t.steps[s][k].event as int;
        let e2 = t.steps[s][k + 1].event as int;
        assert(log.before(e1, e2));
        assert(time_ok(log.events[e1].time));
        assert(time_ok(log.events[e2].time));
    }
}

/// All trace steps number at most the slots times the events.
pub proof fn lemma_total_steps_bound(log: EventLog, ty: Seq<char>, t: Traces, s: int)
    requires
        t.describes(log, ty),
        0 <= s <= t.steps.len(),
    ensures
        total_steps(t.steps@, s) <= s * log.events.len(),
    decreases s,
{
    if s > 0 {
        lemma_total_steps_bound(log, ty, t, s - 1);
        crate::replay::lemma_slot_len(log, ty, t, s - 1);
        assert((s - 1) * log.events.len() + log.events.len() == s * log.events.len()) by (nonlinear_arith);
    }
}

pub proof fn lemma_members_len(log: EventLog, ty: Seq<char>, k: int)
    requires
        0 <= k,
    ensures
        log.members_upto(ty, k).len() <= k,
    decreases k,
{
    if k > 0 {
        lemma_members_len(log, ty, k - 1);
    }
}

/// Compute the directly-follows graph of `object_type`.
pub fn dfg(log: &EventLog, object_type: &str) -> (r: Dfg)
    requires
        log.wf(),
        log.objects.len() * log.events.len() <= usize::MAX,
    ensures
        exists|t: Traces| #[trigger] t.describes(*log, object_type@) && dfg_of(t, object_type@, r),
{
    let t = build(log, object_type);
    let ghost steps = t.steps@;
    proof {
        assert forall|s: int, k: int| 0 <= s < t.steps.len() && 0 <= k < t.steps[s].len() implies #[trigger] t.steps[s]@[k].activity < t.activity_names.len() by {
            assert(t.step_ok(*log, s, k));
        }
        lemma_timed(*log, object_type@, t);
        lemma_members_len(*log, object_type@, log.objects.len() as int);
        assert(t.object_ids@ == log.members(object_type@));
        lemma_total_steps_bound(*log, object_type@, t, t.steps.len() as int);
        assert(t.steps.len() * log.events.len() <= log.objects.len() * log.events.len()) by (nonlinear_arith)
            requires
                t.steps.len() <= log.objects.len();
    }
    let ranks = name_ranks(&t.activity_names);
    proof {
        assert(ranks_of(t.activity_names@, ranks@));
    }
    let nodes = dfg_nodes(&t, &ranks);
    let edges = dfg_edges(&t, &ranks);
    let ns = t.steps.len();
    let mut with_events: usize = 0;
    let mut s: usize = 0;
    while s < ns
        invariant
            ns == t.steps.len(),
            steps == t.steps@,
            s <= ns,
            with_events == busy_slots(steps, s as int),
            with_events <= s,
        decreases ns - s,
    {
        if t.steps[s].len() > 0 {
            with_events = with_events + 1;
        }
        s = s + 1;
    }
    Dfg { object_type: object_type.to_owned(), objects: ns, with_events, nodes, edges }
}

} // verus!
