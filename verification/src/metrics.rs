//! Lead-time metrics.
//!
//! A trace's lead time is the gap between its first and last event. Paths
//! are measured, never summed across edges: every variant gets its own
//! distribution, and the most frequent variant is compared against the
//! measured rest. Rework counts activities repeating within a trace.
use vstd::prelude::*;
use crate::log::{EventLog, span_secs, time_nanos, time_ok, seconds_between};
use crate::trace::{Step, Traces, build};
use crate::keysort::{is_permutation, key_le, key_lt, lemma_key_lt_total, occurs, sort_by_keys, sorted_by_keys};
use crate::text::{name_ranks, name_seq, rank_key, ranks_of, text_lt, texts, texts_lt, lemma_rank_key_order, lemma_rank_pair};
use crate::variants::{
    activity_ids, collect_variants, count_acts, descending, first_with, groups_inv, lemma_key_head, lemma_rank_free_eq,
    lemma_slot_acts, make_key, member_acts, names_of, variant_key,
};
use crate::replay::group_of;
use crate::dfg::{row_count, act_count, total_steps, lemma_key_two, lemma_row_count_bound, lemma_act_count_bound, lemma_total_steps_monotone, lemma_total_steps_bound, lemma_members_len};
use crate::spread::{Spread, spread, spread_of};

verus! {

/// The lead-time distribution of one variant.
#[derive(Clone, Debug)]
pub struct VariantLead {
    pub activities: Vec<String>,
    pub count: usize,
    pub leads: Spread,
}

/// An activity that repeats within traces.
#[derive(Clone, Debug)]
pub struct ReworkMetric {
    pub activity: String,
    /// Traces where the activity occurs more than once.
    pub traces: usize,
    /// Occurrences beyond the first, summed over those traces.
    pub extra_occurrences: usize,
}

/// Lead-time metrics of one object type.
#[derive(Clone, Debug)]
pub struct LeadTimeReport {
    pub object_type: String,
    /// Traces measured (objects with at least one event).
    pub measured: usize,
    /// The lead times of all traces measured.
    pub leads: Spread,
    /// The lead times of the traces not following the most frequent variant.
    pub rest: Spread,
    /// Per-variant distributions, by descending count, ties by sequence.
    pub variants: Vec<VariantLead>,
    /// Rework, by descending affected traces, ties by activity.
    pub rework: Vec<ReworkMetric>,
}

/// The lead time of slot `s`: from its first step to its last, in seconds.
pub open spec fn slot_lead(steps: Seq<Vec<Step>>, s: int) -> i64 {
    span_secs(steps[s]@[0].time, steps[s]@.last().time) as i64
}

/// The lead times of the busy slots among the first `k` whose activity
/// sequence satisfies `p`, in slot order.
pub open spec fn leads_where(
    log: EventLog,
    ty: Seq<char>,
    steps: Seq<Vec<Step>>,
    p: spec_fn(Seq<Seq<char>>) -> bool,
    k: int,
) -> Seq<i64>
    decreases k,
{
    if k <= 0 {
        Seq::empty()
    } else if steps[k - 1].len() > 0 && p(member_acts(log, ty, k - 1)) {
        leads_where(log, ty, steps, p, k - 1).push(slot_lead(steps, k - 1))
    } else {
        leads_where(log, ty, steps, p, k - 1)
    }
}

/// Sequences equal to `x`.
pub open spec fn equal_to(x: Seq<Seq<char>>) -> spec_fn(Seq<Seq<char>>) -> bool {
    |y: Seq<Seq<char>>| y == x
}

/// Sequences other than `x`.
pub open spec fn other_than(x: Seq<Seq<char>>) -> spec_fn(Seq<Seq<char>>) -> bool {
    |y: Seq<Seq<char>>| y != x
}

/// Every sequence.
pub open spec fn any_sequence() -> spec_fn(Seq<Seq<char>>) -> bool {
    |y: Seq<Seq<char>>| true
}

/// Slots among the first `k` where activity `a` occurs at least twice.
pub open spec fn rework_traces(steps: Seq<Vec<Step>>, a: int, k: int) -> nat
    decreases k,
{
    if k <= 0 {
        0
    } else {
        rework_traces(steps, a, k - 1) + if row_count(steps[k - 1]@, a, steps[k - 1].len() as int) >= 2 {
            1nat
        } else {
            0nat
        }
    }
}

/// Occurrences of `a` beyond the first, over the first `k` slots.
pub open spec fn rework_extra(steps: Seq<Vec<Step>>, a: int, k: int) -> nat
    decreases k,
{
    if k <= 0 {
        0
    } else {
        let c = row_count(steps[k - 1]@, a, steps[k - 1].len() as int);
        rework_extra(steps, a, k - 1) + if c >= 2 {
            (c - 1) as nat
        } else {
            0nat
        }
    }
}

/// `v` is the distribution of the traces following `x`.
pub open spec fn variant_lead_of(log: EventLog, ty: Seq<char>, steps: Seq<Vec<Step>>, x: Seq<Seq<char>>, v: VariantLead) -> bool {
    &&& texts(v.activities@) == x
    &&& x.len() > 0
    &&& v.count == count_acts(log, ty, x, steps.len() as int)
    &&& spread_of(leads_where(log, ty, steps, equal_to(x), steps.len() as int), v.leads)
}

/// `v` sorts before `w`: more traces, or as many and a smaller sequence.
pub open spec fn lead_before(v: VariantLead, w: VariantLead) -> bool {
    v.count > w.count || (v.count == w.count && texts_lt(texts(v.activities@), texts(w.activities@)))
}

/// Some variant of the list follows `x`.
pub open spec fn lead_listed(vs: Seq<VariantLead>, x: Seq<Seq<char>>) -> bool {
    exists|i: int| 0 <= i < vs.len() && #[trigger] texts(vs[i].activities@) == x
}

/// `m` is activity `a`'s rework.
pub open spec fn rework_of(steps: Seq<Vec<Step>>, names: Seq<String>, a: int, m: ReworkMetric) -> bool {
    &&& m.activity@ == names[a]@
    &&& m.traces == rework_traces(steps, a, steps.len() as int)
    &&& m.extra_occurrences == rework_extra(steps, a, steps.len() as int)
}

/// `m` is the rework of an activity repeating in some trace.
pub open spec fn some_rework(steps: Seq<Vec<Step>>, names: Seq<String>, m: ReworkMetric) -> bool {
    exists|a: int| 0 <= a < names.len() && rework_traces(steps, a, steps.len() as int) > 0 && #[trigger] rework_of(steps, names, a, m)
}

/// Some entry of the list is activity `a`'s rework.
pub open spec fn rework_listed(steps: Seq<Vec<Step>>, names: Seq<String>, a: int, ms: Seq<ReworkMetric>) -> bool {
    exists|j: int| 0 <= j < ms.len() && #[trigger] rework_of(steps, names, a, ms[j])
}

/// More traces, or as many and a smaller name.
pub open spec fn rework_before(m: ReworkMetric, w: ReworkMetric) -> bool {
    m.traces > w.traces || (m.traces == w.traces && text_lt(m.activity@, w.activity@))
}

/// `r` is the lead-time report of the traces `t` of type `ty`.
pub open spec fn leads_ok(log: EventLog, ty: Seq<char>, t: Traces, r: LeadTimeReport) -> bool {
    let steps = t.steps@;
    let names = t.activity_names@;
    let n = steps.len() as int;
    let all = leads_where(log, ty, steps, any_sequence(), n);
    &&& r.object_type@ == ty
    &&& r.measured == all.len()
    &&& spread_of(all, r.leads)
    &&& forall|i: int| 0 <= i < r.variants.len() ==> variant_lead_of(log, ty, steps, texts(r.variants[i].activities@), #[trigger] r.variants[i])
    &&& forall|s: int| 0 <= s < n && #[trigger] member_acts(log, ty, s).len() > 0 ==> lead_listed(r.variants@, member_acts(log, ty, s))
    &&& forall|i: int, j: int| 0 <= i < j < r.variants.len() ==> lead_before(#[trigger] r.variants[i], #[trigger] r.variants[j])
    &&& r.variants.len() == 0 ==> spread_of(Seq::empty(), r.rest)
    &&& r.variants.len() > 0 ==> spread_of(
        leads_where(log, ty, steps, other_than(texts(r.variants[0].activities@)), n),
        r.rest,
    )
    &&& forall|j: int| 0 <= j < r.rework.len() ==> some_rework(steps, names, #[trigger] r.rework[j])
    &&& forall|a: int| 0 <= a < names.len() && rework_traces(steps, a, n) > 0 ==> #[trigger] rework_listed(steps, names, a, r.rework@)
    &&& forall|i: int, j: int| 0 <= i < j < r.rework.len() ==> rework_before(#[trigger] r.rework[i], #[trigger] r.rework[j])
}


/// The groups in variant order: by descending count, ties by sequence.
fn group_order(names: &Vec<String>, ranks: &Vec<usize>, seqs: &Vec<Vec<usize>>, counts: &Vec<usize>) -> (order: Vec<usize>)
    requires
        ranks_of(names@, ranks@),
        counts.len() == seqs.len(),
        forall|g: int, k: int| 0 <= g < seqs.len() && 0 <= k < seqs[g].len() ==> #[trigger] seqs[g]@[k] < names.len(),
        forall|g1: int, g2: int| 0 <= g1 < g2 < seqs.len() ==> #[trigger] seqs[g1]@ != #[trigger] seqs[g2]@,
    ensures
        is_permutation(order@, seqs.len() as nat),
        forall|i: int, j: int| 0 <= i < j < order.len() ==> {
            let gi = #[trigger] order[i] as int;
            let gj = #[trigger] order[j] as int;
            counts[gi] > counts[gj] || (counts[gi] == counts[gj] && texts_lt(name_seq(names@, seqs[gi]@), name_seq(names@, seqs[gj]@)))
        },
{
    let mut keys: Vec<Vec<i128>> = Vec::new();
    let mut g: usize = 0;
    while g < seqs.len()
        invariant
            ranks@.len() == names.len(),
            counts.len() == seqs.len(),
            forall|h: int, k: int| 0 <= h < seqs.len() && 0 <= k < seqs[h].len() ==> #[trigger] seqs[h]@[k] < names.len(),
            g <= seqs.len(),
            keys.len() == g,
            forall|h: int| 0 <= h < g ==> #[trigger] keys[h]@ == variant_key(ranks@, counts[h], seqs[h]@),
        decreases seqs.len() - g,
    {
        let key = make_key(ranks, counts[g], &seqs[g]);
        keys.push(key);
        g = g + 1;
    }
    let order = sort_by_keys(&keys);
    let ghost ks = keys@.map_values(|k: Vec<i128>| k@);
    proof {
        assert forall|i: int, j: int| 0 <= i < j < order.len() implies {
            let gi = #[trigger] order[i] as int;
            let gj = #[trigger] order[j] as int;
            counts[gi] > counts[gj] || (counts[gi] == counts[gj] && texts_lt(name_seq(names@, seqs[gi]@), name_seq(names@, seqs[gj]@)))
        } by {
            let gi = order[i] as int;
            let gj = order[j] as int;
            assert(key_le(ks[gi], ks[gj]));
            assert(forall|k: int| 0 <= k < seqs[gi]@.len() ==> #[trigger] seqs[gi]@[k] < names.len());
            assert(forall|k: int| 0 <= k < seqs[gj]@.len() ==> #[trigger] seqs[gj]@[k] < names.len());
            lemma_rank_key_order(names@, ranks@, seqs[gi]@, seqs[gj]@);
            lemma_key_head(descending(counts[gi]), rank_key(ranks@, seqs[gi]@), descending(counts[gj]), rank_key(ranks@, seqs[gj]@));
            lemma_key_head(descending(counts[gj]), rank_key(ranks@, seqs[gj]@), descending(counts[gi]), rank_key(ranks@, seqs[gi]@));
            assert(gi != gj);
            if gi < gj {
                assert(seqs[gi]@ != seqs[gj]@);
            } else {
                assert(seqs[gj]@ != seqs[gi]@);
            }
            lemma_key_lt_total(ks[gi], ks[gj]);
        }
    }
    order
}

/// Per slot: its group (`usize::MAX` for a slot without events) and its
/// lead time (0 there).
fn slot_groups(log: &EventLog, ty: Ghost<Seq<char>>, t: &Traces, seqs: &Vec<Vec<usize>>, counts: Ghost<Seq<usize>>, firsts: Ghost<Seq<usize>>) -> (r: (Vec<usize>, Vec<i64>))
    requires
        log.wf(),
        t.describes(*log, ty@),
        groups_inv(*log, ty@, t.activity_names@, seqs@, counts@, firsts@, t.steps.len() as int),
    ensures
        r.0.len() == t.steps.len(),
        r.1.len() == t.steps.len(),
        forall|s: int| 0 <= s < t.steps.len() ==> (#[trigger] r.0[s] == usize::MAX) == (t.steps[s].len() == 0),
        forall|s: int| 0 <= s < t.steps.len() && t.steps[s].len() > 0 ==> #[trigger] r.0[s] < seqs.len()
            && name_seq(t.activity_names@, seqs[r.0[s] as int]@) == member_acts(*log, ty@, s)
            && r.1[s] == slot_lead(t.steps@, s),
{
    let ghost names = t.activity_names@;
    let ns = t.steps.len();
    let mut groups: Vec<usize> = Vec::new();
    let mut leads: Vec<i64> = Vec::new();
    let mut s: usize = 0;
    proof {
        assert(t.object_ids@ == log.members(ty@));
    }
    while s < ns
        invariant
            log.wf(),
            ns == t.steps.len(),
            t.describes(*log, ty@),
            names == t.activity_names@,
            ns == log.members(ty@).len(),
            groups_inv(*log, ty@, names, seqs@, counts@, firsts@, ns as int),
            s <= ns,
            groups.len() == s,
            leads.len() == s,
            forall|s2: int| 0 <= s2 < s ==> (#[trigger] groups[s2] == usize::MAX) == (t.steps[s2].len() == 0),
            forall|s2: int| 0 <= s2 < s && t.steps[s2].len() > 0 ==> #[trigger] groups[s2] < seqs.len()
                && name_seq(names, seqs[groups[s2] as int]@) == member_acts(*log, ty@, s2)
                && leads[s2] == slot_lead(t.steps@, s2),
        decreases ns - s,
    {
        let ids = activity_ids(&t.steps[s]);
        proof {
            lemma_slot_acts(*log, ty@, *t, s as int);
        }
        if ids.len() > 0 {
            let ghost x = member_acts(*log, ty@, s as int);
            proof {
                assert(x.len() == ids.len());
                let g = choose|g: int| 0 <= g < seqs.len() && name_seq(names, #[trigger] seqs[g]@) == x;
                lemma_rank_free_eq(names, seqs[g]@, ids@);
            }
            let g = group_of(seqs, &ids);
            let row = &t.steps[s];
            let last = row.len() - 1;
            proof {
                assert(t.step_ok(*log, s as int, 0));
                assert(t.step_ok(*log, s as int, last as int));
                assert(time_ok(log.events[row@[0].event as int].time));
                assert(time_ok(log.events[row@[last as int].event as int].time));
                if last > 0 {
                    assert(log.before(row@[0].event as int, row@[last as int].event as int));
                }
            }
            let lead = seconds_between(row[0].time, row[last].time);
            let ghost (g0, l0) = (groups@, leads@);
            groups.push(g);
            leads.push(lead);
            proof {
                assert(row@.last() == row@[last as int]);
                assert(lead == slot_lead(t.steps@, s as int));
                assert forall|s2: int| 0 <= s2 < s + 1 && t.steps[s2].len() > 0 implies #[trigger] groups[s2] < seqs.len()
                    && name_seq(names, seqs[groups[s2] as int]@) == member_acts(*log, ty@, s2)
                    && leads[s2] == slot_lead(t.steps@, s2) by {
                    if s2 < s {
                        assert(groups[s2] == g0[s2] && leads[s2] == l0[s2]);
                    }
                }
            }
        } else {
            groups.push(usize::MAX);
            leads.push(0);
        }
        s = s + 1;
    }
    (groups, leads)
}

/// The lead times of the busy slots whose group `want` selects, in slot
/// order: the slots whose activity sequence satisfies `p`.
fn collect_leads(
    log: &EventLog,
    ty: Ghost<Seq<char>>,
    t: &Traces,
    groups: &Vec<usize>,
    leads: &Vec<i64>,
    want: &Vec<bool>,
    p: Ghost<spec_fn(Seq<Seq<char>>) -> bool>,
) -> (r: Vec<i64>)
    requires
        groups.len() == t.steps.len(),
        leads.len() == t.steps.len(),
        forall|s: int| 0 <= s < t.steps.len() ==> (#[trigger] groups[s] == usize::MAX) == (t.steps[s].len() == 0),
        forall|s: int| 0 <= s < t.steps.len() && t.steps[s].len() > 0 ==> #[trigger] groups[s] < want.len()
            && want[groups[s] as int] == p@(member_acts(*log, ty@, s)) && leads[s] == slot_lead(t.steps@, s),
    ensures
        r@ == leads_where(*log, ty@, t.steps@, p@, t.steps.len() as int),
{
    let mut r: Vec<i64> = Vec::new();
    let mut s: usize = 0;
    while s < groups.len()
        invariant
            groups.len() == t.steps.len(),
            leads.len() == t.steps.len(),
            forall|s2: int| 0 <= s2 < t.steps.len() ==> (#[trigger] groups[s2] == usize::MAX) == (t.steps[s2].len() == 0),
            forall|s2: int| 0 <= s2 < t.steps.len() && t.steps[s2].len() > 0 ==> #[trigger] groups[s2] < want.len()
                && want[groups[s2] as int] == p@(member_acts(*log, ty@, s2)) && leads[s2] == slot_lead(t.steps@, s2),
            s <= groups.len(),
            r@ == leads_where(*log, ty@, t.steps@, p@, s as int),
        decreases groups.len() - s,
    {
        let g = groups[s];
        if g != usize::MAX {
            if want[g] {
                r.push(leads[s]);
            }
        }
        s = s + 1;
    }
    r
}


pub proof fn lemma_rework_bounds(steps: Seq<Vec<Step>>, a: int, k: int)
    requires
        0 <= k <= steps.len(),
    ensures
        rework_traces(steps, a, k) <= k,
        rework_extra(steps, a, k) <= act_count(steps, a, k),
    decreases k,
{
    if k > 0 {
        lemma_rework_bounds(steps, a, k - 1);
    }
}

/// Per activity below `n`: the slots repeating it and its occurrences
/// beyond the first there.
fn rework_counts(t: &Traces, n: usize) -> (r: (Vec<usize>, Vec<usize>))
    requires
        forall|s: int, k: int| 0 <= s < t.steps.len() && 0 <= k < t.steps[s].len() ==> #[trigger] t.steps[s]@[k].activity < n,
        total_steps(t.steps@, t.steps.len() as int) <= usize::MAX,
    ensures
        r.0.len() == n,
        r.1.len() == n,
        forall|a: int| 0 <= a < n ==> #[trigger] r.0[a] == rework_traces(t.steps@, a, t.steps.len() as int),
        forall|a: int| 0 <= a < n ==> #[trigger] r.1[a] == rework_extra(t.steps@, a, t.steps.len() as int),
{
    let ghost steps = t.steps@;
    let ns = t.steps.len();
    let mut traces: Vec<usize> = Vec::new();
    let mut extra: Vec<usize> = Vec::new();
    let mut a: usize = 0;
    while a < n
        invariant
            a <= n,
            traces.len() == a,
            extra.len() == a,
            forall|b: int| 0 <= b < a ==> #[trigger] traces[b] == 0,
            forall|b: int| 0 <= b < a ==> #[trigger] extra[b] == 0,
        decreases n - a,
    {
        traces.push(0);
        extra.push(0);
        a = a + 1;
    }
    let mut s: usize = 0;
    while s < ns
        invariant
            ns == t.steps.len(),
            steps == t.steps@,
            forall|s2: int, k: int| 0 <= s2 < ns && 0 <= k < steps[s2].len() ==> #[trigger] steps[s2]@[k].activity < n,
            total_steps(steps, ns as int) <= usize::MAX,
            s <= ns,
            traces.len() == n,
            extra.len() == n,
            forall|b: int| 0 <= b < n ==> #[trigger] traces[b] == rework_traces(steps, b, s as int),
            forall|b: int| 0 <= b < n ==> #[trigger] extra[b] == rework_extra(steps, b, s as int),
        decreases ns - s,
    {
        let row = &t.steps[s];
        let mut occ: Vec<usize> = Vec::new();
        let mut b: usize = 0;
        while b < n
            invariant
                b <= n,
                occ.len() == b,
                forall|c: int| 0 <= c < b ==> #[trigger] occ[c] == 0,
            decreases n - b,
        {
            occ.push(0);
            b = b + 1;
        }
        let mut k: usize = 0;
        while k < row.len()
            invariant
                s < ns,
                row == &t.steps[s as int],
                forall|k2: int| 0 <= k2 < row.len() ==> #[trigger] row@[k2].activity < n,
                k <= row.len(),
                occ.len() == n,
                forall|c: int| 0 <= c < n ==> #[trigger] occ[c] == row_count(row@, c, k as int),
            decreases row.len() - k,
        {
            let x = row[k].activity;
            proof {
                lemma_row_count_bound(row@, x as int, k as int);
            }
            occ.set(x, occ[x] + 1);
            k = k + 1;
        }
        let ghost s1 = s + 1;
        proof {
            lemma_total_steps_monotone(steps, s1, ns as int);
            assert(steps[s as int]@ == row@);
        }
        let mut b: usize = 0;
        while b < n
            invariant
                ns == t.steps.len(),
                steps == t.steps@,
                s < ns,
                s1 == s + 1,
                steps[s as int]@ == row@,
                total_steps(steps, s1) <= usize::MAX,
                occ.len() == n,
                forall|c: int| 0 <= c < n ==> #[trigger] occ[c] == row_count(row@, c, row.len() as int),
                b <= n,
                traces.len() == n,
                extra.len() == n,
                forall|c: int| 0 <= c < b ==> #[trigger] traces[c] == rework_traces(steps, c, s1),
                forall|c: int| 0 <= c < b ==> #[trigger] extra[c] == rework_extra(steps, c, s1),
                forall|c: int| b <= c < n ==> #[trigger] traces[c] == rework_traces(steps, c, s as int),
                forall|c: int| b <= c < n ==> #[trigger] extra[c] == rework_extra(steps, c, s as int),
            decreases n - b,
        {
            proof {
                lemma_rework_bounds(steps, b as int, s1);
                lemma_act_count_bound(steps, b as int, s1);
            }
            if occ[b] >= 2 {
                traces.set(b, traces[b] + 1);
                extra.set(b, extra[b] + (occ[b] - 1));
            }
            b = b + 1;
        }
        s = s + 1;
    }
    (traces, extra)
}

/// The rework of the activities repeating in some trace, in rework order.
fn rework_list(t: &Traces, ranks: &Vec<usize>) -> (ms: Vec<ReworkMetric>)
    requires
        ranks_of(t.activity_names@, ranks@),
        forall|s: int, k: int| 0 <= s < t.steps.len() && 0 <= k < t.steps[s].len() ==> #[trigger] t.steps[s]@[k].activity < t.activity_names.len(),
        total_steps(t.steps@, t.steps.len() as int) <= usize::MAX,
    ensures
        forall|j: int| 0 <= j < ms.len() ==> some_rework(t.steps@, t.activity_names@, #[trigger] ms[j]),
        forall|a: int| 0 <= a < t.activity_names.len() && rework_traces(t.steps@, a, t.steps.len() as int) > 0 ==> #[trigger] rework_listed(
            t.steps@,
            t.activity_names@,
            a,
            ms@,
        ),
        forall|i: int, j: int| 0 <= i < j < ms.len() ==> rework_before(#[trigger] ms[i], #[trigger] ms[j]),
{
    let ghost steps = t.steps@;
    let ghost names = t.activity_names@;
    let n = t.activity_names.len();
    let (traces, extra) = rework_counts(t, n);
    let mut ids: Vec<usize> = Vec::new();
    let mut keys: Vec<Vec<i128>> = Vec::new();
    let mut a: usize = 0;
    while a < n
        invariant
            n == names.len(),
            ranks@.len() == n,
            traces.len() == n,
            a <= n,
            keys.len() == ids.len(),
            forall|c: int| 0 <= c < ids.len() ==> #[trigger] ids[c] < a && traces[ids[c] as int] > 0,
            forall|c1: int, c2: int| 0 <= c1 < c2 < ids.len() ==> #[trigger] ids[c1] < #[trigger] ids[c2],
            forall|b: int| 0 <= b < a && traces[b] > 0 ==> exists|c: int| 0 <= c < ids.len() && #[trigger] ids[c] == b,
            forall|c: int| 0 <= c < ids.len() ==> #[trigger] keys[c]@ == seq![descending(traces[ids[c] as int]), ranks@[ids[c] as int] as i128],
        decreases n - a,
    {
        if traces[a] > 0 {
            let ghost i0 = ids@;
            ids.push(a);
            let d: i128 = 0 - (traces[a] as i128);
            keys.push(vec![d, ranks[a] as i128]);
            proof {
                assert forall|b: int| 0 <= b < a + 1 && traces[b] > 0 implies exists|c: int| 0 <= c < ids.len() && #[trigger] ids[c] == b by {
                    if b == a {
                        assert(ids[ids.len() - 1] == b);
                    } else {
                        let c = choose|c: int| 0 <= c < i0.len() && #[trigger] i0[c] == b;
                        assert(ids[c] == i0[c]);
                    }
                }
            }
        }
        a = a + 1;
    }
    let perm = sort_by_keys(&keys);
    let ghost ks = keys@.map_values(|k: Vec<i128>| k@);
    let mut ms: Vec<ReworkMetric> = Vec::new();
    let mut j: usize = 0;
    while j < perm.len()
        invariant
            is_permutation(perm@, ids.len() as nat),
            forall|c: int| 0 <= c < ids.len() ==> #[trigger] ids[c] < n,
            n == names.len(),
            names == t.activity_names@,
            steps == t.steps@,
            traces.len() == n,
            extra.len() == n,
            forall|b: int| 0 <= b < n ==> #[trigger] traces[b] == rework_traces(steps, b, steps.len() as int),
            forall|b: int| 0 <= b < n ==> #[trigger] extra[b] == rework_extra(steps, b, steps.len() as int),
            j <= perm.len(),
            ms.len() == j,
            forall|h: int| 0 <= h < j ==> #[trigger] rework_of(steps, names, ids[perm[h] as int] as int, ms[h]),
        decreases perm.len() - j,
    {
        let b = ids[perm[j]];
        ms.push(ReworkMetric { activity: t.activity_names[b].clone(), traces: traces[b], extra_occurrences: extra[b] });
        j = j + 1;
    }
    proof {
        assert forall|j2: int| 0 <= j2 < ms.len() implies some_rework(steps, names, #[trigger] ms[j2]) by {
            let b = ids[perm[j2] as int] as int;
            assert(rework_of(steps, names, b, ms[j2]));
        }
        assert forall|b: int| 0 <= b < names.len() && rework_traces(steps, b, steps.len() as int) > 0 implies #[trigger] rework_listed(steps, names, b, ms@) by {
            assert(traces[b] > 0);
            let c = choose|c: int| 0 <= c < ids.len() && #[trigger] ids[c] == b;
            assert(occurs(perm@, c));
            let h = choose|h: int| 0 <= h < perm.len() && perm[h] == c;
            assert(rework_of(steps, names, b, ms[h]));
        }
        assert forall|i: int, j2: int| 0 <= i < j2 < ms.len() implies rework_before(#[trigger] ms[i], #[trigger] ms[j2]) by {
            let ci = perm[i] as int;
            let cj = perm[j2] as int;
            let bi = ids[ci] as int;
            let bj = ids[cj] as int;
            assert(key_le(ks[ci], ks[cj]));
            assert(rework_of(steps, names, bi, ms[i]));
            assert(rework_of(steps, names, bj, ms[j2]));
            lemma_key_two(descending(traces[bi]), ranks@[bi] as i128, descending(traces[bj]), ranks@[bj] as i128);
            lemma_key_two(descending(traces[bj]), ranks@[bj] as i128, descending(traces[bi]), ranks@[bi] as i128);
            lemma_rank_pair(names, ranks@, bi, bj);
            assert(ci != cj);
            if ci < cj {
                assert(bi < bj);
            } else {
                assert(bj < bi);
            }
        }
    }
    ms
}


/// With distinct id lists and distinct names, two groups follow the same
/// sequence only when they are the same group.
pub proof fn lemma_group_unique(names: Seq<String>, seqs: Seq<Vec<usize>>, g: int, h: int)
    requires
        forall|i: int, j: int| 0 <= i < j < names.len() ==> names[i]@ != names[j]@,
        forall|g1: int, g2: int| 0 <= g1 < g2 < seqs.len() ==> #[trigger] seqs[g1]@ != #[trigger] seqs[g2]@,
        forall|g1: int, k: int| 0 <= g1 < seqs.len() && 0 <= k < seqs[g1].len() ==> #[trigger] seqs[g1]@[k] < names.len(),
        0 <= g < seqs.len(),
        0 <= h < seqs.len(),
    ensures
        (name_seq(names, seqs[g]@) == name_seq(names, seqs[h]@)) == (g == h),
{
    assert(forall|k: int| 0 <= k < seqs[g]@.len() ==> #[trigger] seqs[g]@[k] < names.len());
    assert(forall|k: int| 0 <= k < seqs[h]@.len() ==> #[trigger] seqs[h]@[k] < names.len());
    lemma_rank_free_eq(names, seqs[g]@, seqs[h]@);
    if g < h {
        assert(seqs[g]@ != seqs[h]@);
    } else if h < g {
        assert(seqs[h]@ != seqs[g]@);
    }
}

/// Per group: is it `g` (`same`) or not?
fn select(count: usize, g: usize, same: bool) -> (want: Vec<bool>)
    ensures
        want.len() == count,
        forall|h: int| 0 <= h < count ==> #[trigger] want[h] == ((h == g) == same),
{
    let mut want: Vec<bool> = Vec::new();
    let mut h: usize = 0;
    while h < count
        invariant
            h <= count,
            want.len() == h,
            forall|h2: int| 0 <= h2 < h ==> #[trigger] want[h2] == ((h2 == g) == same),
        decreases count - h,
    {
        want.push((h == g) == same);
        h = h + 1;
    }
    want
}

/// Compute the lead-time metrics of `object_type`.
pub fn lead_times(log: &EventLog, object_type: &str) -> (r: LeadTimeReport)
    requires
        log.wf(),
        log.objects.len() * log.events.len() <= usize::MAX,
    ensures
        exists|t: Traces| #[trigger] t.describes(*log, object_type@) && leads_ok(*log, object_type@, t, r),
{
    let t = build(log, object_type);
    let ghost ty = object_type@;
    let ghost names = t.activity_names@;
    let ghost steps = t.steps@;
    let ghost n = t.steps.len() as int;
    proof {
        assert forall|s: int, k: int| 0 <= s < t.steps.len() && 0 <= k < t.steps[s].len() implies #[trigger] t.steps[s]@[k].activity < t.activity_names.len() by {
            assert(t.step_ok(*log, s, k));
        }
        lemma_members_len(*log, ty, log.objects.len() as int);
        assert(t.object_ids@ == log.members(ty));
        lemma_total_steps_bound(*log, ty, t, t.steps.len() as int);
        assert(t.steps.len() * log.events.len() <= log.objects.len() * log.events.len()) by (nonlinear_arith)
            requires
                t.steps.len() <= log.objects.len();
    }
    let (seqs, counts, firsts, _busy) = collect_variants(log, Ghost(ty), &t);
    let ranks = name_ranks(&t.activity_names);
    proof {
        assert(ranks_of(names, ranks@));
    }
    let (groups, leads) = slot_groups(log, Ghost(ty), &t, &seqs, Ghost(counts@), Ghost(firsts@));
    let ng = seqs.len();
    let want_all = select(ng, ng, false);
    let all = collect_leads(log, Ghost(ty), &t, &groups, &leads, &want_all, Ghost(any_sequence()));
    let order = group_order(&t.activity_names, &ranks, &seqs, &counts);
    let mut variants: Vec<VariantLead> = Vec::new();
    let mut j: usize = 0;
    while j < ng
        invariant
            ng == seqs.len(),
            n == t.steps.len(),
            names == t.activity_names@,
            steps == t.steps@,
            ty == object_type@,
            t.describes(*log, ty),
            groups_inv(*log, ty, names, seqs@, counts@, firsts@, n),
            is_permutation(order@, ng as nat),
            groups.len() == t.steps.len(),
            leads.len() == t.steps.len(),
            forall|s: int| 0 <= s < t.steps.len() ==> (#[trigger] groups[s] == usize::MAX) == (t.steps[s].len() == 0),
            forall|s: int| 0 <= s < t.steps.len() && t.steps[s].len() > 0 ==> #[trigger] groups[s] < seqs.len()
                && name_seq(t.activity_names@, seqs[groups[s] as int]@) == member_acts(*log, ty, s)
                && leads[s] == slot_lead(t.steps@, s),
            j <= ng,
            variants.len() == j,
            forall|h: int| 0 <= h < j ==> #[trigger] texts(variants[h].activities@) == name_seq(names, seqs[order[h] as int]@),
            forall|h: int| 0 <= h < j ==> #[trigger] variants[h].count == counts[order[h] as int],
            forall|h: int| 0 <= h < j ==> variant_lead_of(*log, ty, steps, texts(variants[h].activities@), #[trigger] variants[h]),
        decreases ng - j,
    {
        let g = order[j];
        let activities = names_of(&t.activity_names, &seqs[g]);
        let ghost x = texts(activities@);
        let want = select(ng, g, true);
        proof {
            assert forall|s: int| 0 <= s < t.steps.len() && t.steps[s].len() > 0 implies #[trigger] groups[s] < want.len()
                && want[groups[s] as int] == equal_to(x)(member_acts(*log, ty, s)) && leads[s] == slot_lead(t.steps@, s) by {
                lemma_group_unique(names, seqs@, groups[s] as int, g as int);
            }
        }
        let vleads = collect_leads(log, Ghost(ty), &t, &groups, &leads, &want, Ghost(equal_to(x)));
        let sp = spread(&vleads);
        let v = VariantLead { activities, count: counts[g], leads: sp };
        proof {
            assert(seqs[g as int]@.len() > 0);
            assert(x == name_seq(names, seqs[g as int]@));
            assert(texts(v.activities@) == x);
            assert(x.len() > 0);
            assert(v.count == count_acts(*log, ty, x, steps.len() as int));
            assert(variant_lead_of(*log, ty, steps, texts(v.activities@), v));
        }
        variants.push(v);
        j = j + 1;
    }
    let rest_leads: Vec<i64> = if ng > 0 {
        let g0 = order[0];
        let ghost x0 = texts(variants[0].activities@);
        let want = select(ng, g0, false);
        proof {
            assert forall|s: int| 0 <= s < t.steps.len() && t.steps[s].len() > 0 implies #[trigger] groups[s] < want.len()
                && want[groups[s] as int] == other_than(x0)(member_acts(*log, ty, s)) && leads[s] == slot_lead(t.steps@, s) by {
                lemma_group_unique(names, seqs@, groups[s] as int, g0 as int);
            }
        }
        collect_leads(log, Ghost(ty), &t, &groups, &leads, &want, Ghost(other_than(x0)))
    } else {
        Vec::new()
    };
    let rework = rework_list(&t, &ranks);
    let measured = all.len();
    let r = LeadTimeReport {
        object_type: object_type.to_owned(),
        measured,
        leads: spread(&all),
        rest: spread(&rest_leads),
        variants,
        rework,
    };
    proof {
        assert forall|s: int| 0 <= s < n && #[trigger] member_acts(*log, ty, s).len() > 0 implies lead_listed(r.variants@, member_acts(*log, ty, s)) by {
            let g = choose|g: int| 0 <= g < seqs.len() && name_seq(names, #[trigger] seqs[g]@) == member_acts(*log, ty, s);
            assert(occurs(order@, g));
            let h = choose|h: int| 0 <= h < order.len() && order[h] == g;
            assert(texts(r.variants[h].activities@) == name_seq(names, seqs[g]@));
        }
        assert forall|i: int, j2: int| 0 <= i < j2 < r.variants.len() implies lead_before(#[trigger] r.variants[i], #[trigger] r.variants[j2]) by {
            assert(texts(r.variants[i].activities@) == name_seq(names, seqs[order[i] as int]@));
            assert(texts(r.variants[j2].activities@) == name_seq(names, seqs[order[j2] as int]@));
        }
        assert(leads_ok(*log, ty, t, r));
    }
    r
}

} // verus!
