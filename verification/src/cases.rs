//! Per-object case digests: one row per object with events, carrying its
//! activity sequence and lead time, in order of start time.
use vstd::prelude::*;
use crate::log::{EventLog, Timestamp, time_ok, seconds_between};
use crate::trace::{Step, Traces, build};
use crate::keysort::{is_permutation, key_le, key_lt, occurs, sort_by_keys, sorted_by_keys};
use crate::text::{count_before, name_ranks, name_seq, text_lt, texts, lemma_count_before_monotone, lemma_text_lt_total};
use crate::variants::{activity_ids, lemma_slot_acts, member_acts, names_of, step_ids};
use crate::dfg::{busy_slots, lemma_key_three};
use crate::metrics::slot_lead;

verus! {

/// One object's trace digest.
#[derive(Clone, Debug)]
pub struct CaseSummary {
    pub object_id: String,
    /// Activity sequence in trace order.
    pub activities: Vec<String>,
    /// Steps in the trace.
    pub events: usize,
    pub start: Timestamp,
    pub end: Timestamp,
    pub lead_secs: i64,
}

/// Case `c` digests slot `s` of the traces `t` of type `ty`.
pub open spec fn case_of(log: EventLog, ty: Seq<char>, t: Traces, s: int, c: CaseSummary) -> bool {
    let row = t.steps[s]@;
    &&& row.len() > 0
    &&& c.object_id@ == log.objects[t.object_ids[s] as int].id@
    &&& texts(c.activities@) == member_acts(log, ty, s)
    &&& c.events == row.len()
    &&& c.start == row[0].time
    &&& c.end == row.last().time
    &&& c.lead_secs == slot_lead(t.steps@, s)
}

/// `a` is strictly earlier than `b`.
pub open spec fn time_lt(a: Timestamp, b: Timestamp) -> bool {
    a.secs < b.secs || (a.secs == b.secs && a.nanos < b.nanos)
}

/// Earlier start, or the same start and an object id not after.
pub open spec fn case_before(a: CaseSummary, b: CaseSummary) -> bool {
    ||| time_lt(a.start, b.start)
    ||| (a.start == b.start && (text_lt(a.object_id@, b.object_id@) || a.object_id@ == b.object_id@))
}

/// Some case of the list digests slot `s`.
pub open spec fn case_listed(log: EventLog, ty: Seq<char>, t: Traces, s: int, cs: Seq<CaseSummary>) -> bool {
    exists|q: int| 0 <= q < cs.len() && #[trigger] case_of(log, ty, t, s, cs[q])
}

/// Case `c` digests some slot with events.
pub open spec fn some_case(log: EventLog, ty: Seq<char>, t: Traces, c: CaseSummary) -> bool {
    exists|s: int| 0 <= s < t.steps.len() && #[trigger] case_of(log, ty, t, s, c)
}

/// `r` digests the traces `t` of type `ty`: each slot with events once, in
/// case order.
pub open spec fn cases_ok(log: EventLog, ty: Seq<char>, t: Traces, r: Seq<CaseSummary>) -> bool {
    &&& forall|q: int| 0 <= q < r.len() ==> some_case(log, ty, t, #[trigger] r[q])
    &&& forall|s: int| 0 <= s < t.steps.len() && t.steps[s].len() > 0 ==> #[trigger] case_listed(log, ty, t, s, r)
    &&& forall|i: int, j: int| 0 <= i < j < r.len() ==> case_before(#[trigger] r[i], #[trigger] r[j])
    &&& r.len() == busy_slots(t.steps@, t.steps.len() as int)
}

/// Digest every object of `object_type` that has events, by start time,
/// ties by object id.
pub fn cases(log: &EventLog, object_type: &str) -> (r: Vec<CaseSummary>)
    requires
        log.wf(),
    ensures
        exists|t: Traces| #[trigger] t.describes(*log, object_type@) && cases_ok(*log, object_type@, t, r@),
{
    let t = build(log, object_type);
    let ghost ty = object_type@;
    let ns = t.steps.len();
    proof {
        assert(t.object_ids@ == log.members(ty));
        crate::log::lemma_members_bound(*log, ty, log.objects.len() as int);
    }
    let mut slots: Vec<usize> = Vec::new();
    let mut ids: Vec<String> = Vec::new();
    let mut s: usize = 0;
    while s < ns
        invariant
            ns == t.steps.len(),
            t.describes(*log, ty),
            t.object_ids@ == log.members(ty),
            forall|s2: int| 0 <= s2 < log.members(ty).len() ==> #[trigger] log.members(ty)[s2] < log.objects.len(),
            s <= ns,
            ids.len() == slots.len(),
            slots.len() == busy_slots(t.steps@, s as int),
            forall|c: int| 0 <= c < slots.len() ==> #[trigger] slots[c] < s && t.steps[slots[c] as int].len() > 0,
            forall|c: int| 0 <= c < slots.len() ==> #[trigger] ids[c]@ == log.objects[t.object_ids[slots[c] as int] as int].id@,
            forall|c1: int, c2: int| 0 <= c1 < c2 < slots.len() ==> #[trigger] slots[c1] < #[trigger] slots[c2],
            forall|s2: int| 0 <= s2 < s && t.steps[s2].len() > 0 ==> exists|c: int| 0 <= c < slots.len() && #[trigger] slots[c] == s2,
        decreases ns - s,
    {
        if t.steps[s].len() > 0 {
            let ghost (sl0, id0) = (slots@, ids@);
            slots.push(s);
            ids.push(log.objects[t.object_ids[s]].id.clone());
            proof {
                assert forall|c: int| 0 <= c < slots.len() implies #[trigger] ids[c]@ == log.objects[t.object_ids[slots[c] as int] as int].id@ by {
                    if c < sl0.len() {
                        assert(slots[c] == sl0[c] && ids[c] == id0[c]);
                    }
                }
                assert forall|s2: int| 0 <= s2 < s + 1 && t.steps[s2].len() > 0 implies exists|c: int| 0 <= c < slots.len() && #[trigger] slots[c] == s2 by {
                    if s2 == s {
                        assert(slots[slots.len() - 1] == s2);
                    } else {
                        let c = choose|c: int| 0 <= c < sl0.len() && #[trigger] sl0[c] == s2;
                        assert(slots[c] == sl0[c]);
                    }
                }
            }
        }
        s = s + 1;
    }
    let ranks = name_ranks(&ids);
    let ghost tids = texts(ids@);
    let nc = slots.len();
    let mut keys: Vec<Vec<i128>> = Vec::new();
    let mut c: usize = 0;
    while c < nc
        invariant
            nc == slots.len(),
            ids.len() == nc,
            ranks.len() == nc,
            forall|c2: int| 0 <= c2 < nc ==> #[trigger] slots[c2] < ns && t.steps[slots[c2] as int].len() > 0,
            ns == t.steps.len(),
            c <= nc,
            keys.len() == c,
            forall|c2: int| 0 <= c2 < c ==> #[trigger] keys[c2]@ == seq![
                t.steps[slots[c2] as int]@[0].time.secs as i128,
                t.steps[slots[c2] as int]@[0].time.nanos as i128,
                ranks@[c2] as i128,
                c2 as i128,
            ],
        decreases nc - c,
    {
        let time = t.steps[slots[c]][0].time;
        keys.push(vec![time.secs as i128, time.nanos as i128, ranks[c] as i128, c as i128]);
        c = c + 1;
    }
    let perm = sort_by_keys(&keys);
    let ghost ks = keys@.map_values(|k: Vec<i128>| k@);
    let mut out: Vec<CaseSummary> = Vec::new();
    let mut j: usize = 0;
    while j < nc
        invariant
            log.wf(),
            nc == slots.len(),
            ids.len() == nc,
            ns == t.steps.len(),
            t.describes(*log, ty),
            ty == object_type@,
            forall|c2: int| 0 <= c2 < nc ==> #[trigger] slots[c2] < ns && t.steps[slots[c2] as int].len() > 0,
            forall|c2: int| 0 <= c2 < nc ==> #[trigger] ids[c2]@ == log.objects[t.object_ids[slots[c2] as int] as int].id@,
            is_permutation(perm@, nc as nat),
            j <= nc,
            out.len() == j,
            forall|h: int| 0 <= h < j ==> #[trigger] case_of(*log, ty, t, slots[perm[h] as int] as int, out[h]),
        decreases nc - j,
    {
        let sl = slots[perm[j]];
        let row = &t.steps[sl];
        let len = row.len();
        let acts = activity_ids(row);
        proof {
            lemma_slot_acts(*log, ty, t, sl as int);
            assert(t.step_ok(*log, sl as int, 0));
            assert(t.step_ok(*log, sl as int, (len - 1) as int));
            if len > 1 {
                assert(log.before(row@[0].event as int, row@[len - 1].event as int));
            }
            assert(row@.last() == row@[len - 1]);
        }
        let activities = names_of(&t.activity_names, &acts);
        let lead = seconds_between(row[0].time, row[len - 1].time);
        let cs = CaseSummary {
            object_id: ids[perm[j]].clone(),
            activities,
            events: len,
            start: row[0].time,
            end: row[len - 1].time,
            lead_secs: lead,
        };
        out.push(cs);
        j = j + 1;
    }
    proof {
        assert forall|q: int| 0 <= q < out.len() implies some_case(*log, ty, t, #[trigger] out[q]) by {
            assert(case_of(*log, ty, t, slots[perm[q] as int] as int, out[q]));
        }
        assert forall|s2: int| 0 <= s2 < t.steps.len() && t.steps[s2].len() > 0 implies #[trigger] case_listed(*log, ty, t, s2, out@) by {
            let c2 = choose|c2: int| 0 <= c2 < slots.len() && #[trigger] slots[c2] == s2;
            assert(occurs(perm@, c2));
            let h = choose|h: int| 0 <= h < perm.len() && perm[h] == c2;
            assert(case_of(*log, ty, t, s2, out[h]));
        }
        assert forall|i: int, j2: int| 0 <= i < j2 < out.len() implies case_before(#[trigger] out[i], #[trigger] out[j2]) by {
            let ci = perm[i] as int;
            let cj = perm[j2] as int;
            assert(key_le(ks[ci], ks[cj]));
            assert(case_of(*log, ty, t, slots[ci] as int, out[i]));
            assert(case_of(*log, ty, t, slots[cj] as int, out[j2]));
            let ti = t.steps[slots[ci] as int]@[0].time;
            let tj = t.steps[slots[cj] as int]@[0].time;
            assert(ks[ci] == keys[ci]@ && ks[cj] == keys[cj]@);
            lemma_key_four(tj.secs as i128, tj.nanos as i128, ranks@[cj] as i128, cj as i128, ti.secs as i128, ti.nanos as i128, ranks@[ci] as i128, ci as i128);
            assert(!key_lt(ks[cj], ks[ci]));
            let a = ids[ci]@;
            let b = ids[cj]@;
            assert(tids[ci] == a && tids[cj] == b);
            assert(ranks@[ci] == count_before(tids, a, nc as int));
            assert(ranks@[cj] == count_before(tids, b, nc as int));
            if a != b {
                lemma_text_lt_total(a, b);
                if text_lt(a, b) {
                    lemma_count_before_monotone(tids, a, b, nc as int);
                } else {
                    assert(0 <= cj < nc && tids[cj] == b);
                    lemma_count_before_monotone(tids, b, a, nc as int);
                    assert(ranks@[cj] < ranks@[ci]);
                }
            }
            assert(out[i].start == ti && out[j2].start == tj);
            assert(out[i].object_id@ == a && out[j2].object_id@ == b);
        }
    }
    out
}

/// Four-part keys compare part by part.
proof fn lemma_key_four(a1: i128, b1: i128, c1: i128, d1: i128, a2: i128, b2: i128, c2: i128, d2: i128)
    ensures
        key_lt(seq![a1, b1, c1, d1], seq![a2, b2, c2, d2]) == (a1 < a2 || (a1 == a2 && (b1 < b2 || (b1 == b2 && (c1 < c2 || (c1 == c2 && d1 < d2)))))),
{
    assert(seq![a1, b1, c1, d1] =~= seq![a1] + seq![b1, c1, d1]);
    assert(seq![a2, b2, c2, d2] =~= seq![a2] + seq![b2, c2, d2]);
    crate::variants::lemma_key_head(a1, seq![b1, c1, d1], a2, seq![b2, c2, d2]);
    lemma_key_three(b1, c1, d1, b2, c2, d2);
}

} // verus!
