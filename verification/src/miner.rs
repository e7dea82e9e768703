//! Inductive miner: per-type process tree discovery.
//!
//! Recursively detect an exclusive, sequence, parallel or loop cut on the
//! sub-log's directly-follows graph and split the log along it; an activity
//! occurring exactly once in every trace runs in parallel with the rest;
//! the fall-through is the flower model, so the result is always a sound
//! tree. A positive noise threshold filters the graph each step (see
//! [`crate::cuts`]); the cuts run on the filtered graph, the splits on the
//! full log.
use vstd::prelude::*;
use crate::closure::{
    agree, closure, components, connected, count_opens, lemma_connected_agree, lemma_count_opens_agree, matrix_edge, opens, path_below,
    square,
};
use crate::cuts::{CutGraph, Weighted, cut_graph, graph_of, occurs_in, weight};
use crate::heuristics::Ratio;
use crate::inductive::{ProcessTree, all_partitioned, all_wide, disjoint_children, has_label, labels_in, lemma_all_partitioned, lemma_all_wide, lemma_all_wide_from, lemma_labels_in, partitioned, wide};
use crate::log::EventLog;
use crate::text::name_ranks;
use crate::trace::{build, carried_by_target, lemma_names_within_events};

verus! {

/// Every activity of `log` is below `n`.
pub open spec fn ids_below(log: Seq<Weighted>, n: int) -> bool {
    forall|t: int, j: int| 0 <= t < log.len() && 0 <= j < log[t].seq.len() ==> #[trigger] log[t].seq@[j] < n
}

/// Every sub-log of `parts` keeps its activities below `n`.
pub open spec fn parts_below(parts: Seq<Vec<Weighted>>, n: int) -> bool {
    forall|p: int| 0 <= p < parts.len() ==> #[trigger] ids_below(parts[p]@, n)
}

/// Activity `a` belongs to sub-log `p` under `place`, and occurs in `log`.
pub open spec fn placed(log: Seq<Weighted>, place: Seq<usize>, a: usize, p: int) -> bool {
    place[a as int] == p && occurs_in(log, a as int)
}

/// Every activity of sub-log `p` of `parts` is placed at `p`.
pub open spec fn split_by(parts: Seq<Vec<Weighted>>, log: Seq<Weighted>, place: Seq<usize>) -> bool {
    forall|p: int, t: int, j: int|
        0 <= p < parts.len() && 0 <= t < parts[p]@.len() && 0 <= j < parts[p]@[t].seq.len() ==> #[trigger] placed(
            log,
            place,
            parts[p]@[t].seq@[j],
            p,
        )
}

/// Every activity of `sub` occurs in `log`.
pub open spec fn within(sub: Seq<Weighted>, log: Seq<Weighted>) -> bool {
    forall|t: int, j: int| 0 <= t < sub.len() && 0 <= j < sub[t].seq.len() ==> #[trigger] occurs_in(log, sub[t].seq@[j] as int)
}

/// The sub-logs share no activity, and take theirs from `log`.
pub open spec fn disjoint_parts(parts: Seq<Vec<Weighted>>, log: Seq<Weighted>) -> bool {
    &&& forall|p: int, q: int, a: int|
        0 <= p < q < parts.len() && #[trigger] occurs_in(parts[p]@, a) ==> !#[trigger] occurs_in(parts[q]@, a)
    &&& forall|p: int| 0 <= p < parts.len() ==> #[trigger] within(parts[p]@, log)
}

pub(crate) proof fn lemma_split_disjoint(parts: Seq<Vec<Weighted>>, log: Seq<Weighted>, place: Seq<usize>)
    requires
        split_by(parts, log, place),
    ensures
        disjoint_parts(parts, log),
{
    assert forall|p: int, q: int, a: int|
        0 <= p < q < parts.len() && #[trigger] occurs_in(parts[p]@, a) implies !#[trigger] occurs_in(parts[q]@, a) by {
        let (t, j) = choose|t: int, j: int| 0 <= t < parts[p]@.len() && 0 <= j < parts[p]@[t].seq.len() && parts[p]@[t].seq@[j] == a;
        assert(placed(log, place, parts[p]@[t].seq@[j], p));
        if occurs_in(parts[q]@, a) {
            let (t2, j2) = choose|t2: int, j2: int| 0 <= t2 < parts[q]@.len() && 0 <= j2 < parts[q]@[t2].seq.len() && parts[q]@[t2].seq@[j2] == a;
            assert(placed(log, place, parts[q]@[t2].seq@[j2], q));
        }
    }
    assert forall|p: int| 0 <= p < parts.len() implies #[trigger] within(parts[p]@, log) by {
        assert forall|t: int, j: int| 0 <= t < parts[p]@.len() && 0 <= j < parts[p]@[t].seq.len() implies #[trigger] occurs_in(log, parts[p]@[t].seq@[j] as int) by {
            assert(placed(log, place, parts[p]@[t].seq@[j], p));
        }
    }
}

/// `a` at position `j` of trace `t` occurs in `log`.
pub(crate) proof fn lemma_occurs_at(log: Seq<Weighted>, t: int, j: int)
    requires
        0 <= t < log.len(),
        0 <= j < log[t].seq.len(),
    ensures
        occurs_in(log, log[t].seq@[j] as int),
{
}

/// What `keep_group` keeps of trace `t` is placed at `g`.
proof fn lemma_kept_placed(log: Seq<Weighted>, t: int, group: Seq<usize>, g: int, kept: Seq<usize>)
    requires
        0 <= t < log.len(),
        forall|j: int| 0 <= j < kept.len() ==> group[#[trigger] kept[j] as int] == g && exists|j2: int| 0 <= j2 < log[t].seq.len() && log[t].seq@[j2] == kept[j],
    ensures
        forall|j: int| 0 <= j < kept.len() ==> #[trigger] placed(log, group, kept[j], g),
{
    assert forall|j: int| 0 <= j < kept.len() implies #[trigger] placed(log, group, kept[j], g) by {
        assert(group[kept[j] as int] == g);
        let j2 = choose|j2: int| 0 <= j2 < log[t].seq.len() && log[t].seq@[j2] == kept[j];
        lemma_occurs_at(log, t, j2);
    }
}

/// Activities whose group is `g`.
pub open spec fn in_group(group: Seq<usize>, g: usize) -> spec_fn(usize) -> bool {
    |a: usize| group[a as int] == g
}

/// The activity `a` itself.
pub open spec fn is_activity(a: usize) -> spec_fn(usize) -> bool {
    |x: usize| x == a
}

/// How often `a` occurs in `s`.
pub open spec fn count_of(s: Seq<usize>, a: usize) -> nat {
    s.filter(is_activity(a)).len()
}

/// Every trace of `log` has a positive count.
pub open spec fn counted(log: Seq<Weighted>) -> bool {
    forall|t: int| 0 <= t < log.len() ==> #[trigger] log[t].count > 0
}

/// Every activity of `log` occurs in some sub-log of `parts`.
pub open spec fn spread_over(parts: Seq<Vec<Weighted>>, log: Seq<Weighted>) -> bool {
    forall|a: int| #[trigger] occurs_in(log, a) ==> in_some(parts, a)
}

/// Every sub-log of `parts` has positive counts.
pub open spec fn all_counted(parts: Seq<Vec<Weighted>>) -> bool {
    forall|p: int| 0 <= p < parts.len() ==> #[trigger] counted(parts[p]@)
}

/// An activity occurring in `sub` still does once `w` is appended.
pub(crate) proof fn lemma_occurs_push(sub: Seq<Weighted>, w: Weighted, a: int)
    requires
        occurs_in(sub, a),
    ensures
        occurs_in(sub.push(w), a),
{
    let (t, j) = choose|t: int, j: int| 0 <= t < sub.len() && 0 <= j < sub[t].seq.len() && sub[t].seq@[j] == a;
    assert(sub.push(w)[t] == sub[t]);
}

/// Step `j` to `j + 1` of a trace with a positive count is a weighted
/// succession.
proof fn lemma_pair_counted(log: Seq<Weighted>, t: int, j: int, k: int)
    requires
        0 <= t < k <= log.len(),
        0 <= j,
        j + 1 < log[t].seq.len(),
        log[t].count > 0,
    ensures
        crate::cuts::weighted_pairs(log, log[t].seq@[j] as int, log[t].seq@[j + 1] as int, k) > 0,
    decreases k,
{
    let a = log[t].seq@[j] as int;
    let b = log[t].seq@[j + 1] as int;
    if t < k - 1 {
        lemma_pair_counted(log, t, j, k - 1);
    } else {
        lemma_pairs_at(log[t].seq@, a, b, j, log[t].seq.len() as int);
        assert((log[t].count as nat) * crate::cuts::pairs(log[t].seq@, a, b, log[t].seq.len() as int) > 0) by (nonlinear_arith)
            requires
                log[t].count > 0,
                crate::cuts::pairs(log[t].seq@, a, b, log[t].seq.len() as int) > 0,
        ;
    }
}

proof fn lemma_pairs_at(s: Seq<usize>, a: int, b: int, j: int, k: int)
    requires
        0 <= j,
        j + 1 < k <= s.len(),
        s[j] == a,
        s[j + 1] == b,
    ensures
        crate::cuts::pairs(s, a, b, k) > 0,
    decreases k,
{
    if j + 2 < k {
        lemma_pairs_at(s, a, b, j, k - 1);
    }
}

/// An edge is a path below any bound.
proof fn lemma_edge_path(e: spec_fn(int, int) -> bool, i: int, j: int, k: int)
    requires
        e(i, j),
        0 <= k,
    ensures
        path_below(e, i, j, k),
    decreases k,
{
    if k > 0 {
        lemma_edge_path(e, i, j, k - 1);
    }
}

/// Activity `a` occurs in some sub-log of `parts`.
pub open spec fn in_some(parts: Seq<Vec<Weighted>>, a: int) -> bool {
    exists|p: int| 0 <= p < parts.len() && #[trigger] occurs_in(parts[p]@, a)
}

/// Every activity of the first `t` traces of `log` occurs in some
/// sub-log of `parts`.
pub open spec fn reached(parts: Seq<Vec<Weighted>>, log: Seq<Weighted>, t: int) -> bool {
    forall|t2: int, j: int| 0 <= t2 < t && 0 <= j < log[t2].seq.len() ==> #[trigger] in_some(parts, log[t2].seq@[j] as int)
}

/// Appending to one sub-log keeps every activity where it was.
proof fn lemma_in_some_push(p0: Seq<Vec<Weighted>>, p1: Seq<Vec<Weighted>>, q: int, w: Weighted, a: int)
    requires
        in_some(p0, a),
        p1.len() == p0.len(),
        0 <= q < p0.len(),
        p1[q]@ == p0[q]@.push(w),
        forall|x: int| 0 <= x < p0.len() && x != q ==> #[trigger] p1[x] == p0[x],
    ensures
        in_some(p1, a),
{
    let p = choose|p: int| 0 <= p < p0.len() && #[trigger] occurs_in(p0[p]@, a);
    if p == q {
        lemma_occurs_push(p0[q]@, w, a);
        assert(occurs_in(p1[p]@, a));
    } else {
        assert(p1[p] == p0[p]);
        assert(occurs_in(p1[p]@, a));
    }
}

proof fn lemma_reached_push(p0: Seq<Vec<Weighted>>, p1: Seq<Vec<Weighted>>, q: int, w: Weighted, log: Seq<Weighted>, t: int)
    requires
        reached(p0, log, t),
        p1.len() == p0.len(),
        0 <= q < p0.len(),
        p1[q]@ == p0[q]@.push(w),
        forall|x: int| 0 <= x < p0.len() && x != q ==> #[trigger] p1[x] == p0[x],
    ensures
        reached(p1, log, t),
{
    assert forall|t2: int, j: int| 0 <= t2 < t && 0 <= j < log[t2].seq.len() implies #[trigger] in_some(p1, log[t2].seq@[j] as int) by {
        assert(in_some(p0, log[t2].seq@[j] as int));
        lemma_in_some_push(p0, p1, q, w, log[t2].seq@[j] as int);
    }
}

proof fn lemma_reached_spread(parts: Seq<Vec<Weighted>>, log: Seq<Weighted>)
    requires
        reached(parts, log, log.len() as int),
    ensures
        spread_over(parts, log),
{
    assert forall|a: int| #[trigger] occurs_in(log, a) implies in_some(parts, a) by {
        let (t, j) = choose|t: int, j: int| 0 <= t < log.len() && 0 <= j < log[t].seq.len() && log[t].seq@[j] == a;
        assert(in_some(parts, log[t].seq@[j] as int));
    }
}

/// A projection along a grouping of every activity spreads the log over
/// its sub-logs and keeps the counts.
pub(crate) proof fn lemma_projected_spread(parts: Seq<Vec<Weighted>>, log: Seq<Weighted>, place: Seq<usize>)
    requires
        projected(parts, log, place),
        grouped(log, place, parts.len() as int),
    ensures
        spread_over(parts, log),
        counted(log) ==> all_counted(parts),
{
    assert forall|a: int| #[trigger] occurs_in(log, a) implies in_some(parts, a) by {
        let (t, j) = choose|t: int, j: int| 0 <= t < log.len() && 0 <= j < log[t].seq.len() && log[t].seq@[j] == a;
        let p = place[a] as int;
        assert(place[log[t].seq@[j] as int] < parts.len());
        let s0 = log[t].seq@;
        assert(in_group(place, p as usize)(s0[j]));
        s0.filter_lemma(in_group(place, p as usize));
        assert(s0.filter(in_group(place, p as usize)).contains(s0[j]));
        assert(parts[p]@.len() == log.len());
        assert(parts[p]@[t].seq@ == s0.filter(in_group(place, p as usize)));
        let z = choose|z: int| 0 <= z < parts[p]@[t].seq@.len() && parts[p]@[t].seq@[z] == s0[j];
        assert(occurs_in(parts[p]@, a));
    }
    if counted(log) {
        assert forall|p: int| 0 <= p < parts.len() implies #[trigger] counted(parts[p]@) by {
            assert(parts[p]@.len() == log.len());
            assert forall|t: int| 0 <= t < parts[p]@.len() implies #[trigger] parts[p]@[t].count > 0 by {
                assert(parts[p]@[t].seq@ == log[t].seq@.filter(in_group(place, p as usize)));
            }
        }
    }
}

proof fn lemma_counted_push(p0: Seq<Vec<Weighted>>, p1: Seq<Vec<Weighted>>, q: int, w: Weighted)
    requires
        all_counted(p0),
        w.count > 0,
        p1.len() == p0.len(),
        0 <= q < p0.len(),
        p1[q]@ == p0[q]@.push(w),
        forall|x: int| 0 <= x < p0.len() && x != q ==> #[trigger] p1[x] == p0[x],
    ensures
        all_counted(p1),
{
    assert forall|x: int| 0 <= x < p1.len() implies #[trigger] counted(p1[x]@) by {
        assert(counted(p0[x]@));
        if x != q {
            assert(p1[x] == p0[x]);
        } else {
            assert forall|t: int| 0 <= t < p1[x]@.len() implies #[trigger] p1[x]@[t].count > 0 by {
                if t < p0[x]@.len() {
                    assert(p1[x]@[t] == p0[x]@[t]);
                }
            }
        }
    }
}

/// What the appended run holds occurs in the sub-log it joined.
proof fn lemma_run_in(p0: Seq<Vec<Weighted>>, p1: Seq<Vec<Weighted>>, q: int, w: Weighted, a: usize)
    requires
        p1.len() == p0.len(),
        0 <= q < p0.len(),
        p1[q]@ == p0[q]@.push(w),
        w.seq@.contains(a),
    ensures
        in_some(p1, a as int),
{
    let z = choose|z: int| 0 <= z < w.seq@.len() && w.seq@[z] == a;
    let ti = p0[q]@.len() as int;
    assert(p1[q]@[ti] == w);
    assert(p1[q]@[ti].seq@[z] == a);
    assert(occurs_in(p1[q]@, a as int));
}

/// Without noise filtering, every trace of a counted log stays in one
/// component of the directly-follows graph.
proof fn lemma_same_group(
    log: Seq<Weighted>,
    n: int,
    noise: Ratio,
    g: CutGraph,
    links: Seq<Vec<bool>>,
    comp: Seq<usize>,
    group: Seq<usize>,
    t: int,
    j: int,
)
    requires
        graph_of(log, n, noise, g),
        ids_below(log, n),
        noise.num <= 0,
        counted(log),
        links_are(links, g, 0),
        comp.len() == g.alphabet.len(),
        forall|a: int, b: int| 0 <= a < g.alphabet.len() && 0 <= b < g.alphabet.len() ==> (#[trigger] comp[a] == #[trigger] comp[b]) == connected(links, g.alphabet.len() as int, a, b),
        group.len() == n,
        forall|i: int| 0 <= i < g.alphabet.len() ==> #[trigger] group[g.alphabet[i] as int] == comp[i],
        0 <= t < log.len(),
        0 <= j < log[t].seq.len(),
    ensures
        group[log[t].seq@[j] as int] == group[log[t].seq@[0] as int],
    decreases j,
{
    if j > 0 {
        lemma_same_group(log, n, noise, g, links, comp, group, t, j - 1);
        let a = log[t].seq@[j - 1] as int;
        let b = log[t].seq@[j] as int;
        lemma_occurs_at(log, t, j - 1);
        lemma_occurs_at(log, t, j);
        assert(g.alphabet@.contains(a as usize));
        assert(g.alphabet@.contains(b as usize));
        let ia = choose|i: int| 0 <= i < g.alphabet.len() && g.alphabet@[i] == a as usize;
        let ib = choose|i: int| 0 <= i < g.alphabet.len() && g.alphabet@[i] == b as usize;
        lemma_pair_counted(log, t, j - 1, log.len() as int);
        assert(g.follows[a]@[b] == crate::cuts::kept_follows(log, n, noise, a, b));
        assert(links[ia]@[ib] == link(g, 0, ia, ib));
        assert(crate::closure::sym_edge(links)(ia, ib));
        lemma_edge_path(crate::closure::sym_edge(links), ia, ib, g.alphabet.len() as int);
        assert(connected(links, g.alphabet.len() as int, ia, ib));
        assert(comp[ia] == comp[ib]);
        assert(group[g.alphabet[ia] as int] == comp[ia]);
        assert(group[g.alphabet[ib] as int] == comp[ib]);
    }
}

/// Whether the weighted steps of `log` fit in `usize`.
pub(crate) fn weight_fits(log: &Vec<Weighted>) -> (r: bool)
    ensures
        r == (weight(log@, log.len() as int) <= usize::MAX),
{
    let mut total: usize = 0;
    let mut t: usize = 0;
    while t < log.len()
        invariant
            t <= log.len(),
            total == weight(log@, t as int),
        decreases log.len() - t,
    {
        let c = log[t].count;
        let l = log[t].seq.len();
        match c.checked_mul(l) {
            Some(x) => {
                match total.checked_add(x) {
                    Some(y) => {
                        total = y;
                    },
                    None => {
                        proof {
                            crate::cuts::lemma_weight_monotone(log@, t + 1, log.len() as int);
                        }
                        return false;
                    },
                }
            },
            None => {
                proof {
                    assert((c as nat) * (l as nat) <= weight(log@, t + 1));
                    crate::cuts::lemma_weight_monotone(log@, t + 1, log.len() as int);
                }
                return false;
            },
        }
        t = t + 1;
    }
    true
}

/// Append `w` to sub-log `p`.
fn push_part(parts: &mut Vec<Vec<Weighted>>, p: usize, w: Weighted, n: Ghost<int>, log: Ghost<Seq<Weighted>>, place: Ghost<Seq<usize>>)
    requires
        p < old(parts).len(),
        parts_below(old(parts)@, n@),
        split_by(old(parts)@, log@, place@),
        forall|j: int| 0 <= j < w.seq.len() ==> #[trigger] w.seq@[j] < n@,
        forall|j: int| 0 <= j < w.seq.len() ==> #[trigger] placed(log@, place@, w.seq@[j], p as int),
    ensures
        final(parts).len() == old(parts).len(),
        final(parts)@[p as int]@ == old(parts)@[p as int]@.push(w),
        forall|q: int| 0 <= q < old(parts).len() && q != p ==> #[trigger] final(parts)@[q] == old(parts)@[q],
        parts_below(final(parts)@, n@),
        split_by(final(parts)@, log@, place@),
{
    let ghost p0 = parts@;
    let mut part: Vec<Weighted> = Vec::new();
    std::mem::swap(&mut part, &mut parts[p]);
    assert(part@ == p0[p as int]@);
    assert(ids_below(p0[p as int]@, n@));
    part.push(w);
    parts.set(p, part);
    proof {
        assert forall|q: int| 0 <= q < parts.len() implies #[trigger] ids_below(parts@[q]@, n@) by {
            if q != p {
                assert(parts@[q] == p0[q]);
                assert(ids_below(p0[q]@, n@));
            } else {
                assert forall|t: int, j: int| 0 <= t < parts@[q]@.len() && 0 <= j < parts@[q]@[t].seq.len() implies #[trigger] parts@[q]@[t].seq@[j] < n@ by {
                    if t < p0[q]@.len() {
                        assert(parts@[q]@[t] == p0[q]@[t]);
                    }
                }
            }
        }
        assert forall|q: int, t: int, j: int|
            0 <= q < parts.len() && 0 <= t < parts@[q]@.len() && 0 <= j < parts@[q]@[t].seq.len() implies #[trigger] placed(
            log@,
            place@,
            parts@[q]@[t].seq@[j],
            q,
        ) by {
            if q != p {
                assert(parts@[q] == p0[q]);
            } else if t < p0[q]@.len() {
                assert(parts@[q]@[t] == p0[q]@[t]);
            }
        }
    }
}

/// `k` empty sub-logs.
pub(crate) fn empty_parts(k: usize, n: Ghost<int>) -> (parts: Vec<Vec<Weighted>>)
    ensures
        parts.len() == k,
        parts_below(parts@, n@),
        forall|log: Seq<Weighted>, place: Seq<usize>| split_by(parts@, log, place),
        forall|p: int| 0 <= p < k ==> #[trigger] parts@[p]@.len() == 0,
{
    let mut parts: Vec<Vec<Weighted>> = Vec::new();
    let mut i: usize = 0;
    while i < k
        invariant
            i <= k,
            parts.len() == i,
            forall|p: int| 0 <= p < i ==> #[trigger] parts@[p]@.len() == 0,
        decreases k - i,
    {
        parts.push(Vec::new());
        i = i + 1;
    }
    proof {
        assert forall|p: int| 0 <= p < k implies #[trigger] ids_below(parts@[p]@, n@) by {
            assert(parts@[p]@.len() == 0);
        }
    }
    parts
}

/// The activities of `seq` whose group is `g`, in order.
fn keep_group(seq: &Vec<usize>, group: &Vec<usize>, g: usize, n: Ghost<int>) -> (r: Vec<usize>)
    requires
        group.len() == n@,
        forall|j: int| 0 <= j < seq.len() ==> #[trigger] seq@[j] < n@,
    ensures
        forall|j: int| 0 <= j < r.len() ==> #[trigger] r@[j] < n@,
        forall|j: int| 0 <= j < r.len() ==> group@[#[trigger] r@[j] as int] == g && exists|j2: int| 0 <= j2 < seq.len() && seq@[j2] == r@[j],
        r@ == seq@.filter(in_group(group@, g)),
{
    let mut r: Vec<usize> = Vec::new();
    let mut j: usize = 0;
    while j < seq.len()
        invariant
            group.len() == n@,
            forall|j2: int| 0 <= j2 < seq.len() ==> #[trigger] seq@[j2] < n@,
            j <= seq.len(),
            forall|j2: int| 0 <= j2 < r.len() ==> #[trigger] r@[j2] < n@,
            forall|j2: int| 0 <= j2 < r.len() ==> group@[#[trigger] r@[j2] as int] == g && exists|j3: int| 0 <= j3 < seq.len() && seq@[j3] == r@[j2],
            r@ == seq@.take(j as int).filter(in_group(group@, g)),
        decreases seq.len() - j,
    {
        let a = seq[j];
        proof {
            assert(seq@.take(j + 1).drop_last() == seq@.take(j as int));
            reveal(Seq::filter);
        }
        if group[a] == g {
            r.push(a);
        }
        j = j + 1;
    }
    assert(seq@.take(seq.len() as int) == seq@);
    r
}

/// Sub-log `p` of `parts` holds, for every trace of `log`, its
/// activities placed at `p`, with the trace's count.
pub open spec fn projected(parts: Seq<Vec<Weighted>>, log: Seq<Weighted>, place: Seq<usize>) -> bool {
    &&& forall|p: int| 0 <= p < parts.len() ==> #[trigger] parts[p]@.len() == log.len()
    &&& forall|p: int, t: int|
        0 <= p < parts.len() && 0 <= t < log.len() ==> #[trigger] parts[p]@[t].seq@
            == log[t].seq@.filter(in_group(place, p as usize)) && parts[p]@[t].count == log[t].count
}

/// `parts` projects `log` under some placement of its activities.
pub open spec fn projected_somehow(parts: Seq<Vec<Weighted>>, log: Seq<Weighted>) -> bool {
    exists|place: Seq<usize>| #[trigger] projected(parts, log, place)
}

/// Project every trace onto each of `k` groups: sub-log `p` holds each
/// trace's activities of group `p`.
pub(crate) fn project(log: &Vec<Weighted>, group: &Vec<usize>, k: usize, n: Ghost<int>) -> (parts: Vec<Vec<Weighted>>)
    requires
        group.len() == n@,
        ids_below(log@, n@),
    ensures
        parts.len() == k,
        parts_below(parts@, n@),
        split_by(parts@, log@, group@),
        projected(parts@, log@, group@),
{
    let mut parts = empty_parts(k, n);
    let mut t: usize = 0;
    while t < log.len()
        invariant
            group.len() == n@,
            ids_below(log@, n@),
            t <= log.len(),
            parts.len() == k,
            parts_below(parts@, n@),
            split_by(parts@, log@, group@),
            forall|q: int| 0 <= q < k ==> #[trigger] parts@[q]@.len() == t,
            forall|q: int, t2: int| 0 <= q < k && 0 <= t2 < parts@[q]@.len() ==> #[trigger] parts@[q]@[t2].seq@ == log@[t2].seq@.filter(in_group(group@, q as usize)) && parts@[q]@[t2].count == log@[t2].count,
        decreases log.len() - t,
    {
        let mut p: usize = 0;
        while p < k
            invariant
                group.len() == n@,
                ids_below(log@, n@),
                t < log.len(),
                p <= k,
                parts.len() == k,
                parts_below(parts@, n@),
                split_by(parts@, log@, group@),
                forall|q: int| 0 <= q < k ==> #[trigger] parts@[q]@.len() == if q < p { t + 1 } else { t as int },
                forall|q: int, t2: int| 0 <= q < k && 0 <= t2 < parts@[q]@.len() ==> #[trigger] parts@[q]@[t2].seq@ == log@[t2].seq@.filter(in_group(group@, q as usize)) && parts@[q]@[t2].count == log@[t2].count,
            decreases k - p,
        {
            assert forall|j: int| 0 <= j < log@[t as int].seq.len() implies #[trigger] log@[t as int].seq@[j] < n@ by {}
            let seq = keep_group(&log[t].seq, group, p, n);
            proof {
                lemma_kept_placed(log@, t as int, group@, p as int, seq@);
            }
            let ghost p0 = parts@;
            let ghost ws = seq@;
            assert(p0[p as int]@.len() == t);
            assert(forall|q: int, t2: int| 0 <= q < k && 0 <= t2 < p0[q]@.len() ==> #[trigger] p0[q]@[t2].seq@ == log@[t2].seq@.filter(in_group(group@, q as usize)) && p0[q]@[t2].count == log@[t2].count);
            push_part(&mut parts, p, Weighted { seq, count: log[t].count }, n, Ghost(log@), Ghost(group@));
            proof {
                assert forall|q: int| 0 <= q < k implies #[trigger] parts@[q]@.len() == if q < p + 1 { t + 1 } else { t as int } by {
                    if q != p {
                        assert(parts@[q] == p0[q]);
                    }
                }
                assert forall|q: int, t2: int| 0 <= q < k && 0 <= t2 < parts@[q]@.len() implies #[trigger] parts@[q]@[t2].seq@ == log@[t2].seq@.filter(in_group(group@, q as usize)) && parts@[q]@[t2].count == log@[t2].count by {
                    if q != p {
                        assert(parts@[q] == p0[q]);
                        assert(p0[q]@[t2].seq@ == log@[t2].seq@.filter(in_group(group@, q as usize)));
                    } else if t2 < t {
                        assert(parts@[q]@[t2] == p0[q]@[t2]);
                        assert(p0[q]@[t2].seq@ == log@[t2].seq@.filter(in_group(group@, q as usize)));
                    } else {
                        assert(parts@[q]@[t2].seq@ == ws);
                    }
                }
            }
            p = p + 1;
        }
        t = t + 1;
    }
    parts
}

/// The link between alphabet positions `i` and `j` read through `pick`.
pub open spec fn link(g: CutGraph, pick: u8, i: int, j: int) -> bool {
    let a = g.alphabet[i] as int;
    let b = g.alphabet[j] as int;
    if pick == 0 {
        g.follows[a]@[b] > 0
    } else if pick == 1 {
        !(g.follows[a]@[b] > 0 && g.follows[b]@[a] > 0)
    } else {
        g.follows[a]@[b] > 0 && !g.ends[a] && !g.starts[b]
    }
}

/// `m` holds the links of `g` read through `pick`.
pub open spec fn links_are(m: Seq<Vec<bool>>, g: CutGraph, pick: u8) -> bool {
    &&& square(m, g.alphabet.len() as int)
    &&& forall|i: int, j: int| 0 <= i < g.alphabet.len() && 0 <= j < g.alphabet.len() ==> #[trigger] m[i]@[j] == link(g, pick, i, j)
}

/// `lm` links two positions when each reaches the other through `e`, or
/// neither does.
pub open spec fn order_links(lm: Seq<Vec<bool>>, e: Seq<Vec<bool>>, k: int) -> bool {
    &&& square(lm, k)
    &&& forall|i: int, j: int| 0 <= i < k && 0 <= j < k ==> #[trigger] lm[i]@[j] == (path_below(matrix_edge(e), i, j, k) == path_below(matrix_edge(e), j, i, k))
}

/// The graph's edges over its alphabet's positions, read through `pick`:
/// `0` every edge, `1` both directions present, `2` the loop-cut links
/// (an edge not leaving an end nor entering a start).
fn position_links(g: &CutGraph, n: usize, pick: u8) -> (m: Vec<Vec<bool>>)
    requires
        graph_of_shape(*g, n as int),
    ensures
        links_are(m@, *g, pick),
{
    let k = g.alphabet.len();
    let mut m: Vec<Vec<bool>> = Vec::new();
    let mut i: usize = 0;
    while i < k
        invariant
            graph_of_shape(*g, n as int),
            k == g.alphabet.len(),
            i <= k,
            m.len() == i,
            forall|x: int| 0 <= x < i ==> #[trigger] m[x].len() == k,
            forall|x: int, y: int| 0 <= x < i && 0 <= y < k ==> #[trigger] m[x]@[y] == link(*g, pick, x, y),
        decreases k - i,
    {
        let mut row: Vec<bool> = Vec::new();
        let mut j: usize = 0;
        while j < k
            invariant
                graph_of_shape(*g, n as int),
                k == g.alphabet.len(),
                i < k,
                j <= k,
                row.len() == j,
                forall|y: int| 0 <= y < j ==> #[trigger] row@[y] == link(*g, pick, i as int, y),
            decreases k - j,
        {
            let a = g.alphabet[i];
            let b = g.alphabet[j];
            assert(g.follows[a as int].len() == n && g.follows[b as int].len() == n);
            let v = if pick == 0 {
                g.follows[a][b] > 0
            } else if pick == 1 {
                !(g.follows[a][b] > 0 && g.follows[b][a] > 0)
            } else {
                g.follows[a][b] > 0 && !g.ends[a] && !g.starts[b]
            };
            row.push(v);
            j = j + 1;
        }
        m.push(row);
        i = i + 1;
    }
    m
}

/// The sizes a graph over `n` activities has.
pub open spec fn graph_of_shape(g: CutGraph, n: int) -> bool {
    &&& forall|i: int| 0 <= i < g.alphabet.len() ==> #[trigger] g.alphabet[i] < n
    &&& forall|i: int, j: int| 0 <= i < j < g.alphabet.len() ==> #[trigger] g.alphabet[i] < #[trigger] g.alphabet[j]
    &&& g.follows.len() == n
    &&& forall|a: int| 0 <= a < n ==> #[trigger] g.follows[a].len() == n
    &&& g.starts.len() == n
    &&& g.ends.len() == n
}

/// Per activity below `n`: the entry of its alphabet position in
/// `per_position` (zero for activities outside the alphabet).
pub(crate) fn by_activity(g: &CutGraph, per_position: &Vec<usize>, n: usize) -> (r: Vec<usize>)
    requires
        graph_of_shape(*g, n as int),
        per_position.len() == g.alphabet.len(),
    ensures
        r.len() == n,
        forall|i: int| 0 <= i < g.alphabet.len() ==> #[trigger] r[g.alphabet[i] as int] == per_position[i],
{
    let mut r: Vec<usize> = Vec::new();
    let mut a: usize = 0;
    while a < n
        invariant
            a <= n,
            r.len() == a,
        decreases n - a,
    {
        r.push(0);
        a = a + 1;
    }
    let mut i: usize = 0;
    while i < g.alphabet.len()
        invariant
            graph_of_shape(*g, n as int),
            per_position.len() == g.alphabet.len(),
            i <= g.alphabet.len(),
            r.len() == n,
            forall|i0: int| 0 <= i0 < i ==> #[trigger] r[g.alphabet[i0] as int] == per_position[i0],
        decreases g.alphabet.len() - i,
    {
        let a = g.alphabet[i];
        let ghost r0 = r@;
        r.set(a, per_position[i]);
        proof {
            assert forall|i0: int| 0 <= i0 < i + 1 implies #[trigger] r[g.alphabet[i0] as int] == per_position[i0] by {
                if i0 < i {
                    assert(g.alphabet[i0] < g.alphabet[i as int]);
                    assert(r[g.alphabet[i0] as int] == r0[g.alphabet[i0] as int]);
                }
            }
        }
        i = i + 1;
    }
    r
}

/// Every activity of `log` has a group below `k`.
pub open spec fn grouped(log: Seq<Weighted>, group: Seq<usize>, k: int) -> bool {
    forall|t: int, j: int| 0 <= t < log.len() && 0 <= j < log[t].seq.len() ==> #[trigger] group[log[t].seq@[j] as int] < k
}

pub(crate) proof fn lemma_grouped(log: Seq<Weighted>, n: int, noise: Ratio, g: CutGraph, group: Seq<usize>, per_position: Seq<usize>, k: int)
    requires
        graph_of(log, n, noise, g),
        ids_below(log, n),
        group.len() == n,
        per_position.len() == g.alphabet.len(),
        forall|i: int| 0 <= i < g.alphabet.len() ==> #[trigger] group[g.alphabet[i] as int] == per_position[i],
        forall|i: int| 0 <= i < per_position.len() ==> #[trigger] per_position[i] < k,
    ensures
        grouped(log, group, k),
{
    assert forall|t: int, j: int| 0 <= t < log.len() && 0 <= j < log[t].seq.len() implies #[trigger] group[log[t].seq@[j] as int] < k by {
        let a = log[t].seq@[j] as int;
        assert(crate::cuts::occurs_in(log, a));
        assert(g.alphabet@.contains(a as usize));
        let i = choose|i: int| 0 <= i < g.alphabet.len() && g.alphabet@[i] == a as usize;
        assert(group[g.alphabet[i] as int] == per_position[i]);
    }
}

/// How many of the first `j` activities of `s` are placed at `c`.
pub open spec fn votes_upto(s: Seq<usize>, place: Seq<usize>, c: int, j: int) -> nat
    decreases j,
{
    if j <= 0 {
        0
    } else {
        votes_upto(s, place, c, j - 1) + if place[s[j - 1] as int] == c {
            1nat
        } else {
            0nat
        }
    }
}

/// How many of the activities of `s` are placed at `c`.
pub open spec fn trace_votes(s: Seq<usize>, place: Seq<usize>, c: int) -> nat {
    votes_upto(s, place, c, s.len() as int)
}

/// Of the `k` components, `c` is the one trace `s` goes to: it holds at
/// least as many of the trace's activities as any component, and more than
/// every component before it.
pub open spec fn majority(s: Seq<usize>, place: Seq<usize>, k: int, c: int) -> bool {
    &&& 0 <= c < k
    &&& forall|q: int| 0 <= q < k ==> #[trigger] trace_votes(s, place, q) <= trace_votes(s, place, c)
    &&& forall|q: int| 0 <= q < c ==> #[trigger] trace_votes(s, place, q) < trace_votes(s, place, c)
}

/// The sub-log at component `p` once the first `t` traces of `log` are
/// routed: each trace whose majority component is `p`, kept to that
/// component's activities, with its count, in log order.
pub open spec fn routed(log: Seq<Weighted>, place: Seq<usize>, k: int, p: int, t: int) -> Seq<(Seq<usize>, usize)>
    decreases t,
{
    if t <= 0 {
        Seq::empty()
    } else if majority(log[t - 1].seq@, place, k, p) {
        routed(log, place, k, p, t - 1).push((log[t - 1].seq@.filter(in_group(place, p as usize)), log[t - 1].count))
    } else {
        routed(log, place, k, p, t - 1)
    }
}

/// `parts` is `log` routed by majority under `place`.
pub open spec fn routed_parts(parts: Seq<Vec<Weighted>>, log: Seq<Weighted>, place: Seq<usize>) -> bool {
    forall|p: int| 0 <= p < parts.len() ==> #[trigger] log_views(parts[p]@) == routed(log, place, parts.len() as int, p, log.len() as int)
}

/// `parts` is `log` routed by majority under some placement of its
/// activities, each sub-log drawn under that placement.
pub closed spec fn routed_somehow(parts: Seq<Vec<Weighted>>, log: Seq<Weighted>) -> bool {
    exists|place: Seq<usize>| #[trigger] routed_parts(parts, log, place) && drawn_from(parts, log, place)
}

/// What `routed_somehow` says: some placement routes `log` into `parts`
/// by majority, each sub-log drawn under it.
pub proof fn lemma_routed_somehow(parts: Seq<Vec<Weighted>>, log: Seq<Weighted>)
    requires
        routed_somehow(parts, log),
    ensures
        exists|place: Seq<usize>| #[trigger] routed_parts(parts, log, place) && drawn_from(parts, log, place),
{
}

/// At most one component is a trace's majority component.
proof fn lemma_majority_unique(s: Seq<usize>, place: Seq<usize>, k: int, c1: int, c2: int)
    requires
        majority(s, place, k, c1),
        majority(s, place, k, c2),
    ensures
        c1 == c2,
{
    if c1 < c2 {
        assert(trace_votes(s, place, c1) < trace_votes(s, place, c2));
        assert(trace_votes(s, place, c2) <= trace_votes(s, place, c1));
    } else if c2 < c1 {
        assert(trace_votes(s, place, c2) < trace_votes(s, place, c1));
        assert(trace_votes(s, place, c1) <= trace_votes(s, place, c2));
    }
}

/// Every entry of the routed sub-log at `p` is some trace among the first
/// `t`, kept to `p`'s activities, whose majority component is `p`.
proof fn lemma_routed_from(log: Seq<Weighted>, place: Seq<usize>, k: int, p: int, t: int, i: int)
    requires
        0 <= t <= log.len(),
        0 <= i < routed(log, place, k, p, t).len(),
    ensures
        exists|t2: int|
            0 <= t2 < t && #[trigger] majority(log[t2].seq@, place, k, p) && routed(log, place, k, p, t)[i] == (
                log[t2].seq@.filter(in_group(place, p as usize)),
                log[t2].count,
            ),
    decreases t,
{
    let prev = routed(log, place, k, p, t - 1);
    if majority(log[t - 1].seq@, place, k, p) && i == prev.len() {
        assert(majority(log[t - 1].seq@, place, k, p));
    } else {
        lemma_routed_from(log, place, k, p, t - 1, i);
        let t2 = choose|t2: int|
            0 <= t2 < t - 1 && #[trigger] majority(log[t2].seq@, place, k, p) && prev[i] == (
                log[t2].seq@.filter(in_group(place, p as usize)),
                log[t2].count,
            );
        assert(majority(log[t2].seq@, place, k, p));
    }
}

/// The exclusive cut sends each trace where most of its activities lie:
/// every trace of a sub-log is a trace of the log kept to that component's
/// activities, with its count, and that component holds at least as many
/// of the trace's activities as any other component, and more than every
/// component before it.
pub proof fn law_exclusive_majority(parts: Seq<Vec<Weighted>>, log: Seq<Weighted>, place: Seq<usize>, p: int, i: int)
    requires
        routed_parts(parts, log, place),
        0 <= p < parts.len(),
        0 <= i < parts[p]@.len(),
    ensures
        exists|t: int|
            #![trigger log[t]]
            0 <= t < log.len() && parts[p]@[i].seq@ == log[t].seq@.filter(in_group(place, p as usize)) && parts[p]@[i].count == log[t].count
                && (forall|q: int| 0 <= q < parts.len() ==> #[trigger] votes_upto(log[t].seq@, place, q, log[t].seq.len() as int) <= votes_upto(
                log[t].seq@,
                place,
                p,
                log[t].seq.len() as int,
            )) && (forall|q: int| 0 <= q < p ==> #[trigger] votes_upto(log[t].seq@, place, q, log[t].seq.len() as int) < votes_upto(
                log[t].seq@,
                place,
                p,
                log[t].seq.len() as int,
            )),
{
    let k = parts.len() as int;
    assert(log_views(parts[p]@) == routed(log, place, k, p, log.len() as int));
    assert(log_views(parts[p]@)[i] == (parts[p]@[i].seq@, parts[p]@[i].count));
    lemma_routed_from(log, place, k, p, log.len() as int, i);
    let t = choose|t2: int|
        0 <= t2 < log.len() && #[trigger] majority(log[t2].seq@, place, k, p) && routed(log, place, k, p, log.len() as int)[i] == (
            log[t2].seq@.filter(in_group(place, p as usize)),
            log[t2].count,
        );
    let s = log[t].seq@;
    assert forall|q: int| 0 <= q < k implies #[trigger] votes_upto(s, place, q, s.len() as int) <= votes_upto(s, place, p, s.len() as int) by {
        assert(trace_votes(s, place, q) <= trace_votes(s, place, p));
    }
    assert forall|q: int| 0 <= q < p implies #[trigger] votes_upto(s, place, q, s.len() as int) < votes_upto(s, place, p, s.len() as int) by {
        assert(trace_votes(s, place, q) < trace_votes(s, place, p));
    }
}

/// The exclusive cut: the connected components of the directly-follows
/// graph. Each trace goes to the component holding most of its activities
/// (the first such), keeping only that component's activities.
pub(crate) fn exclusive_cut(log: &Vec<Weighted>, g: &CutGraph, n: usize, noise: Ghost<Ratio>) -> (r: Option<Vec<Vec<Weighted>>>)
    requires
        graph_of(log@, n as int, noise@, *g),
        ids_below(log@, n as int),
    ensures
        r matches Some(parts) ==> parts.len() >= 2 && parts_below(parts@, n as int) && disjoint_parts(parts@, log@),
        r matches Some(parts) ==> total_len(parts@, parts.len() as int) == log.len() && drawn_somehow(parts@, log@),
        r matches Some(parts) ==> routed_somehow(parts@, log@),
        r matches Some(parts) ==> (counted(log@) ==> all_counted(parts@)) && (noise@.num <= 0 && counted(log@) ==> spread_over(parts@, log@)),
        exists|m: Seq<Vec<bool>>|
            #![trigger links_are(m, *g, 0)]
            links_are(m, *g, 0) && (r is Some) == (count_opens(m, g.alphabet.len() as int, g.alphabet.len() as int) >= 2)
                && (r matches Some(parts) ==> parts.len() == count_opens(m, g.alphabet.len() as int, g.alphabet.len() as int)),
{
    let links = position_links(g, n, 0);
    let (comp, k) = components(&links, g.alphabet.len());
    if k < 2 {
        assert(links_are(links@, *g, 0));
        return None;
    }
    let group = by_activity(g, &comp, n);
    proof {
        lemma_grouped(log@, n as int, noise@, *g, group@, comp@, k as int);
    }
    let mut parts = empty_parts(k, Ghost(n as int));
    let ghost zero = noise@.num <= 0 && counted(log@);
    proof {
        lemma_total_len_zero(parts@, k as int);
        if zero {
            assert forall|t2: int, j2: int| 0 <= t2 < log.len() && 0 <= j2 < log@[t2].seq.len() implies #[trigger] group[log@[t2].seq@[j2] as int] == group[log@[t2].seq@[0] as int] by {
                lemma_same_group(log@, n as int, noise@, *g, links@, comp@, group@, t2, j2);
            }
        }
    }
    let mut t: usize = 0;
    while t < log.len()
        invariant
            ids_below(log@, n as int),
            grouped(log@, group@, k as int),
            group.len() == n,
            k >= 2,
            t <= log.len(),
            parts.len() == k,
            parts_below(parts@, n as int),
            split_by(parts@, log@, group@),
            total_len(parts@, k as int) == t,
            drawn_from(parts@, log@, group@),
            forall|p: int| 0 <= p < k ==> #[trigger] log_views(parts@[p]@) == routed(log@, group@, k as int, p, t as int),
            zero == (noise@.num <= 0 && counted(log@)),
            zero ==> reached(parts@, log@, t as int),
            counted(log@) ==> all_counted(parts@),
            zero ==> forall|t2: int, j2: int| 0 <= t2 < log.len() && 0 <= j2 < log@[t2].seq.len() ==> #[trigger] group[log@[t2].seq@[j2] as int] == group[log@[t2].seq@[0] as int],
        decreases log.len() - t,
    {
        let seq = &log[t].seq;
        let ghost c0 = if seq.len() > 0 { group[seq@[0] as int] } else { 0usize };
        let mut votes: Vec<usize> = Vec::new();
        let mut p: usize = 0;
        while p < k
            invariant
                p <= k,
                votes.len() == p,
                forall|q: int| 0 <= q < p ==> #[trigger] votes[q] == 0,
            decreases k - p,
        {
            votes.push(0);
            p = p + 1;
        }
        let mut j: usize = 0;
        while j < seq.len()
            invariant
                ids_below(log@, n as int),
                grouped(log@, group@, k as int),
                group.len() == n,
                t < log.len(),
                seq == &log[t as int].seq,
                j <= seq.len(),
                votes.len() == k,
                forall|q: int| 0 <= q < k ==> #[trigger] votes[q] <= j,
                forall|q: int| 0 <= q < k ==> #[trigger] votes[q] == votes_upto(seq@, group@, q, j as int),
                zero ==> forall|j2: int| 0 <= j2 < seq.len() ==> #[trigger] group[seq@[j2] as int] == c0,
                zero ==> votes[c0 as int] == j && forall|q: int| 0 <= q < k && q != c0 ==> #[trigger] votes[q] == 0,
                seq.len() > 0 ==> c0 == group[seq@[0] as int],
                c0 < k,
            decreases seq.len() - j,
        {
            let a = seq[j];
            assert(log@[t as int].seq@[j as int] == a);
            let c = group[a];
            votes.set(c, votes[c] + 1);
            j = j + 1;
        }
        let mut best: usize = 0;
        let mut q: usize = 1;
        while q < k
            invariant
                votes.len() == k,
                k >= 2,
                best < k,
                1 <= q <= k,
                c0 < k,
                zero && seq.len() > 0 ==> votes[c0 as int] == seq.len() && forall|q2: int| 0 <= q2 < k && q2 != c0 ==> #[trigger] votes[q2] == 0,
                zero && seq.len() > 0 ==> (q > c0 ==> best == c0) && (q <= c0 ==> votes[best as int] == 0),
                forall|q2: int| 0 <= q2 < k ==> #[trigger] votes[q2] == trace_votes(seq@, group@, q2),
                best < q,
                forall|q2: int| 0 <= q2 < q ==> #[trigger] votes[q2] <= votes[best as int],
                forall|q2: int| 0 <= q2 < best ==> #[trigger] votes[q2] < votes[best as int],
            decreases k - q,
        {
            if votes[q] > votes[best] {
                best = q;
            }
            q = q + 1;
        }
        assert forall|j2: int| 0 <= j2 < log@[t as int].seq.len() implies #[trigger] log@[t as int].seq@[j2] < n by {}
        proof {
            assert forall|q2: int| 0 <= q2 < k implies #[trigger] trace_votes(seq@, group@, q2) <= trace_votes(seq@, group@, best as int) by {
                assert(votes[q2] <= votes[best as int]);
            }
            assert forall|q2: int| 0 <= q2 < best implies #[trigger] trace_votes(seq@, group@, q2) < trace_votes(seq@, group@, best as int) by {
                assert(votes[q2] < votes[best as int]);
            }
            assert(majority(log@[t as int].seq@, group@, k as int, best as int));
        }
        let kept = keep_group(seq, &group, best, Ghost(n as int));
        proof {
            lemma_kept_placed(log@, t as int, group@, best as int, kept@);
        }
        let ghost p0 = parts@;
        let ghost ws = kept@;
        let w = Weighted { seq: kept, count: log[t].count };
        let ghost gw = w;
        push_part(&mut parts, best, w, Ghost(n as int), Ghost(log@), Ghost(group@));
        proof {
            lemma_total_len_push(p0, parts@, best as int, k as int);
            assert forall|p: int| 0 <= p < k implies #[trigger] log_views(parts@[p]@) == routed(log@, group@, k as int, p, t + 1) by {
                assert(log_views(p0[p]@) == routed(log@, group@, k as int, p, t as int));
                if p == best {
                    assert(log_views(parts@[p]@) =~= log_views(p0[p]@).push((gw.seq@, gw.count)));
                } else {
                    assert(parts@[p] == p0[p]);
                    if majority(log@[t as int].seq@, group@, k as int, p) {
                        lemma_majority_unique(log@[t as int].seq@, group@, k as int, p, best as int);
                    }
                }
            }
            if zero {
                lemma_reached_push(p0, parts@, best as int, gw, log@, t as int);
                assert forall|t2: int, j: int| 0 <= t2 < t + 1 && 0 <= j < log@[t2].seq.len() implies #[trigger] in_some(parts@, log@[t2].seq@[j] as int) by {
                    if t2 == t {
                        let s0 = log@[t as int].seq@;
                        assert(best == c0);
                        assert(in_group(group@, best)(s0[j]));
                        s0.filter_lemma(in_group(group@, best));
                        assert(ws.contains(s0[j]));
                        let z = choose|z: int| 0 <= z < ws.len() && ws[z] == s0[j];
                        let ti = p0[best as int]@.len() as int;
                        assert(parts@[best as int]@[ti] == gw);
                        assert(gw.seq@ == ws);
                        assert(parts@[best as int]@[ti].seq@[z] == s0[j]);
                        assert(occurs_in(parts@[best as int]@, s0[j] as int));
                    }
                }
            }
            if counted(log@) {
                assert forall|q: int| 0 <= q < parts.len() implies #[trigger] counted(parts@[q]@) by {
                    assert(counted(p0[q]@));
                    if q != best {
                        assert(parts@[q] == p0[q]);
                    } else {
                        assert forall|t2: int| 0 <= t2 < parts@[q]@.len() implies #[trigger] parts@[q]@[t2].count > 0 by {
                            if t2 < p0[q]@.len() {
                                assert(parts@[q]@[t2] == p0[q]@[t2]);
                            }
                        }
                    }
                }
            }
            assert forall|q: int, t2: int| 0 <= q < parts.len() && 0 <= t2 < parts@[q]@.len() implies exists|t3: int|
                0 <= t3 < log.len() && #[trigger] parts@[q]@[t2].seq@ == log@[t3].seq@.filter(in_group(group@, q as usize))
                    && parts@[q]@[t2].count == log@[t3].count by {
                if q != best {
                    assert(parts@[q] == p0[q]);
                    assert(p0[q]@[t2] == parts@[q]@[t2]);
                } else if t2 < p0[q]@.len() {
                    assert(parts@[q]@[t2] == p0[q]@[t2]);
                } else {
                    assert(parts@[q]@[t2].seq@ == ws);
                    assert(ws == log@[t as int].seq@.filter(in_group(group@, best)));
                }
            }
        }
        t = t + 1;
    }
    proof {
        lemma_split_disjoint(parts@, log@, group@);
        assert(drawn_somehow(parts@, log@));
        assert(routed_parts(parts@, log@, group@));
        assert(routed_somehow(parts@, log@));
        if zero {
            lemma_reached_spread(parts@, log@);
        }
    }
    assert(links_are(links@, *g, 0));
    Some(parts)
}

/// How many traces the first `k` sub-logs of `parts` hold together.
pub open spec fn total_len(parts: Seq<Vec<Weighted>>, k: int) -> int
    decreases k,
{
    if k <= 0 {
        0
    } else {
        total_len(parts, k - 1) + parts[k - 1]@.len()
    }
}

/// Every trace of sub-log `p` is a trace of `log` kept to its activities
/// placed at `p`, with that trace's count.
pub open spec fn drawn_from(parts: Seq<Vec<Weighted>>, log: Seq<Weighted>, place: Seq<usize>) -> bool {
    forall|p: int, t2: int|
        0 <= p < parts.len() && 0 <= t2 < parts[p]@.len() ==> exists|t: int|
            0 <= t < log.len() && #[trigger] parts[p]@[t2].seq@ == log[t].seq@.filter(in_group(place, p as usize))
                && parts[p]@[t2].count == log[t].count
}

/// `parts` is drawn from `log` under some placement of its activities.
pub open spec fn drawn_somehow(parts: Seq<Vec<Weighted>>, log: Seq<Weighted>) -> bool {
    exists|place: Seq<usize>| #[trigger] drawn_from(parts, log, place)
}

proof fn lemma_total_len_push(a: Seq<Vec<Weighted>>, b: Seq<Vec<Weighted>>, p: int, k: int)
    requires
        0 <= k <= a.len(),
        a.len() == b.len(),
        0 <= p < a.len(),
        b[p]@.len() == a[p]@.len() + 1,
        forall|q: int| 0 <= q < a.len() && q != p ==> #[trigger] b[q] == a[q],
    ensures
        total_len(b, k) == total_len(a, k) + if p < k { 1int } else { 0int },
    decreases k,
{
    if k > 0 {
        lemma_total_len_push(a, b, p, k - 1);
        if k - 1 != p {
            assert(b[k - 1] == a[k - 1]);
        }
    }
}

proof fn lemma_total_len_zero(a: Seq<Vec<Weighted>>, k: int)
    requires
        0 <= k <= a.len(),
        forall|q: int| 0 <= q < a.len() ==> #[trigger] a[q]@.len() == 0,
    ensures
        total_len(a, k) == 0,
    decreases k,
{
    if k > 0 {
        lemma_total_len_zero(a, k - 1);
    }
}

/// Sort `0..k` stably by `less`, inserting each element after the ones
/// it is not less than.
fn insertion_order(k: usize, before: &Vec<Vec<bool>>, rep: &Vec<usize>) -> (order: Vec<usize>)
    requires
        rep.len() == k,
        forall|g: int| 0 <= g < k ==> #[trigger] rep[g] < before.len(),
        forall|i: int| 0 <= i < before.len() ==> #[trigger] before[i].len() == before.len(),
    ensures
        order.len() == k,
        forall|i: int| 0 <= i < k ==> #[trigger] order[i] < k,
{
    let mut order: Vec<usize> = Vec::new();
    let mut g: usize = 0;
    while g < k
        invariant
            g <= k,
            order.len() == g,
            forall|i: int| 0 <= i < g ==> #[trigger] order[i] < k,
        decreases k - g,
    {
        order.push(g);
        g = g + 1;
    }
    let mut i: usize = 1;
    while i < k
        invariant
            rep.len() == k,
            forall|x: int| 0 <= x < k ==> #[trigger] rep[x] < before.len(),
            forall|x: int| 0 <= x < before.len() ==> #[trigger] before[x].len() == before.len(),
            order.len() == k,
            forall|x: int| 0 <= x < k ==> #[trigger] order[x] < k,
            1 <= i <= k || k == 0,
        decreases k - i,
    {
        let mut j: usize = i;
        while j > 0
            invariant
                rep.len() == k,
                forall|x: int| 0 <= x < k ==> #[trigger] rep[x] < before.len(),
                forall|x: int| 0 <= x < before.len() ==> #[trigger] before[x].len() == before.len(),
                order.len() == k,
                forall|x: int| 0 <= x < k ==> #[trigger] order[x] < k,
                j <= i < k,
            decreases j,
        {
            let x = order[j];
            let y = order[j - 1];
            assert(before[rep[x as int] as int].len() == before.len());
            if !before[rep[x]][rep[y]] {
                break;
            }
            order.set(j, y);
            order.set(j - 1, x);
            j = j - 1;
        }
        i = i + 1;
    }
    order
}

/// The sequence cut: groups of mutually reachable or mutually unreachable
/// activities, ordered by reachability; each trace splits into its
/// activities of each group, in group order.
fn sequence_cut(log: &Vec<Weighted>, g: &CutGraph, n: usize, noise: Ghost<Ratio>) -> (r: Option<Vec<Vec<Weighted>>>)
    requires
        graph_of(log@, n as int, noise@, *g),
        ids_below(log@, n as int),
    ensures
        r matches Some(parts) ==> parts.len() >= 2 && parts_below(parts@, n as int) && disjoint_parts(parts@, log@),
        r matches Some(parts) ==> projected_somehow(parts@, log@),
        r matches Some(parts) ==> spread_over(parts@, log@) && (counted(log@) ==> all_counted(parts@)),
        exists|e: Seq<Vec<bool>>, lm: Seq<Vec<bool>>|
            #![trigger links_are(e, *g, 0), order_links(lm, e, g.alphabet.len() as int)]
            links_are(e, *g, 0) && order_links(lm, e, g.alphabet.len() as int) && (r is Some) == (count_opens(lm, g.alphabet.len() as int, g.alphabet.len() as int) >= 2)
                && (r matches Some(parts) ==> parts.len() == count_opens(lm, g.alphabet.len() as int, g.alphabet.len() as int)),
{
    let m = g.alphabet.len();
    let edges = position_links(g, n, 0);
    let reach = closure(&edges, m);
    let mut linked: Vec<Vec<bool>> = Vec::new();
    let mut i: usize = 0;
    while i < m
        invariant
            crate::closure::square(reach@, m as int),
            forall|x: int, y: int| 0 <= x < m && 0 <= y < m ==> #[trigger] reach[x]@[y] == path_below(matrix_edge(edges@), x, y, m as int),
            i <= m,
            linked.len() == i,
            forall|x: int| 0 <= x < i ==> #[trigger] linked[x].len() == m,
            forall|x: int, y: int| 0 <= x < i && 0 <= y < m ==> #[trigger] linked[x]@[y] == (path_below(matrix_edge(edges@), x, y, m as int) == path_below(matrix_edge(edges@), y, x, m as int)),
        decreases m - i,
    {
        let mut row: Vec<bool> = Vec::new();
        let mut j: usize = 0;
        while j < m
            invariant
                crate::closure::square(reach@, m as int),
                forall|x: int, y: int| 0 <= x < m && 0 <= y < m ==> #[trigger] reach[x]@[y] == path_below(matrix_edge(edges@), x, y, m as int),
                i < m,
                j <= m,
                row.len() == j,
                forall|y: int| 0 <= y < j ==> #[trigger] row@[y] == (path_below(matrix_edge(edges@), i as int, y, m as int) == path_below(matrix_edge(edges@), y, i as int, m as int)),
            decreases m - j,
        {
            assert(reach[i as int].len() == m && reach[j as int].len() == m);
            let f = reach[i][j];
            let b = reach[j][i];
            row.push((f && b) || (!f && !b));
            j = j + 1;
        }
        linked.push(row);
        i = i + 1;
    }
    let (comp, k) = components(&linked, m);
    assert(links_are(edges@, *g, 0) && order_links(linked@, edges@, m as int));
    if k < 2 {
        return None;
    }
    let mut rep: Vec<usize> = Vec::new();
    let mut x: usize = 0;
    while x < k
        invariant
            x <= k,
            rep.len() == x,
            forall|y: int| 0 <= y < x ==> #[trigger] rep[y] < m || m == 0,
        decreases k - x,
    {
        rep.push(0);
        x = x + 1;
    }
    let mut i: usize = 0;
    while i < m
        invariant
            comp.len() == m,
            forall|y: int| 0 <= y < m ==> #[trigger] comp[y] < k,
            i <= m,
            rep.len() == k,
            forall|y: int| 0 <= y < k ==> #[trigger] rep[y] < m || m == 0,
        decreases m - i,
    {
        rep.set(comp[i], i);
        i = i + 1;
    }
    assert(m > 0) by {
        assert(comp.len() == m);
        if m == 0 {
            assert(crate::closure::count_opens(linked@, 0, 0) == 0);
        }
    }
    let order = insertion_order(k, &reach, &rep);
    let mut position: Vec<usize> = Vec::new();
    let mut x: usize = 0;
    while x < k
        invariant
            x <= k,
            position.len() == x,
            forall|y: int| 0 <= y < x ==> #[trigger] position[y] < k,
        decreases k - x,
    {
        position.push(0);
        x = x + 1;
    }
    let mut i: usize = 0;
    while i < k
        invariant
            order.len() == k,
            forall|y: int| 0 <= y < k ==> #[trigger] order[y] < k,
            i <= k,
            position.len() == k,
            forall|y: int| 0 <= y < k ==> #[trigger] position[y] < k,
        decreases k - i,
    {
        position.set(order[i], i);
        i = i + 1;
    }
    let mut per_position: Vec<usize> = Vec::new();
    let mut i: usize = 0;
    while i < m
        invariant
            comp.len() == m,
            forall|y: int| 0 <= y < m ==> #[trigger] comp[y] < k,
            position.len() == k,
            forall|y: int| 0 <= y < k ==> #[trigger] position[y] < k,
            i <= m,
            per_position.len() == i,
            forall|y: int| 0 <= y < i ==> #[trigger] per_position[y] < k,
        decreases m - i,
    {
        per_position.push(position[comp[i]]);
        i = i + 1;
    }
    let group = by_activity(g, &per_position, n);
    let parts = project(log, &group, k, Ghost(n as int));
    proof {
        lemma_grouped(log@, n as int, noise@, *g, group@, per_position@, k as int);
        lemma_projected_spread(parts@, log@, group@);
        lemma_split_disjoint(parts@, log@, group@);
        assert(projected(parts@, log@, group@));
        assert(projected_somehow(parts@, log@));
    }
    Some(parts)
}

/// Some activity (by alphabet position) of `group` is flagged.
fn any_flagged(group: &Vec<usize>, g: &CutGraph, flags: &Vec<bool>, n: usize) -> (r: bool)
    requires
        graph_of_shape(*g, n as int),
        flags.len() == n,
        forall|j: int| 0 <= j < group.len() ==> #[trigger] group[j] < g.alphabet.len(),
    ensures
        r == exists|j: int| 0 <= j < group.len() && #[trigger] flags[g.alphabet[group[j] as int] as int],
{
    let mut j: usize = 0;
    while j < group.len()
        invariant
            graph_of_shape(*g, n as int),
            flags.len() == n,
            forall|j2: int| 0 <= j2 < group.len() ==> #[trigger] group[j2] < g.alphabet.len(),
            j <= group.len(),
            forall|j2: int| 0 <= j2 < j ==> !#[trigger] flags[g.alphabet[group[j2] as int] as int],
        decreases group.len() - j,
    {
        if flags[g.alphabet[group[j]]] {
            return true;
        }
        j = j + 1;
    }
    false
}

/// Every group lists alphabet positions.
pub open spec fn groups_in(groups: Seq<Vec<usize>>, m: int) -> bool {
    forall|i: int, j: int| 0 <= i < groups.len() && 0 <= j < groups[i].len() ==> #[trigger] groups[i]@[j] < m
}

/// Some position listed in `v` holds an activity flagged in `flags`.
pub open spec fn flagged_in(v: Seq<usize>, g: CutGraph, flags: Seq<bool>) -> bool {
    exists|j: int| 0 <= j < v.len() && #[trigger] flags[g.alphabet[v[j] as int] as int]
}

/// Position `i` is connected under `m` to a position whose activity is
/// flagged in `flags`.
pub open spec fn reaches_flag(m: Seq<Vec<bool>>, g: CutGraph, flags: Seq<bool>, i: int) -> bool {
    exists|j: int| 0 <= j < g.alphabet.len() && connected(m, g.alphabet.len() as int, i, j) && #[trigger] flags[g.alphabet[j] as int]
}

/// Every component of `m` holds a start and an end activity.
pub open spec fn components_complete(m: Seq<Vec<bool>>, g: CutGraph) -> bool {
    forall|i: int| 0 <= i < g.alphabet.len() ==> #[trigger] reaches_flag(m, g, g.starts@, i) && reaches_flag(m, g, g.ends@, i)
}

/// The positions `v` hold a start and an end activity.
pub open spec fn complete(v: Seq<usize>, g: CutGraph) -> bool {
    flagged_in(v, g, g.starts@) && flagged_in(v, g, g.ends@)
}

/// Every group holds a start and an end activity.
pub open spec fn all_complete(groups: Seq<Vec<usize>>, g: CutGraph) -> bool {
    forall|c: int| 0 <= c < groups.len() ==> #[trigger] complete(groups[c]@, g)
}

/// Every component number below the count is opened by some position.
proof fn lemma_opened(m: Seq<Vec<bool>>, n: int, k: int, c: int)
    requires
        0 <= k,
        0 <= c < count_opens(m, n, k),
    ensures
        exists|x: int| 0 <= x < k && #[trigger] opens(m, n, x) && count_opens(m, n, x) == c,
    decreases k,
{
    if c < count_opens(m, n, k - 1) {
        lemma_opened(m, n, k - 1, c);
        let x = choose|x: int| 0 <= x < k - 1 && #[trigger] opens(m, n, x) && count_opens(m, n, x) == c;
        assert(0 <= x < k && opens(m, n, x) && count_opens(m, n, x) == c);
    } else {
        assert(opens(m, n, k - 1));
    }
}

/// What the parallel cut returns on the both-ways link matrix `lm`: nothing
/// below two components; with every component holding a start and an end
/// activity, one sub-log per component.
pub open spec fn parallel_outcome(lm: Seq<Vec<bool>>, g: CutGraph, r: Option<Vec<Vec<Weighted>>>) -> bool {
    let k = g.alphabet.len() as int;
    &&& count_opens(lm, k, k) < 2 ==> r is None
    &&& count_opens(lm, k, k) >= 2 && components_complete(lm, g) ==> (r matches Some(parts) && parts.len() == count_opens(lm, k, k))
}

/// The parallel cut: groups of activities that are not all pairwise
/// directly-follows both ways; groups lacking a start or an end activity
/// merge into their predecessor (smallest groups first); each trace splits
/// into its activities of each group.
fn parallel_cut(log: &Vec<Weighted>, g: &CutGraph, n: usize, noise: Ghost<Ratio>) -> (r: Option<Vec<Vec<Weighted>>>)
    requires
        graph_of(log@, n as int, noise@, *g),
        ids_below(log@, n as int),
    ensures
        r matches Some(parts) ==> parts.len() >= 2 && parts_below(parts@, n as int) && disjoint_parts(parts@, log@),
        r matches Some(parts) ==> projected_somehow(parts@, log@),
        r matches Some(parts) ==> spread_over(parts@, log@) && (counted(log@) ==> all_counted(parts@)),
        exists|lm: Seq<Vec<bool>>| #[trigger] links_are(lm, *g, 1) && parallel_outcome(lm, *g, r),
{
    let m = g.alphabet.len();
    let links = position_links(g, n, 1);
    let (comp, k) = components(&links, m);
    assert(links_are(links@, *g, 1));
    if k < 2 {
        return None;
    }
    let ghost hyp = components_complete(links@, *g);
    let mut groups: Vec<Vec<usize>> = Vec::new();
    let mut x: usize = 0;
    while x < k
        invariant
            x <= k,
            groups.len() == x,
            groups_in(groups@, m as int),
        decreases k - x,
    {
        groups.push(Vec::new());
        x = x + 1;
    }
    let mut i: usize = 0;
    while i < m
        invariant
            comp.len() == m,
            forall|y: int| 0 <= y < m ==> #[trigger] comp[y] < k,
            i <= m,
            groups.len() == k,
            groups_in(groups@, m as int),
            forall|y: int| 0 <= y < i ==> #[trigger] groups@[comp[y] as int]@.contains(y as usize),
        decreases m - i,
    {
        let c = comp[i];
        let ghost g0 = groups@;
        assert(forall|y: int| 0 <= y < i ==> #[trigger] g0[comp[y] as int]@.contains(y as usize));
        let mut row: Vec<usize> = Vec::new();
        std::mem::swap(&mut row, &mut groups[c]);
        let ghost row0 = row@;
        row.push(i);
        groups.set(c, row);
        proof {
            assert(row0 == g0[c as int]@);
            assert forall|y: int| 0 <= y < i + 1 implies #[trigger] groups@[comp[y] as int]@.contains(y as usize) by {
                if y == i {
                    assert(groups@[c as int]@[row0.len() as int] == i);
                } else if comp[y] == c {
                    assert(g0[comp[y] as int]@.contains(y as usize));
                    assert(groups@[c as int]@ == row0.push(i));
                    let z = choose|z: int| 0 <= z < g0[c as int]@.len() && g0[c as int]@[z] == y as usize;
                    assert(groups@[c as int]@[z] == y as usize);
                } else {
                    assert(groups@[comp[y] as int] == g0[comp[y] as int]);
                }
            }
            assert forall|a: int, b: int| 0 <= a < groups.len() && 0 <= b < groups[a].len() implies #[trigger] groups@[a]@[b] < m by {
                if a != c {
                    assert(groups@[a] == g0[a]);
                } else if b < g0[a].len() {
                    assert(groups@[a]@[b] == g0[a]@[b]);
                }
            }
        }
        i = i + 1;
    }
    proof {
        if hyp {
            assert forall|c: int| 0 <= c < k implies #[trigger] complete(groups@[c]@, *g) by {
                lemma_opened(links@, m as int, m as int, c);
                let x = choose|x: int| 0 <= x < m && #[trigger] opens(links@, m as int, x) && count_opens(links@, m as int, x) == c;
                assert(comp[x] == c);
                assert(components_complete(links@, *g));
                assert(0 <= x < g.alphabet.len());
                assert(reaches_flag(links@, *g, g.starts@, x));
                assert(reaches_flag(links@, *g, g.ends@, x));
                let js = choose|j: int| 0 <= j < m && connected(links@, m as int, x, j) && #[trigger] g.starts@[g.alphabet[j] as int];
                assert(comp[js] == comp[x]);
                assert(groups@[comp[js] as int]@.contains(js as usize));
                let zs = choose|z: int| 0 <= z < groups@[c]@.len() && groups@[c]@[z] == js as usize;
                assert(g.starts@[g.alphabet[groups@[c]@[zs] as int] as int]);
                let je = choose|j: int| 0 <= j < m && connected(links@, m as int, x, j) && #[trigger] g.ends@[g.alphabet[j] as int];
                assert(comp[je] == comp[x]);
                assert(groups@[comp[je] as int]@.contains(je as usize));
                let ze = choose|z: int| 0 <= z < groups@[c]@.len() && groups@[c]@[z] == je as usize;
                assert(g.ends@[g.alphabet[groups@[c]@[ze] as int] as int]);
            }
        }
    }
    // stable insertion sort by size
    let ng = groups.len();
    let mut i: usize = 1;
    while i < ng
        invariant
            groups_in(groups@, m as int),
            groups.len() == ng,
            i >= 1,
            hyp ==> all_complete(groups@, *g),
        decreases ng - i,
    {
        let mut j: usize = i;
        while j > 0
            invariant
                groups_in(groups@, m as int),
                groups.len() == ng,
                j <= i < ng,
                hyp ==> all_complete(groups@, *g),
            decreases j,
        {
            if groups[j].len() >= groups[j - 1].len() {
                break;
            }
            let ghost g0 = groups@;
            let a = groups[j].clone();
            let b = groups[j - 1].clone();
            groups.set(j, b);
            groups.set(j - 1, a);
            proof {
                assert forall|p: int, q: int| 0 <= p < groups.len() && 0 <= q < groups[p].len() implies #[trigger] groups@[p]@[q] < m by {
                    if p == j {
                        assert(groups@[p]@ == g0[j - 1]@);
                    } else if p == j - 1 {
                        assert(groups@[p]@ == g0[j as int]@);
                    } else {
                        assert(groups@[p] == g0[p]);
                    }
                }
                if hyp {
                    assert(all_complete(g0, *g));
                    assert forall|c: int| 0 <= c < groups.len() implies #[trigger] complete(groups@[c]@, *g) by {
                        if c == j {
                            assert(groups@[c]@ == g0[j - 1]@);
                            assert(complete(g0[j - 1]@, *g));
                        } else if c == j - 1 {
                            assert(groups@[c]@ == g0[j as int]@);
                            assert(complete(g0[j as int]@, *g));
                        } else {
                            assert(groups@[c] == g0[c]);
                            assert(complete(g0[c]@, *g));
                        }
                    }
                }
            }
            j = j - 1;
        }
        i = i + 1;
    }
    let mut i: usize = 0;
    while i < groups.len() && groups.len() > 1
        invariant
            graph_of_shape(*g, n as int),
            m == g.alphabet.len(),
            groups_in(groups@, m as int),
            i <= groups.len(),
            hyp ==> groups.len() == k,
            hyp ==> all_complete(groups@, *g),
        decreases 2 * groups.len() - i,
    {
        proof {
            if hyp {
                assert(complete(groups@[i as int]@, *g));
            }
        }
        let has_start = any_flagged(&groups[i], g, &g.starts, n);
        let has_end = any_flagged(&groups[i], g, &g.ends, n);
        if has_start && has_end {
            i = i + 1;
        } else {
            let ghost g0 = groups@;
            let moved = groups.remove(i);
            let target = if i == 0 { 0 } else { i - 1 };
            let ghost g1 = groups@;
            let mut row: Vec<usize> = Vec::new();
            std::mem::swap(&mut row, &mut groups[target]);
            let mut q: usize = 0;
            while q < moved.len()
                invariant
                    forall|y: int| 0 <= y < moved.len() ==> #[trigger] moved@[y] < m,
                    forall|y: int| 0 <= y < row.len() ==> #[trigger] row@[y] < m,
                    q <= moved.len(),
                decreases moved.len() - q,
            {
                row.push(moved[q]);
                q = q + 1;
            }
            groups.set(target, row);
            proof {
                assert forall|p: int, r: int| 0 <= p < groups.len() && 0 <= r < groups[p].len() implies #[trigger] groups@[p]@[r] < m by {
                    if p != target {
                        assert(groups@[p] == g1[p]);
                        if p < i {
                            assert(g1[p] == g0[p]);
                        } else {
                            assert(g1[p] == g0[p + 1]);
                        }
                    }
                }
            }
        }
    }
    let kk = groups.len();
    if kk < 2 {
        return None;
    }
    let mut per_position: Vec<usize> = Vec::new();
    let mut x: usize = 0;
    while x < m
        invariant
            kk >= 2,
            x <= m,
            per_position.len() == x,
            forall|y: int| 0 <= y < x ==> #[trigger] per_position[y] < kk,
        decreases m - x,
    {
        per_position.push(0);
        x = x + 1;
    }
    let mut gi: usize = 0;
    while gi < kk
        invariant
            kk == groups.len(),
            groups_in(groups@, m as int),
            gi <= kk,
            per_position.len() == m,
            forall|y: int| 0 <= y < m ==> #[trigger] per_position[y] < kk,
        decreases kk - gi,
    {
        let mut q: usize = 0;
        while q < groups[gi].len()
            invariant
                kk == groups.len(),
                groups_in(groups@, m as int),
                gi < kk,
                q <= groups[gi as int].len(),
                per_position.len() == m,
                forall|y: int| 0 <= y < m ==> #[trigger] per_position[y] < kk,
            decreases groups[gi as int].len() - q,
        {
            per_position.set(groups[gi][q], gi);
            q = q + 1;
        }
        gi = gi + 1;
    }
    let group = by_activity(g, &per_position, n);
    let parts = project(log, &group, kk, Ghost(n as int));
    proof {
        lemma_grouped(log@, n as int, noise@, *g, group@, per_position@, kk as int);
        lemma_projected_spread(parts@, log@, group@);
        lemma_split_disjoint(parts@, log@, group@);
        assert(projected(parts@, log@, group@));
        assert(projected_somehow(parts@, log@));
    }
    Some(parts)
}

/// Activity `a` starts or ends traces in `g`.
pub open spec fn terminal(g: CutGraph, a: int) -> bool {
    g.starts[a] || g.ends[a]
}

/// Position `i` is connected under `lm` to a start or an end activity.
pub open spec fn in_body(lm: Seq<Vec<bool>>, g: CutGraph, i: int) -> bool {
    exists|j: int| 0 <= j < g.alphabet.len() && connected(lm, g.alphabet.len() as int, i, j) && #[trigger] terminal(g, g.alphabet[j] as int)
}

/// The edge between positions `i` and `j` leaves the body only from an
/// end activity and enters it only at a start activity.
pub open spec fn boundary_ok(lm: Seq<Vec<bool>>, g: CutGraph, i: int, j: int) -> bool {
    let a = g.alphabet[i] as int;
    let b = g.alphabet[j] as int;
    g.follows[a]@[b] > 0 ==> (in_body(lm, g, i) && !in_body(lm, g, j) ==> g.ends[a]) && (!in_body(lm, g, i) && in_body(lm, g, j) ==> g.starts[b])
}

/// Some position has component number `c`.
pub open spec fn numbered(comp: Seq<usize>, c: int) -> bool {
    exists|i: int| 0 <= i < comp.len() && comp[i] == c
}

/// Component numbers below `c` missing from `body`.
pub open spec fn outside(body: Seq<usize>, c: int) -> nat
    decreases c,
{
    if c <= 0 {
        0
    } else {
        outside(body, c - 1) + if !body.contains((c - 1) as usize) { 1nat } else { 0nat }
    }
}

/// Components, among those opened by the first `x` positions, that hold
/// no start or end activity: the redo parts of the loop cut.
pub open spec fn redo_count(lm: Seq<Vec<bool>>, g: CutGraph, x: int) -> nat
    decreases x,
{
    if x <= 0 {
        0
    } else {
        redo_count(lm, g, x - 1) + if opens(lm, g.alphabet.len() as int, x - 1) && !in_body(lm, g, x - 1) { 1nat } else { 0nat }
    }
}

proof fn lemma_outside_redo(lm: Seq<Vec<bool>>, g: CutGraph, comp: Seq<usize>, body: Seq<usize>, x: int)
    requires
        0 <= x <= g.alphabet.len(),
        comp.len() == g.alphabet.len(),
        forall|a: int| 0 <= a < g.alphabet.len() && #[trigger] opens(lm, g.alphabet.len() as int, a) ==> comp[a] == count_opens(lm, g.alphabet.len() as int, a),
        forall|i: int| 0 <= i < g.alphabet.len() ==> #[trigger] body.contains(comp[i]) == in_body(lm, g, i),
    ensures
        outside(body, count_opens(lm, g.alphabet.len() as int, x) as int) == redo_count(lm, g, x),
    decreases x,
{
    if x > 0 {
        lemma_outside_redo(lm, g, comp, body, x - 1);
        let m = g.alphabet.len() as int;
        if opens(lm, m, x - 1) {
            assert(comp[x - 1] == count_opens(lm, m, x - 1));
            assert(body.contains(comp[x - 1]) == in_body(lm, g, x - 1));
        }
    }
}

/// The loop cut applies: some position lies outside the body, and every
/// edge respects the boundary.
pub open spec fn loop_ok(lm: Seq<Vec<bool>>, g: CutGraph) -> bool {
    &&& exists|i: int| 0 <= i < g.alphabet.len() && !#[trigger] in_body(lm, g, i)
    &&& forall|i: int, j: int| 0 <= i < g.alphabet.len() && 0 <= j < g.alphabet.len() ==> #[trigger] boundary_ok(lm, g, i, j)
}

proof fn lemma_push_contains(s: Seq<usize>, v: usize, x: usize)
    ensures
        s.push(v).contains(x) == (s.contains(x) || x == v),
{
    if s.push(v).contains(x) {
        let z = choose|z: int| 0 <= z < s.push(v).len() && s.push(v)[z] == x;
        if z < s.len() {
            assert(s[z] == x);
        }
    }
    if s.contains(x) {
        let z = choose|z: int| 0 <= z < s.len() && s[z] == x;
        assert(s.push(v)[z] == x);
    }
    if x == v {
        assert(s.push(v)[s.len() as int] == v);
    }
}

/// A start or an end of a trace occurs in the log.
proof fn lemma_edge_occurs(log: Seq<Weighted>, a: int, k: int, first: bool)
    requires
        0 <= k <= log.len(),
        crate::cuts::weighted_edge(log, a, k, first) > 0,
    ensures
        occurs_in(log, a),
    decreases k,
{
    if crate::cuts::weighted_edge(log, a, k - 1, first) > 0 {
        lemma_edge_occurs(log, a, k - 1, first);
    } else if first {
        assert(log[k - 1].seq@[0] == a);
        lemma_occurs_at(log, k - 1, 0);
    } else {
        assert(log[k - 1].seq@[log[k - 1].seq.len() - 1] == a);
        lemma_occurs_at(log, k - 1, log[k - 1].seq.len() - 1);
    }
}

/// Whether `v` holds `x`.
fn holds(v: &Vec<usize>, x: usize) -> (r: bool)
    ensures
        r == v@.contains(x),
{
    let mut i: usize = 0;
    while i < v.len()
        invariant
            i <= v.len(),
            forall|j: int| 0 <= j < i ==> v@[j] != x,
        decreases v.len() - i,
    {
        if v[i] == x {
            return true;
        }
        i = i + 1;
    }
    false
}

/// The loop cut: components of the graph without the edges that leave an
/// end activity or enter a start activity. The components holding a start
/// or an end form the body, every other one a redo part (in component
/// order). The body may be left only from an end and entered only at a
/// start. Each trace splits into its runs of body and of each redo part;
/// a trace ending in a redo part adds an empty body run.
pub(crate) fn loop_cut(log: &Vec<Weighted>, g: &CutGraph, n: usize, noise: Ghost<Ratio>) -> (r: Option<Vec<Vec<Weighted>>>)
    requires
        graph_of(log@, n as int, noise@, *g),
        ids_below(log@, n as int),
        n < usize::MAX,
    ensures
        r matches Some(parts) ==> parts.len() >= 2 && parts_below(parts@, n as int) && disjoint_parts(parts@, log@),
        exists|lm: Seq<Vec<bool>>|
            #![trigger links_are(lm, *g, 2)]
            links_are(lm, *g, 2) && (r is Some) == loop_ok(lm, *g) && (r matches Some(parts) ==> parts.len() == 1 + redo_count(
                lm,
                *g,
                g.alphabet.len() as int,
            )),
        r matches Some(parts) ==> spread_over(parts@, log@) && (counted(log@) ==> all_counted(parts@)),
{
    let m = g.alphabet.len();
    let links = position_links(g, n, 2);
    let (comp, k) = components(&links, m);
    let group = by_activity(g, &comp, n);
    proof {
        lemma_grouped(log@, n as int, noise@, *g, group@, comp@, k as int);
    }
    // the components of the start and end activities, starts first
    let mut body: Vec<usize> = Vec::new();
    let mut a: usize = 0;
    while a < n
        invariant
            graph_of_shape(*g, n as int),
            group.len() == n,
            a <= n,
            forall|x: usize| #[trigger] body@.contains(x) <==> exists|b: int| 0 <= b < a && g.starts[b] && group[b] == x,
        decreases n - a,
    {
        let ghost b0 = body@;
        if g.starts[a] {
            body.push(group[a]);
        }
        proof {
            assert forall|x: usize| #[trigger] body@.contains(x) <==> exists|b: int| 0 <= b < a + 1 && g.starts[b] && group[b] == x by {
                lemma_push_contains(b0, group[a as int], x);
                if exists|b: int| 0 <= b < a + 1 && g.starts[b] && group[b] == x {
                    let b = choose|b: int| 0 <= b < a + 1 && g.starts[b] && group[b] == x;
                    if b < a {
                        assert(b0.contains(x));
                    }
                }
            }
        }
        a = a + 1;
    }
    let mut a: usize = 0;
    while a < n
        invariant
            graph_of_shape(*g, n as int),
            group.len() == n,
            a <= n,
            forall|x: usize| #[trigger] body@.contains(x) <==> exists|b: int| 0 <= b < n && ((g.starts[b] && group[b] == x) || (b < a && g.ends[b] && group[b] == x)),
        decreases n - a,
    {
        let ghost b0 = body@;
        if g.ends[a] {
            body.push(group[a]);
        }
        proof {
            assert forall|x: usize| #[trigger] body@.contains(x) <==> exists|b: int| 0 <= b < n && ((g.starts[b] && group[b] == x) || (b < a + 1 && g.ends[b] && group[b] == x)) by {
                lemma_push_contains(b0, group[a as int], x);
                if exists|b: int| 0 <= b < n && ((g.starts[b] && group[b] == x) || (b < a + 1 && g.ends[b] && group[b] == x)) {
                    let b = choose|b: int| 0 <= b < n && ((g.starts[b] && group[b] == x) || (b < a + 1 && g.ends[b] && group[b] == x));
                    if !(b == a && g.ends[b]) || (g.starts[b] && group[b] == x) {
                        assert(b0.contains(x));
                    }
                }
            }
        }
        a = a + 1;
    }
    proof {
        assert(links_are(links@, *g, 2));
        assert forall|i: int| 0 <= i < m implies #[trigger] body@.contains(comp[i]) == in_body(links@, *g, i) by {
            if body@.contains(comp[i]) {
                let b = choose|b: int| 0 <= b < n && ((g.starts[b] && group[b] == comp[i]) || (g.ends[b] && group[b] == comp[i]));
                assert(terminal(*g, b));
                if g.starts[b] {
                    lemma_edge_occurs(log@, b, log.len() as int, true);
                } else {
                    lemma_edge_occurs(log@, b, log.len() as int, false);
                }
                assert(g.alphabet@.contains(b as usize));
                let j = choose|j: int| 0 <= j < m && g.alphabet@[j] == b as usize;
                assert(group[g.alphabet[j] as int] == comp[j]);
                assert(comp[j] == comp[i]);
                assert(connected(links@, m as int, i, j));
            }
            if in_body(links@, *g, i) {
                let j = choose|j: int| 0 <= j < m && connected(links@, m as int, i, j) && #[trigger] terminal(*g, g.alphabet[j] as int);
                assert(comp[i] == comp[j]);
                assert(group[g.alphabet[j] as int] == comp[j]);
                let b = g.alphabet[j] as int;
                assert(0 <= b < n && ((g.starts[b] && group[b] == comp[i]) || (g.ends[b] && group[b] == comp[i])));
            }
        }
    }
    // redo parts: the other components, in component order
    let mut redo_index: Vec<usize> = Vec::new();
    let mut x: usize = 0;
    while x < k
        invariant
            x <= k,
            redo_index.len() == x,
            forall|y: int| 0 <= y < x ==> #[trigger] redo_index[y] == 0,
        decreases k - x,
    {
        redo_index.push(0);
        x = x + 1;
    }
    proof {
        lemma_alphabet_len(*g, n as int);
        assert(k <= m) by {
            crate::closure::lemma_count_opens_bound(links@, m as int, m as int);
        }
    }
    proof {
        assert forall|c2: int| 0 <= c2 < k implies #[trigger] numbered(comp@, c2) by {
            lemma_opened(links@, m as int, m as int, c2);
            let x = choose|x: int| 0 <= x < m && #[trigger] opens(links@, m as int, x) && count_opens(links@, m as int, x) == c2;
            assert(comp[x] == c2);
        }
    }
    let mut redo: usize = 0;
    let mut c: usize = 0;
    while c < k
        invariant
            comp.len() == m,
            k <= m,
            m <= n,
            n < usize::MAX,
            c <= k,
            redo <= c,
            redo_index.len() == k,
            forall|y: int| 0 <= y < k ==> #[trigger] redo_index[y] <= redo,
            (redo > 0) == exists|i2: int| 0 <= i2 < m && #[trigger] comp[i2] < c && !body@.contains(comp[i2]),
            redo == outside(body@, c as int),
            forall|c2: int| 0 <= c2 < k ==> #[trigger] numbered(comp@, c2),
        decreases k - c,
    {
        if !holds(&body, c) {
            let mut used = false;
            let mut i: usize = 0;
            while i < m
                invariant
                    comp.len() == m,
                    i <= m,
                    used == exists|i2: int| 0 <= i2 < i && #[trigger] comp[i2] == c,
                decreases m - i,
            {
                if comp[i] == c {
                    used = true;
                }
                i = i + 1;
            }
            if used {
                redo = redo + 1;
                redo_index.set(c, redo);
            }
            assert(numbered(comp@, c as int));
            assert(used);
        }
        c = c + 1;
    }
    proof {
        lemma_outside_redo(links@, *g, comp@, body@, m as int);
    }
    if redo == 0 {
        proof {
            assert forall|i: int| 0 <= i < m implies #[trigger] in_body(links@, *g, i) by {
                assert(comp[i] < k);
                assert(body@.contains(comp[i]));
            }
        }
        return None;
    }
    proof {
        let i2 = choose|i2: int| 0 <= i2 < m && #[trigger] comp[i2] < k && !body@.contains(comp[i2]);
        assert(!in_body(links@, *g, i2));
    }
    // boundary: body to redo only from an end, redo to body only at a start
    let mut i: usize = 0;
    while i < m
        invariant
            graph_of_shape(*g, n as int),
            m == g.alphabet.len(),
            group.len() == n,
            i <= m,
            forall|p: int| 0 <= p < m ==> #[trigger] body@.contains(group[g.alphabet[p] as int]) == in_body(links@, *g, p),
            forall|i2: int, j2: int| 0 <= i2 < i && 0 <= j2 < m ==> #[trigger] boundary_ok(links@, *g, i2, j2),
            links_are(links@, *g, 2),
        decreases m - i,
    {
        let mut j: usize = 0;
        while j < m
            invariant
                graph_of_shape(*g, n as int),
                m == g.alphabet.len(),
                group.len() == n,
                i < m,
                j <= m,
                forall|p: int| 0 <= p < m ==> #[trigger] body@.contains(group[g.alphabet[p] as int]) == in_body(links@, *g, p),
                forall|i2: int, j2: int| 0 <= i2 < i && 0 <= j2 < m ==> #[trigger] boundary_ok(links@, *g, i2, j2),
                forall|j2: int| 0 <= j2 < j ==> #[trigger] boundary_ok(links@, *g, i as int, j2),
                links_are(links@, *g, 2),
            decreases m - j,
        {
            let a = g.alphabet[i];
            let b = g.alphabet[j];
            assert(g.follows[a as int].len() == n);
            if g.follows[a][b] > 0 {
                let body_a = holds(&body, group[a]);
                let body_b = holds(&body, group[b]);
                proof {
                    assert(body@.contains(group[g.alphabet[i as int] as int]) == in_body(links@, *g, i as int));
                    assert(body@.contains(group[g.alphabet[j as int] as int]) == in_body(links@, *g, j as int));
                }
                if body_a && !body_b && !g.ends[a] {
                    assert(!boundary_ok(links@, *g, i as int, j as int));
                    return None;
                }
                if !body_a && body_b && !g.starts[b] {
                    assert(!boundary_ok(links@, *g, i as int, j as int));
                    return None;
                }
            }
            assert(boundary_ok(links@, *g, i as int, j as int));
            j = j + 1;
        }
        i = i + 1;
    }
    let np = redo + 1;
    let mut parts = empty_parts(np, Ghost(n as int));
    proof {
        assert forall|p: int| 0 <= p < parts.len() implies #[trigger] counted(parts@[p]@) by {
            assert(parts@[p]@.len() == 0);
        }
    }
    let ghost lp: Seq<usize> = Seq::new(n as nat, |a: int| if body@.contains(group[a]) { 0usize } else { redo_index[group[a] as int] });
    let mut t: usize = 0;
    while t < log.len()
        invariant
            lp.len() == n,
            forall|a: int| 0 <= a < n ==> #[trigger] lp[a] == (if body@.contains(group[a]) { 0usize } else { redo_index[group[a] as int] }),
            split_by(parts@, log@, lp),
            ids_below(log@, n as int),
            grouped(log@, group@, k as int),
            group.len() == n,
            redo_index.len() == k,
            forall|y: int| 0 <= y < k ==> #[trigger] redo_index[y] <= redo,
            np == redo + 1,
            t <= log.len(),
            parts.len() == np,
            parts_below(parts@, n as int),
            reached(parts@, log@, t as int),
            counted(log@) ==> all_counted(parts@),
        decreases log.len() - t,
    {
        let seq = &log[t].seq;
        let count = log[t].count;
        let mut current: Vec<usize> = Vec::new();
        let mut current_part: usize = 0;
        let mut j: usize = 0;
        while j < seq.len()
            invariant
                ids_below(log@, n as int),
                grouped(log@, group@, k as int),
                group.len() == n,
                redo_index.len() == k,
                forall|y: int| 0 <= y < k ==> #[trigger] redo_index[y] <= redo,
                np == redo + 1,
                t < log.len(),
                seq == &log[t as int].seq,
                j <= seq.len(),
                current_part < np,
                forall|y: int| 0 <= y < current.len() ==> #[trigger] current@[y] < n,
                forall|y: int| 0 <= y < current.len() ==> #[trigger] placed(log@, lp, current@[y], current_part as int),
                parts.len() == np,
                parts_below(parts@, n as int),
                lp.len() == n,
                forall|a: int| 0 <= a < n ==> #[trigger] lp[a] == (if body@.contains(group[a]) { 0usize } else { redo_index[group[a] as int] }),
                split_by(parts@, log@, lp),
                reached(parts@, log@, t as int),
                counted(log@) ==> all_counted(parts@),
                count == log@[t as int].count,
                forall|j2: int| 0 <= j2 < j ==> #[trigger] in_some(parts@, seq@[j2] as int) || current@.contains(seq@[j2]),
            decreases seq.len() - j,
        {
            let a = seq[j];
            assert(log@[t as int].seq@[j as int] == a);
            let part = if holds(&body, group[a]) { 0 } else { redo_index[group[a]] };
            proof {
                assert(lp[a as int] == part);
                lemma_occurs_at(log@, t as int, j as int);
                assert(placed(log@, lp, a, part as int));
            }
            if part != current_part {
                let run = current;
                current = Vec::new();
                let w = Weighted { seq: run, count };
                let ghost gw = w;
                let ghost p0 = parts@;
                push_part(&mut parts, current_part, w, Ghost(n as int), Ghost(log@), Ghost(lp));
                proof {
                    lemma_reached_push(p0, parts@, current_part as int, gw, log@, t as int);
                    if counted(log@) {
                        lemma_counted_push(p0, parts@, current_part as int, gw);
                    }
                    assert forall|j2: int| 0 <= j2 < j implies #[trigger] in_some(parts@, seq@[j2] as int) || current@.contains(seq@[j2]) by {
                        if in_some(p0, seq@[j2] as int) {
                            lemma_in_some_push(p0, parts@, current_part as int, gw, seq@[j2] as int);
                        } else {
                            lemma_run_in(p0, parts@, current_part as int, gw, seq@[j2]);
                        }
                    }
                }
                current_part = part;
            }
            let ghost c0 = current@;
            current.push(a);
            proof {
                assert forall|j2: int| 0 <= j2 < j + 1 implies #[trigger] in_some(parts@, seq@[j2] as int) || current@.contains(seq@[j2]) by {
                    if j2 == j {
                        assert(current@[c0.len() as int] == a);
                    } else if !in_some(parts@, seq@[j2] as int) {
                        assert(c0.contains(seq@[j2]));
                        let z = choose|z: int| 0 <= z < c0.len() && c0[z] == seq@[j2];
                        assert(current@[z] == seq@[j2]);
                    }
                }
                assert forall|y: int| 0 <= y < current.len() implies #[trigger] placed(log@, lp, current@[y], current_part as int) by {
                    if y < c0.len() {
                        assert(current@[y] == c0[y]);
                    }
                }
            }
            j = j + 1;
        }
        let w = Weighted { seq: current, count };
        let ghost gw = w;
        let ghost p0 = parts@;
        push_part(&mut parts, current_part, w, Ghost(n as int), Ghost(log@), Ghost(lp));
        proof {
            lemma_reached_push(p0, parts@, current_part as int, gw, log@, t as int);
            if counted(log@) {
                lemma_counted_push(p0, parts@, current_part as int, gw);
            }
            assert forall|t2: int, j2: int| 0 <= t2 < t + 1 && 0 <= j2 < log@[t2].seq.len() implies #[trigger] in_some(parts@, log@[t2].seq@[j2] as int) by {
                if t2 == t {
                    if in_some(p0, seq@[j2] as int) {
                        lemma_in_some_push(p0, parts@, current_part as int, gw, seq@[j2] as int);
                    } else {
                        lemma_run_in(p0, parts@, current_part as int, gw, seq@[j2]);
                    }
                }
            }
        }
        if current_part != 0 {
            let e = Weighted { seq: Vec::new(), count };
            let ghost ge = e;
            let ghost p1 = parts@;
            push_part(&mut parts, 0, e, Ghost(n as int), Ghost(log@), Ghost(lp));
            proof {
                lemma_reached_push(p1, parts@, 0, ge, log@, t + 1);
                if counted(log@) {
                    lemma_counted_push(p1, parts@, 0, ge);
                }
            }
        }
        t = t + 1;
    }
    proof {
        lemma_split_disjoint(parts@, log@, lp);
        lemma_reached_spread(parts@, log@);
    }
    Some(parts)
}

/// An increasing list of activities below `n` has at most `n` entries.
proof fn lemma_alphabet_len(g: CutGraph, n: int)
    requires
        graph_of_shape(g, n),
    ensures
        g.alphabet.len() <= n,
{
    assert forall|i: int| 0 <= i < g.alphabet.len() implies #[trigger] g.alphabet[i] >= i by {
        lemma_increasing_from(g, n, i);
    }
    if g.alphabet.len() > 0 {
        let l = g.alphabet.len() - 1;
        assert(g.alphabet[l as int] >= l);
    }
}

proof fn lemma_increasing_from(g: CutGraph, n: int, i: int)
    requires
        graph_of_shape(g, n),
        0 <= i < g.alphabet.len(),
    ensures
        g.alphabet[i] >= i,
    decreases i,
{
    if i > 0 {
        lemma_increasing_from(g, n, i - 1);
        assert(g.alphabet[i - 1] < g.alphabet[i]);
    }
}

/// How often `a` occurs in `seq`.
fn occurrences(seq: &Vec<usize>, a: usize) -> (c: usize)
    ensures
        c == count_of(seq@, a),
{
    let mut c: usize = 0;
    let mut j: usize = 0;
    while j < seq.len()
        invariant
            j <= seq.len(),
            c <= j,
            c == count_of(seq@.take(j as int), a),
        decreases seq.len() - j,
    {
        proof {
            assert(seq@.take(j + 1).drop_last() == seq@.take(j as int));
            reveal(Seq::filter);
            seq@.take(j as int).filter_lemma(is_activity(a));
        }
        if seq[j] == a {
            c = c + 1;
        }
        j = j + 1;
    }
    assert(seq@.take(seq.len() as int) == seq@);
    c
}

/// `a` occurs exactly once in each of the first `k` traces of `log`.
pub open spec fn once_upto(log: Seq<Weighted>, a: usize, k: int) -> bool {
    forall|t: int| 0 <= t < k ==> #[trigger] count_of(log[t].seq@, a) == 1
}

/// Activities other than `a`.
pub open spec fn other_than(a: usize) -> spec_fn(usize) -> bool {
    |x: usize| x != a
}

/// Filters that agree on every element of `s` keep the same elements.
proof fn lemma_filter_agree(s: Seq<usize>, p1: spec_fn(usize) -> bool, p2: spec_fn(usize) -> bool)
    requires
        forall|j: int| 0 <= j < s.len() ==> p1(#[trigger] s[j]) == p2(s[j]),
    ensures
        s.filter(p1) == s.filter(p2),
    decreases s.len(),
{
    reveal(Seq::filter);
    if s.len() > 0 {
        let d = s.drop_last();
        assert forall|j: int| 0 <= j < d.len() implies p1(#[trigger] d[j]) == p2(d[j]) by {
            assert(d[j] == s[j]);
        }
        lemma_filter_agree(d, p1, p2);
        assert(p1(s[s.len() - 1]) == p2(s[s.len() - 1]));
    }
}

/// The fall-through before the flower: an activity occurring exactly once
/// in every trace (the first by name) runs in parallel with the rest; the
/// rest is the log without it.
pub(crate) fn once_per_trace(log: &Vec<Weighted>, g: &CutGraph, n: usize, ranks: &Vec<usize>) -> (r: Option<(usize, Vec<Weighted>)>)
    requires
        ids_below(log@, n as int),
        graph_of_shape(*g, n as int),
        forall|i: int| 0 <= i < g.alphabet.len() ==> #[trigger] occurs_in(log@, g.alphabet[i] as int),
        ranks.len() == n,
    ensures
        (r is Some) == (exists|i: int| 0 <= i < g.alphabet.len() && #[trigger] once_upto(log@, g.alphabet[i], log.len() as int)),
        r matches Some((a, rest)) ==> a < n && occurs_in(log@, a as int) && ids_below(rest@, n as int) && within(rest@, log@)
            && !occurs_in(rest@, a as int),
        r matches Some((a, rest)) ==> g.alphabet@.contains(a) && once_upto(log@, a, log.len() as int),
        r matches Some((a, rest)) ==> forall|i: int| 0 <= i < g.alphabet.len() && #[trigger] once_upto(log@, g.alphabet[i], log.len() as int) ==> ranks[a as int] <= ranks[g.alphabet[i] as int],
        r matches Some((a, rest)) ==> rest.len() == log.len(),
        r matches Some((a, rest)) ==> forall|t: int| 0 <= t < log.len() ==> #[trigger] rest@[t].seq@ == log@[t].seq@.filter(other_than(a)),
        r matches Some((a, rest)) ==> forall|t: int| 0 <= t < log.len() ==> #[trigger] rest@[t].count == log@[t].count,
{
    let mut candidates: Vec<usize> = Vec::new();
    let mut i: usize = 0;
    while i < g.alphabet.len()
        invariant
            i <= g.alphabet.len(),
            candidates@ == g.alphabet@.take(i as int),
        decreases g.alphabet.len() - i,
    {
        candidates.push(g.alphabet[i]);
        i = i + 1;
    }
    assert(g.alphabet@.take(g.alphabet.len() as int) == g.alphabet@);
    let mut t: usize = 0;
    while t < log.len()
        invariant
            graph_of_shape(*g, n as int),
            forall|i: int| 0 <= i < g.alphabet.len() ==> #[trigger] occurs_in(log@, g.alphabet[i] as int),
            t <= log.len(),
            forall|x: usize| #[trigger] candidates@.contains(x) <==> (g.alphabet@.contains(x) && once_upto(log@, x, t as int)),
            forall|i: int| 0 <= i < candidates.len() ==> #[trigger] candidates[i] < n,
            forall|i: int| 0 <= i < candidates.len() ==> #[trigger] occurs_in(log@, candidates[i] as int),
        decreases log.len() - t,
    {
        let mut kept: Vec<usize> = Vec::new();
        let mut i: usize = 0;
        while i < candidates.len()
            invariant
                t < log.len(),
                i <= candidates.len(),
                forall|x: int| 0 <= x < candidates.len() ==> #[trigger] candidates[x] < n,
                forall|x: int| 0 <= x < kept.len() ==> #[trigger] kept[x] < n,
                forall|x: int| 0 <= x < candidates.len() ==> #[trigger] occurs_in(log@, candidates[x] as int),
                forall|x: int| 0 <= x < kept.len() ==> #[trigger] occurs_in(log@, kept[x] as int),
                forall|x: usize| #[trigger] kept@.contains(x) <==> (exists|y: int| 0 <= y < i && candidates@[y] == x && count_of(log@[t as int].seq@, x) == 1),
            decreases candidates.len() - i,
        {
            let c = candidates[i];
            let ghost k0 = kept@;
            if occurrences(&log[t].seq, c) == 1 {
                kept.push(c);
            }
            proof {
                assert forall|x: usize| #[trigger] kept@.contains(x) <==> (exists|y: int| 0 <= y < i + 1 && candidates@[y] == x && count_of(log@[t as int].seq@, x) == 1) by {
                    if kept@.contains(x) {
                        let z = choose|z: int| 0 <= z < kept.len() && kept@[z] == x;
                        if z < k0.len() {
                            assert(k0[z] == x);
                            assert(k0.contains(x));
                        } else {
                            assert(candidates@[i as int] == x);
                        }
                    }
                    if exists|y: int| 0 <= y < i + 1 && candidates@[y] == x && count_of(log@[t as int].seq@, x) == 1 {
                        let y = choose|y: int| 0 <= y < i + 1 && candidates@[y] == x && count_of(log@[t as int].seq@, x) == 1;
                        if y < i {
                            assert(k0.contains(x));
                            let z = choose|z: int| 0 <= z < k0.len() && k0[z] == x;
                            assert(kept@[z] == x);
                        } else {
                            assert(kept@[kept.len() - 1] == x);
                        }
                    }
                }
            }
            i = i + 1;
        }
        proof {
            assert forall|x: usize| #[trigger] kept@.contains(x) <==> (g.alphabet@.contains(x) && once_upto(log@, x, t + 1)) by {
                if kept@.contains(x) {
                    let y = choose|y: int| 0 <= y < candidates.len() && candidates@[y] == x && count_of(log@[t as int].seq@, x) == 1;
                    assert(candidates@.contains(x));
                    assert forall|t2: int| 0 <= t2 < t + 1 implies #[trigger] count_of(log@[t2].seq@, x) == 1 by {
                        if t2 < t {
                            assert(once_upto(log@, x, t as int));
                        }
                    }
                }
                if g.alphabet@.contains(x) && once_upto(log@, x, t + 1) {
                    assert(once_upto(log@, x, t as int));
                    assert(candidates@.contains(x));
                    let y = choose|y: int| 0 <= y < candidates.len() && candidates@[y] == x;
                    assert(count_of(log@[t as int].seq@, x) == 1);
                }
            }
        }
        candidates = kept;
        if candidates.len() == 0 {
            proof {
                assert forall|i: int| 0 <= i < g.alphabet.len() implies !#[trigger] once_upto(log@, g.alphabet[i], log.len() as int) by {
                    assert(g.alphabet@.contains(g.alphabet[i]));
                    if once_upto(log@, g.alphabet[i], log.len() as int) {
                        assert(once_upto(log@, g.alphabet[i], t + 1));
                        assert(candidates@.contains(g.alphabet[i]));
                    }
                }
            }
            return None;
        }
        t = t + 1;
    }
    if candidates.len() == 0 {
        proof {
            assert forall|i: int| 0 <= i < g.alphabet.len() implies !#[trigger] once_upto(log@, g.alphabet[i], log.len() as int) by {
                assert(g.alphabet@.contains(g.alphabet[i]));
                if once_upto(log@, g.alphabet[i], log.len() as int) {
                    assert(candidates@.contains(g.alphabet[i]));
                }
            }
        }
        return None;
    }
    let mut chosen = candidates[0];
    let mut i: usize = 1;
    while i < candidates.len()
        invariant
            ranks.len() == n,
            forall|x: int| 0 <= x < candidates.len() ==> #[trigger] candidates[x] < n,
            forall|x: int| 0 <= x < candidates.len() ==> #[trigger] occurs_in(log@, candidates[x] as int),
            chosen < n,
            occurs_in(log@, chosen as int),
            candidates@.contains(chosen),
            1 <= i <= candidates.len(),
            forall|y: int| 0 <= y < i ==> ranks[chosen as int] <= ranks[#[trigger] candidates[y] as int],
        decreases candidates.len() - i,
    {
        if ranks[candidates[i]] < ranks[chosen] {
            chosen = candidates[i];
            assert(candidates@[i as int] == chosen);
        }
        i = i + 1;
    }
    proof {
        assert(g.alphabet@.contains(chosen) && once_upto(log@, chosen, log.len() as int));
        assert forall|i: int| 0 <= i < g.alphabet.len() && #[trigger] once_upto(log@, g.alphabet[i], log.len() as int) implies ranks[chosen as int] <= ranks[g.alphabet[i] as int] by {
            assert(g.alphabet@.contains(g.alphabet[i]));
            assert(candidates@.contains(g.alphabet[i]));
            let y = choose|y: int| 0 <= y < candidates.len() && candidates@[y] == g.alphabet[i];
            assert(ranks[chosen as int] <= ranks[candidates[y] as int]);
        }
        assert(exists|i: int| 0 <= i < g.alphabet.len() && #[trigger] once_upto(log@, g.alphabet[i], log.len() as int)) by {
            let i = choose|i: int| 0 <= i < g.alphabet.len() && g.alphabet@[i] == chosen;
        }
    }
    let mut group: Vec<usize> = Vec::new();
    let mut a: usize = 0;
    while a < n
        invariant
            a <= n,
            group.len() == a,
            forall|b: int| 0 <= b < a ==> #[trigger] group[b] == (if b == chosen { 1usize } else { 0usize }),
        decreases n - a,
    {
        group.push(if a == chosen { 1 } else { 0 });
        a = a + 1;
    }
    let mut rest: Vec<Weighted> = Vec::new();
    let mut t: usize = 0;
    while t < log.len()
        invariant
            ids_below(log@, n as int),
            group.len() == n,
            t <= log.len(),
            ids_below(rest@, n as int),
            forall|t2: int, j: int| 0 <= t2 < rest.len() && 0 <= j < rest@[t2].seq.len() ==> #[trigger] placed(log@, group@, rest@[t2].seq@[j], 0),
            chosen < n,
            forall|b: int| 0 <= b < n ==> #[trigger] group[b] == (if b == chosen { 1usize } else { 0usize }),
            rest.len() == t,
            forall|t2: int| 0 <= t2 < t ==> #[trigger] rest@[t2].seq@ == log@[t2].seq@.filter(other_than(chosen)) && rest@[t2].count == log@[t2].count,
        decreases log.len() - t,
    {
        assert forall|j: int| 0 <= j < log@[t as int].seq.len() implies #[trigger] log@[t as int].seq@[j] < n by {}
        let seq = keep_group(&log[t].seq, &group, 0, Ghost(n as int));
        proof {
            lemma_kept_placed(log@, t as int, group@, 0, seq@);
            let s0 = log@[t as int].seq@;
            assert forall|j: int| 0 <= j < s0.len() implies in_group(group@, 0)(#[trigger] s0[j]) == other_than(chosen)(s0[j]) by {
                assert(s0[j] < n);
                assert(group[s0[j] as int] == (if s0[j] == chosen { 1usize } else { 0usize }));
            }
            lemma_filter_agree(s0, in_group(group@, 0), other_than(chosen));
        }
        let ghost r0 = rest@;
        rest.push(Weighted { seq, count: log[t].count });
        proof {
            assert forall|t2: int, j: int| 0 <= t2 < rest.len() && 0 <= j < rest@[t2].seq.len() implies #[trigger] rest@[t2].seq@[j] < n by {
                if t2 < r0.len() {
                    assert(rest@[t2] == r0[t2]);
                }
            }
            assert forall|t2: int, j: int| 0 <= t2 < rest.len() && 0 <= j < rest@[t2].seq.len() implies #[trigger] placed(log@, group@, rest@[t2].seq@[j], 0) by {
                if t2 < r0.len() {
                    assert(rest@[t2] == r0[t2]);
                }
            }
            assert forall|t2: int| 0 <= t2 < t + 1 implies #[trigger] rest@[t2].seq@ == log@[t2].seq@.filter(other_than(chosen)) && rest@[t2].count == log@[t2].count by {
                if t2 < r0.len() {
                    assert(rest@[t2] == r0[t2]);
                }
            }
        }
        t = t + 1;
    }
    proof {
        assert forall|t2: int, j: int| 0 <= t2 < rest.len() && 0 <= j < rest@[t2].seq.len() implies #[trigger] occurs_in(log@, rest@[t2].seq@[j] as int) by {
            assert(placed(log@, group@, rest@[t2].seq@[j], 0));
        }
        if occurs_in(rest@, chosen as int) {
            let (t2, j) = choose|t2: int, j: int| 0 <= t2 < rest.len() && 0 <= j < rest@[t2].seq.len() && rest@[t2].seq@[j] == chosen as int;
            assert(placed(log@, group@, rest@[t2].seq@[j], 0));
            assert(group[chosen as int] == 1);
        }
    }
    let r = (chosen, rest);
    assert(r.1.len() == log.len());
    assert forall|t: int| 0 <= t < log.len() implies #[trigger] r.1@[t].seq@ == log@[t].seq@.filter(other_than(r.0)) && r.1@[t].count == log@[t].count by {
        assert(rest@[t].seq@ == log@[t].seq@.filter(other_than(chosen)));
    }
    assert forall|t: int| 0 <= t < log.len() implies #[trigger] r.1@[t].count == log@[t].count by {
        assert(rest@[t].seq@ == log@[t].seq@.filter(other_than(chosen)));
    }
    Some(r)
}

/// The leaf of activity `a`.
fn leaf(names: &Vec<String>, a: usize) -> (r: ProcessTree)
    requires
        a < names.len(),
    ensures
        r == (ProcessTree::Activity { label: names[a as int] }),
{
    ProcessTree::Activity { label: names[a].clone() }
}

/// `t` is the flower over `alphabet`: a loop whose body is the silent
/// step and whose redo parts are the leaves of `alphabet`, in order.
pub open spec fn is_flower(t: ProcessTree, names: Seq<String>, alphabet: Seq<usize>) -> bool {
    &&& t is Loop
    &&& t->Loop_children.len() == alphabet.len() + 1
    &&& t->Loop_children@[0] == ProcessTree::Tau
    &&& forall|x: int| 0 <= x < alphabet.len() ==> #[trigger] t->Loop_children@[x + 1] == (ProcessTree::Activity { label: names[alphabet[x] as int] })
}

/// The flower over `alphabet`: a loop of the silent step redone by any
/// single activity.
fn flower(names: &Vec<String>, alphabet: &Vec<usize>) -> (r: ProcessTree)
    requires
        forall|i: int| 0 <= i < alphabet.len() ==> #[trigger] alphabet[i] < names.len(),
    ensures
        is_flower(r, names@, alphabet@),
{
    let mut children: Vec<ProcessTree> = Vec::new();
    children.push(ProcessTree::Tau);
    let mut i: usize = 0;
    while i < alphabet.len()
        invariant
            forall|x: int| 0 <= x < alphabet.len() ==> #[trigger] alphabet[x] < names.len(),
            i <= alphabet.len(),
            children.len() == i + 1,
            children@[0] == ProcessTree::Tau,
            forall|x: int| 0 <= x < i ==> #[trigger] children@[x + 1] == (ProcessTree::Activity { label: names[alphabet[x] as int] }),
        decreases alphabet.len() - i,
    {
        children.push(leaf(names, alphabet[i]));
        i = i + 1;
    }
    ProcessTree::Loop { children }
}

/// The activity names are distinct.
pub open spec fn distinct_names(names: Seq<String>) -> bool {
    forall|i: int, j: int| 0 <= i < j < names.len() ==> names[i]@ != names[j]@
}

/// `x` names an activity that occurs in `log`.
pub open spec fn from_log(log: Seq<Weighted>, names: Seq<String>, x: Seq<char>) -> bool {
    exists|a: int| 0 <= a < names.len() && occurs_in(log, a) && #[trigger] names[a]@ == x
}

/// Every leaf of `t` names an activity that occurs in `log`.
pub open spec fn labelled_from(t: ProcessTree, log: Seq<Weighted>, names: Seq<String>) -> bool {
    forall|x: Seq<char>| #[trigger] has_label(t, x) ==> from_log(log, names, x)
}

proof fn lemma_all_partitioned_from(cs: Seq<ProcessTree>, k: int)
    requires
        0 <= k <= cs.len(),
        forall|i: int| 0 <= i < k ==> #[trigger] partitioned(cs[i]),
    ensures
        all_partitioned(cs, k),
    decreases k,
{
    if k > 0 {
        lemma_all_partitioned_from(cs, k - 1);
        assert(partitioned(cs[k - 1]));
    }
}

pub(crate) proof fn lemma_within_occurs(sub: Seq<Weighted>, log: Seq<Weighted>, a: int)
    requires
        within(sub, log),
        occurs_in(sub, a),
    ensures
        occurs_in(log, a),
{
    let (t, j) = choose|t: int, j: int| 0 <= t < sub.len() && 0 <= j < sub[t].seq.len() && sub[t].seq@[j] == a;
    assert(occurs_in(log, sub[t].seq@[j] as int));
}

/// Trees mined from disjoint sub-logs of `log` make the children of a
/// partitioned operator labelled from `log`.
proof fn lemma_from_parts(cs: Seq<ProcessTree>, parts: Seq<Vec<Weighted>>, log: Seq<Weighted>, names: Seq<String>)
    requires
        cs.len() == parts.len(),
        forall|p: int| 0 <= p < cs.len() ==> #[trigger] partitioned(cs[p]),
        forall|p: int| 0 <= p < cs.len() ==> #[trigger] labelled_from(cs[p], parts[p]@, names),
        disjoint_parts(parts, log),
        distinct_names(names),
    ensures
        disjoint_children(cs),
        all_partitioned(cs, cs.len() as int),
        forall|x: Seq<char>| #[trigger] labels_in(cs, cs.len() as int, x) ==> from_log(log, names, x),
{
    lemma_all_partitioned_from(cs, cs.len() as int);
    assert forall|i: int, j: int, x: Seq<char>|
        0 <= i < j < cs.len() && #[trigger] has_label(cs[i], x) implies !#[trigger] has_label(cs[j], x) by {
        assert(labelled_from(cs[i], parts[i]@, names));
        let a = choose|a: int| 0 <= a < names.len() && occurs_in(parts[i]@, a) && #[trigger] names[a]@ == x;
        if has_label(cs[j], x) {
            assert(labelled_from(cs[j], parts[j]@, names));
            let b = choose|b: int| 0 <= b < names.len() && occurs_in(parts[j]@, b) && #[trigger] names[b]@ == x;
            if a < b {
                assert(names[a]@ != names[b]@);
            } else if b < a {
                assert(names[b]@ != names[a]@);
            }
            assert(!occurs_in(parts[j]@, a));
        }
    }
    assert forall|x: Seq<char>| #[trigger] labels_in(cs, cs.len() as int, x) implies from_log(log, names, x) by {
        lemma_labels_in(cs, cs.len() as int, x);
        let i = choose|i: int| 0 <= i < cs.len() && #[trigger] has_label(cs[i], x);
        assert(labelled_from(cs[i], parts[i]@, names));
        let a = choose|a: int| 0 <= a < names.len() && occurs_in(parts[i]@, a) && #[trigger] names[a]@ == x;
        assert(within(parts[i]@, log));
        lemma_within_occurs(parts[i]@, log, a);
    }
}

/// The flower over distinct activities of `log` is partitioned and
/// labelled from `log`.
proof fn lemma_flower_tree(t: ProcessTree, names: Seq<String>, alphabet: Seq<usize>, log: Seq<Weighted>)
    requires
        is_flower(t, names, alphabet),
        distinct_names(names),
        forall|i: int| 0 <= i < alphabet.len() ==> #[trigger] alphabet[i] < names.len(),
        forall|i: int| 0 <= i < alphabet.len() ==> #[trigger] occurs_in(log, alphabet[i] as int),
        forall|i: int, j: int| 0 <= i < j < alphabet.len() ==> #[trigger] alphabet[i] < #[trigger] alphabet[j],
        alphabet.len() >= 1,
    ensures
        partitioned(t),
        labelled_from(t, log, names),
        wide(t),
{
    let cs = t->Loop_children@;
    assert forall|i: int| 0 <= i < cs.len() implies #[trigger] wide(cs[i]) by {
        if i > 0 {
            assert(cs[(i - 1) + 1] == ProcessTree::Activity { label: names[alphabet[i - 1] as int] });
        }
    }
    lemma_all_wide_from(cs, cs.len() as int);
    assert forall|i: int| 0 <= i < cs.len() implies #[trigger] partitioned(cs[i]) by {
        if i > 0 {
            assert(cs[(i - 1) + 1] == ProcessTree::Activity { label: names[alphabet[i - 1] as int] });
        }
    }
    lemma_all_partitioned_from(cs, cs.len() as int);
    assert forall|i: int, j: int, x: Seq<char>|
        0 <= i < j < cs.len() && #[trigger] has_label(cs[i], x) implies !#[trigger] has_label(cs[j], x) by {
        if i > 0 {
            assert(cs[(i - 1) + 1] == ProcessTree::Activity { label: names[alphabet[i - 1] as int] });
            assert(cs[(j - 1) + 1] == ProcessTree::Activity { label: names[alphabet[j - 1] as int] });
            assert(alphabet[i - 1] < alphabet[j - 1]);
        }
    }
    assert forall|x: Seq<char>| #[trigger] has_label(t, x) implies from_log(log, names, x) by {
        lemma_labels_in(cs, cs.len() as int, x);
        let i = choose|i: int| 0 <= i < cs.len() && #[trigger] has_label(cs[i], x);
        assert(i > 0);
        assert(cs[(i - 1) + 1] == ProcessTree::Activity { label: names[alphabet[i - 1] as int] });
        assert(names[alphabet[i - 1] as int]@ == x);
        assert(occurs_in(log, alphabet[i - 1] as int));
    }
}

/// An operator over two children sharing no label.
proof fn lemma_two(cs: Seq<ProcessTree>, log: Seq<Weighted>, names: Seq<String>)
    requires
        cs.len() == 2,
        partitioned(cs[0]),
        partitioned(cs[1]),
        labelled_from(cs[0], log, names),
        labelled_from(cs[1], log, names),
        forall|x: Seq<char>| #[trigger] has_label(cs[0], x) ==> !has_label(cs[1], x),
    ensures
        disjoint_children(cs),
        all_partitioned(cs, 2),
        forall|x: Seq<char>| #[trigger] labels_in(cs, 2, x) ==> from_log(log, names, x),
{
    lemma_all_partitioned_from(cs, 2);
    assert forall|x: Seq<char>| #[trigger] labels_in(cs, 2, x) implies from_log(log, names, x) by {
        lemma_labels_in(cs, 2, x);
        let i = choose|i: int| 0 <= i < 2 && #[trigger] has_label(cs[i], x);
    }
}

/// The activity `chosen`, absent from `rest`, joins in parallel the
/// children mined from `rest`.
proof fn lemma_join(cs: Seq<ProcessTree>, chosen: int, inner: Seq<ProcessTree>, rest: Seq<Weighted>, log: Seq<Weighted>, names: Seq<String>)
    requires
        0 <= chosen < names.len(),
        cs == seq![ProcessTree::Activity { label: names[chosen] }] + inner,
        occurs_in(log, chosen),
        !occurs_in(rest, chosen),
        within(rest, log),
        distinct_names(names),
        disjoint_children(inner),
        forall|i: int| 0 <= i < inner.len() ==> #[trigger] partitioned(inner[i]),
        forall|i: int, x: Seq<char>| 0 <= i < inner.len() && #[trigger] has_label(inner[i], x) ==> from_log(rest, names, x),
        forall|i: int| 0 <= i < inner.len() ==> #[trigger] wide(inner[i]),
    ensures
        disjoint_children(cs),
        all_partitioned(cs, cs.len() as int),
        all_wide(cs, cs.len() as int),
        forall|x: Seq<char>| #[trigger] labels_in(cs, cs.len() as int, x) ==> from_log(log, names, x),
{
    assert forall|i: int| 0 <= i < cs.len() implies #[trigger] partitioned(cs[i]) && wide(cs[i]) by {
        if i > 0 {
            assert(cs[i] == inner[i - 1]);
        }
    }
    lemma_all_partitioned_from(cs, cs.len() as int);
    lemma_all_wide_from(cs, cs.len() as int);
    assert forall|i: int, j: int, x: Seq<char>|
        0 <= i < j < cs.len() && #[trigger] has_label(cs[i], x) implies !#[trigger] has_label(cs[j], x) by {
        assert(cs[j] == inner[j - 1]);
        if i == 0 {
            if has_label(cs[j], x) {
                assert(has_label(inner[j - 1], x));
                let b = choose|b: int| 0 <= b < names.len() && occurs_in(rest, b) && #[trigger] names[b]@ == x;
                if b < chosen {
                    assert(names[b]@ != names[chosen]@);
                } else if chosen < b {
                    assert(names[chosen]@ != names[b]@);
                }
            }
        } else {
            assert(cs[i] == inner[i - 1]);
        }
    }
    assert forall|x: Seq<char>| #[trigger] labels_in(cs, cs.len() as int, x) implies from_log(log, names, x) by {
        lemma_labels_in(cs, cs.len() as int, x);
        let i = choose|i: int| 0 <= i < cs.len() && #[trigger] has_label(cs[i], x);
        if i > 0 {
            assert(cs[i] == inner[i - 1]);
            assert(has_label(inner[i - 1], x));
            let b = choose|b: int| 0 <= b < names.len() && occurs_in(rest, b) && #[trigger] names[b]@ == x;
            lemma_within_occurs(rest, log, b);
        } else {
            assert(names[chosen]@ == x);
        }
    }
}

proof fn lemma_labelled_within(t: ProcessTree, sub: Seq<Weighted>, log: Seq<Weighted>, names: Seq<String>)
    requires
        labelled_from(t, sub, names),
        within(sub, log),
    ensures
        labelled_from(t, log, names),
{
    assert forall|x: Seq<char>| #[trigger] has_label(t, x) implies from_log(log, names, x) by {
        let a = choose|a: int| 0 <= a < names.len() && occurs_in(sub, a) && #[trigger] names[a]@ == x;
        lemma_within_occurs(sub, log, a);
    }
}

/// The children of a partitioned parallel node mined from `rest`.
proof fn lemma_nested(t: ProcessTree, ns: Seq<ProcessTree>, rest: Seq<Weighted>, names: Seq<String>)
    requires
        t == (ProcessTree::Parallel { children: t->Parallel_children }),
        t->Parallel_children@ == ns,
        partitioned(t),
        labelled_from(t, rest, names),
        wide(t),
    ensures
        ns.len() >= 2,
        forall|i: int| 0 <= i < ns.len() ==> #[trigger] wide(ns[i]),
        disjoint_children(ns),
        forall|i: int| 0 <= i < ns.len() ==> #[trigger] partitioned(ns[i]),
        forall|i: int, x: Seq<char>| 0 <= i < ns.len() && #[trigger] has_label(ns[i], x) ==> from_log(rest, names, x),
{
    assert forall|i: int| 0 <= i < ns.len() implies #[trigger] partitioned(ns[i]) by {
        lemma_all_partitioned(ns, ns.len() as int, i);
    }
    assert forall|i: int| 0 <= i < ns.len() implies #[trigger] wide(ns[i]) by {
        lemma_all_wide(ns, ns.len() as int, i);
    }
    assert forall|i: int, x: Seq<char>| 0 <= i < ns.len() && #[trigger] has_label(ns[i], x) implies from_log(rest, names, x) by {
        lemma_labels_in(ns, ns.len() as int, x);
        assert(has_label(t, x));
    }
}

/// Every activity occurring in `log` labels a leaf of `t`.
pub open spec fn covers(t: ProcessTree, log: Seq<Weighted>, names: Seq<String>) -> bool {
    forall|a: int| 0 <= a < names.len() && #[trigger] occurs_in(log, a) ==> has_label(t, names[a]@)
}

/// A flower over every activity of `log` covers it.
proof fn lemma_flower_covers(t: ProcessTree, names: Seq<String>, alphabet: Seq<usize>, log: Seq<Weighted>)
    requires
        is_flower(t, names, alphabet),
        forall|a: int| 0 <= a < names.len() && #[trigger] occurs_in(log, a) ==> alphabet.contains(a as usize),
    ensures
        covers(t, log, names),
{
    let cs = t->Loop_children@;
    assert forall|a: int| 0 <= a < names.len() && #[trigger] occurs_in(log, a) implies has_label(t, names[a]@) by {
        let z = choose|z: int| 0 <= z < alphabet.len() && alphabet[z] == a as usize;
        assert(cs[z + 1] == ProcessTree::Activity { label: names[alphabet[z] as int] });
        assert(has_label(cs[z + 1], names[a]@));
        lemma_labels_in(cs, cs.len() as int, names[a]@);
    }
}

/// Children covering sub-logs that spread `log` cover it.
proof fn lemma_covers_parts(cs: Seq<ProcessTree>, parts: Seq<Vec<Weighted>>, log: Seq<Weighted>, names: Seq<String>)
    requires
        cs.len() == parts.len(),
        forall|p: int| 0 <= p < cs.len() ==> #[trigger] covers(cs[p], parts[p]@, names),
        spread_over(parts, log),
    ensures
        forall|a: int| 0 <= a < names.len() && #[trigger] occurs_in(log, a) ==> labels_in(cs, cs.len() as int, names[a]@),
{
    assert forall|a: int| 0 <= a < names.len() && #[trigger] occurs_in(log, a) implies labels_in(cs, cs.len() as int, names[a]@) by {
        assert(in_some(parts, a));
        let p = choose|p: int| 0 <= p < parts.len() && #[trigger] occurs_in(parts[p]@, a);
        assert(covers(cs[p], parts[p]@, names));
        assert(has_label(cs[p], names[a]@));
        lemma_labels_in(cs, cs.len() as int, names[a]@);
    }
}

/// The parallel join of `chosen` with the children mined from `rest`
/// covers `log` when `rest` holds every other activity of `log`.
proof fn lemma_join_covers(
    cs: Seq<ProcessTree>,
    chosen: int,
    inner: ProcessTree,
    ns: Seq<ProcessTree>,
    rest: Seq<Weighted>,
    log: Seq<Weighted>,
    names: Seq<String>,
)
    requires
        0 <= chosen < names.len(),
        cs == seq![ProcessTree::Activity { label: names[chosen] }] + ns,
        covers(inner, rest, names),
        forall|x: Seq<char>| #[trigger] has_label(inner, x) ==> exists|i: int| 0 <= i < ns.len() && #[trigger] has_label(ns[i], x),
        forall|a: int| #[trigger] occurs_in(log, a) && a != chosen ==> occurs_in(rest, a),
    ensures
        forall|a: int| 0 <= a < names.len() && #[trigger] occurs_in(log, a) ==> labels_in(cs, cs.len() as int, names[a]@),
{
    assert forall|a: int| 0 <= a < names.len() && #[trigger] occurs_in(log, a) implies labels_in(cs, cs.len() as int, names[a]@) by {
        if a == chosen {
            assert(has_label(cs[0], names[a]@));
        } else {
            assert(occurs_in(rest, a));
            assert(has_label(inner, names[a]@));
            let i = choose|i: int| 0 <= i < ns.len() && #[trigger] has_label(ns[i], names[a]@);
            assert(cs[i + 1] == ns[i]);
            assert(has_label(cs[i + 1], names[a]@));
        }
        lemma_labels_in(cs, cs.len() as int, names[a]@);
    }
}

proof fn lemma_links_agree(m1: Seq<Vec<bool>>, m2: Seq<Vec<bool>>, g: CutGraph, pick: u8)
    requires
        links_are(m1, g, pick),
        links_are(m2, g, pick),
    ensures
        agree(m1, m2, g.alphabet.len() as int),
{
    assert forall|i: int, j: int| 0 <= i < g.alphabet.len() && 0 <= j < g.alphabet.len() implies #[trigger] m1[i]@[j] == #[trigger] m2[i]@[j] by {
        assert(m1[i]@[j] == link(g, pick, i, j));
        assert(m2[i]@[j] == link(g, pick, i, j));
    }
}

/// The exclusive cut does not apply when one link matrix of `g` opens
/// fewer than two components.
pub(crate) proof fn lemma_no_exclusive(g: CutGraph, e0: Seq<Vec<bool>>)
    requires
        links_are(e0, g, 0),
        count_opens(e0, g.alphabet.len() as int, g.alphabet.len() as int) < 2,
    ensures
        !exists|e: Seq<Vec<bool>>| #[trigger] links_are(e, g, 0) && count_opens(e, g.alphabet.len() as int, g.alphabet.len() as int) >= 2,
{
    let k = g.alphabet.len() as int;
    assert forall|e: Seq<Vec<bool>>| #[trigger] links_are(e, g, 0) implies count_opens(e, k, k) < 2 by {
        lemma_links_agree(e, e0, g, 0);
        lemma_count_opens_agree(e, e0, k, k);
    }
}

/// The sequence cut does not apply when one of its matrices over `g`
/// opens fewer than two components.
proof fn lemma_no_sequence(g: CutGraph, e0: Seq<Vec<bool>>, lm0: Seq<Vec<bool>>)
    requires
        links_are(e0, g, 0),
        order_links(lm0, e0, g.alphabet.len() as int),
        count_opens(lm0, g.alphabet.len() as int, g.alphabet.len() as int) < 2,
    ensures
        !exists|e: Seq<Vec<bool>>, lm: Seq<Vec<bool>>|
            #[trigger] links_are(e, g, 0) && #[trigger] order_links(lm, e, g.alphabet.len() as int) && count_opens(
                lm,
                g.alphabet.len() as int,
                g.alphabet.len() as int,
            ) >= 2,
{
    let k = g.alphabet.len() as int;
    assert forall|e: Seq<Vec<bool>>, lm: Seq<Vec<bool>>| #[trigger] links_are(e, g, 0) && #[trigger] order_links(lm, e, k) implies count_opens(lm, k, k) < 2 by {
        lemma_links_agree(e, e0, g, 0);
        assert forall|a: int, b: int| 0 <= a < k && 0 <= b < k implies #[trigger] matrix_edge(e)(a, b) == matrix_edge(e0)(a, b) by {
            assert(e[a]@[b] == e0[a]@[b]);
        }
        assert forall|i: int, j: int| 0 <= i < k && 0 <= j < k implies #[trigger] lm[i]@[j] == #[trigger] lm0[i]@[j] by {
            crate::closure::lemma_path_congruent(matrix_edge(e), matrix_edge(e0), k, i, j, k);
            crate::closure::lemma_path_congruent(matrix_edge(e), matrix_edge(e0), k, j, i, k);
        }
        lemma_count_opens_agree(lm, lm0, k, k);
    }
}

/// The loop cut does not apply when it fails on one of its matrices
/// over `g`.
pub(crate) proof fn lemma_no_loop(g: CutGraph, lm0: Seq<Vec<bool>>)
    requires
        links_are(lm0, g, 2),
        !loop_ok(lm0, g),
    ensures
        !exists|lm: Seq<Vec<bool>>| #[trigger] links_are(lm, g, 2) && loop_ok(lm, g),
{
    let k = g.alphabet.len() as int;
    assert forall|lm: Seq<Vec<bool>>| #[trigger] links_are(lm, g, 2) implies !loop_ok(lm, g) by {
        lemma_links_agree(lm, lm0, g, 2);
        assert forall|i: int| 0 <= i < k implies #[trigger] in_body(lm, g, i) == in_body(lm0, g, i) by {
            if in_body(lm, g, i) {
                let j = choose|j: int| 0 <= j < k && connected(lm, k, i, j) && #[trigger] terminal(g, g.alphabet[j] as int);
                lemma_connected_agree(lm, lm0, k, i, j);
            }
            if in_body(lm0, g, i) {
                let j = choose|j: int| 0 <= j < k && connected(lm0, k, i, j) && #[trigger] terminal(g, g.alphabet[j] as int);
                lemma_connected_agree(lm, lm0, k, i, j);
            }
        }
        assert forall|i: int, j: int| 0 <= i < k && 0 <= j < k implies #[trigger] boundary_ok(lm, g, i, j) == boundary_ok(lm0, g, i, j) by {
            assert(in_body(lm, g, i) == in_body(lm0, g, i));
            assert(in_body(lm, g, j) == in_body(lm0, g, j));
        }
        if loop_ok(lm, g) {
            let i = choose|i: int| 0 <= i < k && !#[trigger] in_body(lm, g, i);
            assert(!in_body(lm0, g, i));
            assert forall|i2: int, j2: int| 0 <= i2 < k && 0 <= j2 < k implies #[trigger] boundary_ok(lm0, g, i2, j2) by {
                assert(boundary_ok(lm, g, i2, j2));
            }
        }
    }
}

/// `a` lists, in increasing order, exactly the activities below `n` that
/// occur in `log`.
pub open spec fn alphabet_of(log: Seq<Weighted>, n: int, a: Seq<usize>) -> bool {
    &&& forall|i: int| 0 <= i < a.len() ==> #[trigger] a[i] < n && occurs_in(log, a[i] as int)
    &&& forall|i: int, j: int| 0 <= i < j < a.len() ==> #[trigger] a[i] < #[trigger] a[j]
    &&& forall|x: int| 0 <= x < n && occurs_in(log, x) ==> #[trigger] a.contains(x as usize)
}

/// The traces of `log` as what they hold: activities and count.
pub open spec fn log_views(log: Seq<Weighted>) -> Seq<(Seq<usize>, usize)> {
    log.map_values(|w: Weighted| (w.seq@, w.count))
}

/// The non-empty traces among the first `k` of `log`, in order.
pub open spec fn nonempty_views(log: Seq<Weighted>, k: int) -> Seq<(Seq<usize>, usize)>
    decreases k,
{
    if k <= 0 {
        Seq::empty()
    } else if log[k - 1].seq.len() > 0 {
        nonempty_views(log, k - 1).push((log[k - 1].seq@, log[k - 1].count))
    } else {
        nonempty_views(log, k - 1)
    }
}

/// `rest` is `log` without its empty traces.
pub open spec fn without_empty(rest: Seq<Weighted>, log: Seq<Weighted>) -> bool {
    log_views(rest) == nonempty_views(log, log.len() as int)
}

/// What a cut hands its children: disjoint sub-logs of activities below
/// `n`.
pub open spec fn cut_parts(parts: Seq<Vec<Weighted>>, log: Seq<Weighted>, n: int) -> bool {
    &&& parts_below(parts, n)
    &&& disjoint_parts(parts, log)
}

/// The once-per-trace fall-through picks `a` and hands `rest` on: `a` is,
/// among the activities occurring exactly once in every trace, the one of
/// least rank, and `rest` is the log without it.
pub open spec fn once_choice(log: Seq<Weighted>, g: CutGraph, ranks: Seq<usize>, n: int, a: usize, rest: Seq<Weighted>) -> bool {
    &&& a < n
    &&& g.alphabet@.contains(a)
    &&& once_upto(log, a, log.len() as int)
    &&& forall|i: int| 0 <= i < g.alphabet.len() && #[trigger] once_upto(log, g.alphabet[i], log.len() as int) ==> ranks[a as int] <= ranks[g.alphabet[i] as int]
    &&& rest.len() == log.len()
    &&& forall|t: int| 0 <= t < log.len() ==> #[trigger] rest[t].seq@ == log[t].seq@.filter(other_than(a))
    &&& forall|t: int| 0 <= t < log.len() ==> #[trigger] rest[t].count == log[t].count
}

/// The children of the once-per-trace node: the chosen activity, then the
/// model of the rest (its children, when it is itself a parallel node).
pub open spec fn joined(names: Seq<String>, a: usize, inner: ProcessTree) -> Seq<ProcessTree> {
    seq![ProcessTree::Activity { label: names[a as int] }] + match inner {
        ProcessTree::Parallel { children } => children@,
        _ => seq![inner],
    }
}

/// The tree the inductive miner gives for `log` within recursion depth
/// `depth`, case by case in the order they are tried: no non-empty trace
/// gives the silent step; at depth zero, or when the weighted steps do not
/// fit in `usize`, the flower; empty traces make the rest optional; a
/// single activity is a leaf, or a loop of it when some trace repeats it;
/// then the exclusive, sequence, parallel and loop cuts, each on the
/// directly-follows graph of `log` (noise filtered), the first that applies;
/// then the once-per-trace fall-through; the flower last. The exclusive
/// cut routes each trace to the component holding most of its activities.
/// Each cut's sub-logs are mined one level down.
pub open spec fn mined(
    log: Seq<Weighted>,
    names: Seq<String>,
    ranks: Seq<usize>,
    n: int,
    noise: Ratio,
    depth: nat,
    t: ProcessTree,
) -> bool
    decreases depth,
{
    if log.len() == 0 || nonempty_views(log, log.len() as int).len() == 0 {
        t == ProcessTree::Tau
    } else if depth == 0 {
        exists|a: Seq<usize>| alphabet_of(log, n, a) && #[trigger] is_flower(t, names, a)
    } else if exists|i: int| 0 <= i < log.len() && #[trigger] log[i].seq.len() == 0 {
        &&& t is Exclusive
        &&& t->Exclusive_children.len() == 2
        &&& t->Exclusive_children@[0] == ProcessTree::Tau
        &&& exists|rest: Seq<Weighted>|
            #[trigger] without_empty(rest, log) && mined(rest, names, ranks, n, noise, (depth - 1) as nat, t->Exclusive_children@[1])
    } else if weight(log, log.len() as int) > usize::MAX {
        exists|a: Seq<usize>| alphabet_of(log, n, a) && #[trigger] is_flower(t, names, a)
    } else {
        exists|g: CutGraph|
            #[trigger] graph_of(log, n, noise, g) && {
                        let k = g.alphabet.len() as int;
                        let one = ProcessTree::Activity { label: names[g.alphabet[0] as int] };
                        if k == 1 {
                            if forall|i: int| 0 <= i < log.len() ==> #[trigger] log[i].seq.len() == 1 {
                                t == one
                            } else {
                                t is Loop && t->Loop_children@ == seq![one, ProcessTree::Tau]
                            }
                        } else if exists|e: Seq<Vec<bool>>| #[trigger] links_are(e, g, 0) && count_opens(e, k, k) >= 2 {
                            &&& t is Exclusive
                            &&& exists|parts: Seq<Vec<Weighted>>, e: Seq<Vec<bool>>|
                                #[trigger] cut_parts(parts, log, n) && parts.len() == count_opens(e, k, k) && #[trigger] links_are(e, g, 0) && routed_somehow(parts, log)
                                    && t->Exclusive_children.len() == parts.len() && forall|p: int|
                                        0 <= p < parts.len() ==> mined(#[trigger] parts[p]@, names, ranks, n, noise, (depth - 1) as nat, t->Exclusive_children@[p])
                        } else if exists|e: Seq<Vec<bool>>, lm: Seq<Vec<bool>>|
                            #[trigger] links_are(e, g, 0) && #[trigger] order_links(lm, e, k) && count_opens(lm, k, k) >= 2 {
                            &&& t is Sequence
                            &&& exists|parts: Seq<Vec<Weighted>>, e: Seq<Vec<bool>>, lm: Seq<Vec<bool>>|
                                #[trigger] cut_parts(parts, log, n) && parts.len() == count_opens(lm, k, k) && #[trigger] links_are(e, g, 0)
                                    && #[trigger] order_links(lm, e, k) && projected_somehow(parts, log)
                                    && t->Sequence_children.len() == parts.len() && forall|p: int|
                                        0 <= p < parts.len() ==> mined(#[trigger] parts[p]@, names, ranks, n, noise, (depth - 1) as nat, t->Sequence_children@[p])
                        } else if exists|pm: Seq<Vec<bool>>| #[trigger] links_are(pm, g, 1) && count_opens(pm, k, k) >= 2 && (t is Parallel
                            && exists|parts: Seq<Vec<Weighted>>|
                                #[trigger] cut_parts(parts, log, n) && parts.len() >= 2
                                    && (components_complete(pm, g) ==> parts.len() == count_opens(pm, k, k))
                                    && projected_somehow(parts, log)
                                    && t->Parallel_children.len() == parts.len() && forall|p: int|
                                        0 <= p < parts.len() ==> mined(#[trigger] parts[p]@, names, ranks, n, noise, (depth - 1) as nat, t->Parallel_children@[p])) {
                            true
                        } else {
                            &&& exists|pm: Seq<Vec<bool>>|
                                #[trigger] links_are(pm, g, 1) && !(count_opens(pm, k, k) >= 2 && components_complete(pm, g))
                            &&& if exists|lm: Seq<Vec<bool>>| #[trigger] links_are(lm, g, 2) && loop_ok(lm, g) {
                                &&& t is Loop
                                &&& exists|parts: Seq<Vec<Weighted>>, lm: Seq<Vec<bool>>|
                                    #[trigger] cut_parts(parts, log, n) && parts.len() == 1 + redo_count(lm, g, k) && #[trigger] links_are(lm, g, 2)
                                        && t->Loop_children.len() == parts.len() && forall|p: int|
                                        0 <= p < parts.len() ==> mined(#[trigger] parts[p]@, names, ranks, n, noise, (depth - 1) as nat, t->Loop_children@[p])
                            } else if exists|i: int| 0 <= i < k && #[trigger] once_upto(log, g.alphabet[i], log.len() as int) {
                                &&& t is Parallel
                                &&& exists|a: usize, rest: Seq<Weighted>, inner: ProcessTree|
                                    #[trigger] once_choice(log, g, ranks, n, a, rest) && mined(
                                        rest,
                                        names,
                                        ranks,
                                        n,
                                        noise,
                                        (depth - 1) as nat,
                                        inner,
                                    ) && t->Parallel_children@ == #[trigger] joined(names, a, inner)
                            } else {
                                is_flower(t, names, g.alphabet@)
                            }
                        }
            }
    }
}



/// Mine every sub-log of `parts`.
fn mine_parts(parts: &Vec<Vec<Weighted>>, names: &Vec<String>, ranks: &Vec<usize>, n: usize, noise: Ratio, depth: u128) -> (r: Vec<ProcessTree>)
    requires
        parts_below(parts@, n as int),
        names.len() == n,
        ranks.len() == n,
        n < usize::MAX,
        noise.den > 0,
        depth > 0,
        distinct_names(names@),
    ensures
        r.len() == parts.len(),
        forall|p: int| 0 <= p < r.len() ==> #[trigger] partitioned(r@[p]),
        forall|p: int| 0 <= p < r.len() ==> #[trigger] labelled_from(r@[p], parts@[p]@, names@),
        forall|p: int| 0 <= p < r.len() ==> #[trigger] wide(r@[p]),
        forall|p: int| 0 <= p < r.len() && noise.num <= 0 && counted(parts@[p]@) ==> #[trigger] covers(r@[p], parts@[p]@, names@),
        forall|p: int| 0 <= p < r.len() ==> mined(#[trigger] parts@[p]@, names@, ranks@, n as int, noise, (depth - 1) as nat, r@[p]),
    decreases depth, 0int,
{
    let mut children: Vec<ProcessTree> = Vec::new();
    let mut p: usize = 0;
    while p < parts.len()
        invariant
            parts_below(parts@, n as int),
            names.len() == n,
            ranks.len() == n,
            n < usize::MAX,
            noise.den > 0,
            depth > 0,
            distinct_names(names@),
            p <= parts.len(),
            children.len() == p,
            forall|q: int| 0 <= q < p ==> #[trigger] partitioned(children@[q]),
            forall|q: int| 0 <= q < p ==> #[trigger] labelled_from(children@[q], parts@[q]@, names@),
            forall|q: int| 0 <= q < p ==> #[trigger] wide(children@[q]),
            forall|q: int| 0 <= q < p && noise.num <= 0 && counted(parts@[q]@) ==> #[trigger] covers(children@[q], parts@[q]@, names@),
            forall|q: int| 0 <= q < p ==> mined(#[trigger] parts@[q]@, names@, ranks@, n as int, noise, (depth - 1) as nat, children@[q]),
        decreases parts.len() - p,
    {
        assert(ids_below(parts@[p as int]@, n as int));
        let tree = mine(&parts[p], names, ranks, n, noise, depth - 1);
        let ghost c0 = children@;
        children.push(tree);
        proof {
            assert forall|q: int| 0 <= q < p + 1 implies #[trigger] partitioned(children@[q]) by {
                if q < p {
                    assert(children@[q] == c0[q]);
                }
            }
            assert forall|q: int| 0 <= q < p + 1 implies #[trigger] labelled_from(children@[q], parts@[q]@, names@) by {
                if q < p {
                    assert(children@[q] == c0[q]);
                }
            }
            assert forall|q: int| 0 <= q < p + 1 implies #[trigger] wide(children@[q]) by {
                if q < p {
                    assert(children@[q] == c0[q]);
                }
            }
            assert forall|q: int| 0 <= q < p + 1 && noise.num <= 0 && counted(parts@[q]@) implies #[trigger] covers(children@[q], parts@[q]@, names@) by {
                if q < p {
                    assert(children@[q] == c0[q]);
                }
            }
            assert forall|q: int| 0 <= q < p + 1 implies mined(#[trigger] parts@[q]@, names@, ranks@, n as int, noise, (depth - 1) as nat, children@[q]) by {
                if q < p {
                    assert(children@[q] == c0[q]);
                }
            }
        }
        p = p + 1;
    }
    children
}

/// Discover a process tree for a sub-log over `n` named activities. The
/// recursion is bounded by `depth`; at zero, and for a sub-log whose
/// weighted steps would not fit in `usize`, the flower stands in.
fn mine(log: &Vec<Weighted>, names: &Vec<String>, ranks: &Vec<usize>, n: usize, noise: Ratio, depth: u128) -> (r: ProcessTree)
    requires
        ids_below(log@, n as int),
        names.len() == n,
        ranks.len() == n,
        n < usize::MAX,
        noise.den > 0,
        distinct_names(names@),
    ensures
        partitioned(r),
        labelled_from(r, log@, names@),
        wide(r),
        noise.num <= 0 && counted(log@) ==> covers(r, log@, names@),
        log.len() == 0 ==> r == ProcessTree::Tau,
        mined(log@, names@, ranks@, n as int, noise, depth as nat, r),
    decreases depth, 1int,
{
    if log.len() == 0 {
        return ProcessTree::Tau;
    }
    let mut has_empty = false;
    let mut rest: Vec<Weighted> = Vec::new();
    let mut t: usize = 0;
    while t < log.len()
        invariant
            ids_below(log@, n as int),
            t <= log.len(),
            ids_below(rest@, n as int),
            within(rest@, log@),
            forall|t2: int| 0 <= t2 < rest.len() ==> #[trigger] rest@[t2].seq.len() > 0,
            !has_empty ==> rest.len() == t,
            forall|t2: int, j: int| 0 <= t2 < t && 0 <= j < log@[t2].seq.len() ==> #[trigger] occurs_in(rest@, log@[t2].seq@[j] as int),
            counted(log@) ==> counted(rest@),
            log_views(rest@) == nonempty_views(log@, t as int),
            has_empty == exists|t2: int| 0 <= t2 < t && #[trigger] log@[t2].seq.len() == 0,
        decreases log.len() - t,
    {
        if log[t].seq.len() == 0 {
            has_empty = true;
        } else {
            let ghost r0 = rest@;
            let w = log[t].clone_weighted();
            let ghost gw = w;
            rest.push(w);
            proof {
                assert(log_views(rest@) =~= log_views(r0).push((gw.seq@, gw.count)));
                assert forall|t2: int, j: int| 0 <= t2 < t + 1 && 0 <= j < log@[t2].seq.len() implies #[trigger] occurs_in(rest@, log@[t2].seq@[j] as int) by {
                    if t2 < t {
                        assert(occurs_in(r0, log@[t2].seq@[j] as int));
                        lemma_occurs_push(r0, gw, log@[t2].seq@[j] as int);
                        assert(rest@ == r0.push(gw));
                    } else {
                        assert(rest@[r0.len() as int].seq@[j] == log@[t2].seq@[j]);
                    }
                }
                if counted(log@) {
                    assert forall|t2: int| 0 <= t2 < rest.len() implies #[trigger] rest@[t2].count > 0 by {
                        if t2 < r0.len() {
                            assert(rest@[t2] == r0[t2]);
                        }
                    }
                }
                assert forall|t2: int, j: int| 0 <= t2 < rest.len() && 0 <= j < rest@[t2].seq.len() implies #[trigger] occurs_in(log@, rest@[t2].seq@[j] as int) by {
                    if t2 < r0.len() {
                        assert(rest@[t2] == r0[t2]);
                    } else {
                        assert(rest@[t2].seq@ == log@[t as int].seq@);
                        lemma_occurs_at(log@, t as int, j);
                    }
                }
                assert forall|t2: int, j: int| 0 <= t2 < rest.len() && 0 <= j < rest@[t2].seq.len() implies #[trigger] rest@[t2].seq@[j] < n by {
                    if t2 < r0.len() {
                        assert(rest@[t2] == r0[t2]);
                    } else {
                        assert(rest@[t2].seq@ == log@[t as int].seq@);
                    }
                }
            }
        }
        t = t + 1;
    }
    proof {
        assert forall|a: int| #[trigger] occurs_in(log@, a) implies occurs_in(rest@, a) by {
            let (t2, j) = choose|t2: int, j: int| 0 <= t2 < log.len() && 0 <= j < log@[t2].seq.len() && log@[t2].seq@[j] == a;
            assert(occurs_in(rest@, log@[t2].seq@[j] as int));
        }
        assert(without_empty(rest@, log@));
        assert(log_views(rest@).len() == rest.len());
    }
    if rest.len() == 0 {
        return ProcessTree::Tau;
    }
    let flags = crate::cuts::occurring(log, n);
    let alphabet = crate::petri::flagged_ids(&flags);
    let ghost a0 = rest@[0].seq@[0] as int;
    proof {
        assert(rest@[0].seq.len() > 0);
        assert(occurs_in(log@, a0));
        assert(flags[a0]);
        assert(crate::petri::id_set(alphabet@).contains(a0));
        assert(alphabet.len() >= 1);
        assert forall|a: int| 0 <= a < names.len() && #[trigger] occurs_in(log@, a) implies alphabet@.contains(a as usize) by {
            assert(flags[a]);
            assert(crate::petri::id_set(alphabet@).contains(a));
            let k = choose|k: int| 0 <= k < alphabet.len() && #[trigger] alphabet@[k] as int == a;
            assert(alphabet@[k] == a as usize);
        }
        assert(alphabet_of(log@, n as int, alphabet@));
    }
    if depth == 0 {
        let r = flower(names, &alphabet);
        proof {
            lemma_flower_tree(r, names@, alphabet@, log@);
            lemma_flower_covers(r, names@, alphabet@, log@);
            assert(is_flower(r, names@, alphabet@));
        }
        return r;
    }
    if has_empty {
        let inner = mine(&rest, names, ranks, n, noise, depth - 1);
        proof {
            lemma_labelled_within(inner, rest@, log@, names@);
        }
        let mut children: Vec<ProcessTree> = Vec::new();
        children.push(ProcessTree::Tau);
        children.push(inner);
        proof {
            lemma_two(children@, log@, names@);
            lemma_all_wide_from(children@, 2);
            if noise.num <= 0 && counted(log@) {
                assert forall|a: int| 0 <= a < names.len() && #[trigger] occurs_in(log@, a) implies labels_in(children@, 2, names@[a]@) by {
                    assert(occurs_in(rest@, a));
                    assert(has_label(children@[1], names@[a]@));
                    lemma_labels_in(children@, 2, names@[a]@);
                }
            }
        }
        let r = ProcessTree::Exclusive { children };
        proof {
            assert forall|x: Seq<char>| #[trigger] has_label(r, x) implies from_log(log@, names@, x) by {
                assert(labels_in(r->Exclusive_children@, r->Exclusive_children.len() as int, x));
            }
            if noise.num <= 0 && counted(log@) {
                assert forall|a: int| 0 <= a < names.len() && #[trigger] occurs_in(log@, a) implies has_label(r, names@[a]@) by {
                    assert(labels_in(r->Exclusive_children@, r->Exclusive_children.len() as int, names@[a]@));
                }
            }
            assert(without_empty(rest@, log@));
            assert(r->Exclusive_children@[1] == inner);
            assert(mined(rest@, names@, ranks@, n as int, noise, (depth - 1) as nat, r->Exclusive_children@[1]));
        }
        return r;
    }
    proof {
        assert(!exists|i: int| 0 <= i < log.len() && #[trigger] log@[i].seq.len() == 0);
    }
    if !weight_fits(log) {
        let r = flower(names, &alphabet);
        proof {
            lemma_flower_tree(r, names@, alphabet@, log@);
            lemma_flower_covers(r, names@, alphabet@, log@);
            assert(is_flower(r, names@, alphabet@));
        }
        return r;
    }
    let g = cut_graph(log, n, noise);
    if g.alphabet.len() == 1 {
        let a = g.alphabet[0];
        assert(occurs_in(log@, a as int));
        let mut single = true;
        let mut t: usize = 0;
        while t < log.len()
            invariant
                t <= log.len(),
                single == forall|t2: int| 0 <= t2 < t ==> #[trigger] log@[t2].seq.len() == 1,
            decreases log.len() - t,
        {
            if log[t].seq.len() != 1 {
                single = false;
            }
            t = t + 1;
        }
        let l = leaf(names, a);
        proof {
            assert forall|x: Seq<char>| #[trigger] has_label(l, x) implies from_log(log@, names@, x) by {
                assert(names@[a as int]@ == x);
            }
            assert forall|a2: int| 0 <= a2 < names.len() && #[trigger] occurs_in(log@, a2) implies has_label(l, names@[a2]@) by {
                assert(g.alphabet@.contains(a2 as usize));
                let k = choose|k: int| 0 <= k < g.alphabet.len() && g.alphabet@[k] == a2 as usize;
                assert(k == 0);
            }
        }
        if single {
            proof {
                assert(graph_of(log@, n as int, noise, g));
                assert(mined(log@, names@, ranks@, n as int, noise, depth as nat, l));
            }
            return l;
        }
        let mut children: Vec<ProcessTree> = Vec::new();
        children.push(l);
        children.push(ProcessTree::Tau);
        proof {
            lemma_two(children@, log@, names@);
            lemma_all_wide_from(children@, 2);
            assert forall|a2: int| 0 <= a2 < names.len() && #[trigger] occurs_in(log@, a2) implies labels_in(children@, 2, names@[a2]@) by {
                assert(has_label(l, names@[a2]@));
                assert(has_label(children@[0], names@[a2]@));
                lemma_labels_in(children@, 2, names@[a2]@);
            }
        }
        let r = ProcessTree::Loop { children };
        proof {
            assert forall|x: Seq<char>| #[trigger] has_label(r, x) implies from_log(log@, names@, x) by {
                assert(labels_in(r->Loop_children@, r->Loop_children.len() as int, x));
            }
            if noise.num <= 0 && counted(log@) {
                assert forall|a: int| 0 <= a < names.len() && #[trigger] occurs_in(log@, a) implies has_label(r, names@[a]@) by {
                    assert(labels_in(r->Loop_children@, r->Loop_children.len() as int, names@[a]@));
                }
            }
            assert(graph_of(log@, n as int, noise, g));
            assert(r->Loop_children@ =~= seq![l, ProcessTree::Tau]);
            assert(mined(log@, names@, ranks@, n as int, noise, depth as nat, r));
        }
        return r;
    }
    let ghost gnoise = noise;
    let xr = exclusive_cut(log, &g, n, Ghost(gnoise));
    let ghost xg = xr;
    proof {
        assert(graph_of(log@, n as int, noise, g));
    }
    match xr {
        Some(parts) => {
            let children = mine_parts(&parts, names, ranks, n, noise, depth);
            proof {
                lemma_from_parts(children@, parts@, log@, names@);
                lemma_all_wide_from(children@, children.len() as int);
                if noise.num <= 0 && counted(log@) {
                    assert forall|p: int| 0 <= p < children.len() implies #[trigger] covers(children@[p], parts@[p]@, names@) by {
                        assert(counted(parts@[p]@));
                    }
                    lemma_covers_parts(children@, parts@, log@, names@);
                }
            }
            let r = ProcessTree::Exclusive { children };
            proof {
                assert forall|x: Seq<char>| #[trigger] has_label(r, x) implies from_log(log@, names@, x) by {
                    assert(labels_in(r->Exclusive_children@, r->Exclusive_children.len() as int, x));
                }
                if noise.num <= 0 && counted(log@) {
                    assert forall|a: int| 0 <= a < names.len() && #[trigger] occurs_in(log@, a) implies has_label(r, names@[a]@) by {
                        assert(labels_in(r->Exclusive_children@, r->Exclusive_children.len() as int, names@[a]@));
                    }
                }
            }
            proof {
                let k = g.alphabet.len() as int;
                let e0 = choose|m: Seq<Vec<bool>>| links_are(m, g, 0) && (xg is Some) == (count_opens(m, k, k) >= 2) && (xg matches Some(ps) ==> ps.len() == count_opens(m, k, k));
                assert(links_are(e0, g, 0) && count_opens(e0, k, k) >= 2);
                assert(cut_parts(parts@, log@, n as int) && parts@.len() == count_opens(e0, k, k));
                assert(r->Exclusive_children@ == children@);
                assert(((depth as nat) - 1) as nat == (depth - 1) as nat);
                assert(forall|p: int| 0 <= p < parts@.len() ==> mined(#[trigger] parts@[p]@, names@, ranks@, n as int, noise, ((depth as nat) - 1) as nat, r->Exclusive_children@[p]));
                assert(graph_of(log@, n as int, noise, g));
                assert(mined(log@, names@, ranks@, n as int, noise, depth as nat, r));
                assert(graph_of(log@, n as int, noise, g));
            }
            return r;
        },
        None => {},
    }
    proof {
        let k = g.alphabet.len() as int;
        let e0 = choose|m: Seq<Vec<bool>>| links_are(m, g, 0) && (xg is Some) == (count_opens(m, k, k) >= 2) && (xg matches Some(ps) ==> ps.len() == count_opens(m, k, k));
        lemma_no_exclusive(g, e0);
    }
    let sr = sequence_cut(log, &g, n, Ghost(gnoise));
    let ghost sg = sr;
    match sr {
        Some(parts) => {
            let children = mine_parts(&parts, names, ranks, n, noise, depth);
            proof {
                lemma_from_parts(children@, parts@, log@, names@);
                lemma_all_wide_from(children@, children.len() as int);
                if noise.num <= 0 && counted(log@) {
                    assert forall|p: int| 0 <= p < children.len() implies #[trigger] covers(children@[p], parts@[p]@, names@) by {
                        assert(counted(parts@[p]@));
                    }
                    lemma_covers_parts(children@, parts@, log@, names@);
                }
            }
            let r = ProcessTree::Sequence { children };
            proof {
                assert forall|x: Seq<char>| #[trigger] has_label(r, x) implies from_log(log@, names@, x) by {
                    assert(labels_in(r->Sequence_children@, r->Sequence_children.len() as int, x));
                }
                if noise.num <= 0 && counted(log@) {
                    assert forall|a: int| 0 <= a < names.len() && #[trigger] occurs_in(log@, a) implies has_label(r, names@[a]@) by {
                        assert(labels_in(r->Sequence_children@, r->Sequence_children.len() as int, names@[a]@));
                    }
                }
            }
            proof {
                let k = g.alphabet.len() as int;
                let (e0, lm0) = choose|e: Seq<Vec<bool>>, lm: Seq<Vec<bool>>| links_are(e, g, 0) && order_links(lm, e, k) && (sg is Some) == (count_opens(lm, k, k) >= 2) && (sg matches Some(ps) ==> ps.len() == count_opens(lm, k, k));
                assert(links_are(e0, g, 0) && order_links(lm0, e0, k) && count_opens(lm0, k, k) >= 2);
                assert(cut_parts(parts@, log@, n as int) && parts@.len() == count_opens(lm0, k, k));
                assert(r->Sequence_children@ == children@);
                assert(((depth as nat) - 1) as nat == (depth - 1) as nat);
                assert(forall|p: int| 0 <= p < parts@.len() ==> mined(#[trigger] parts@[p]@, names@, ranks@, n as int, noise, ((depth as nat) - 1) as nat, r->Sequence_children@[p]));
                assert(graph_of(log@, n as int, noise, g));
                assert(mined(log@, names@, ranks@, n as int, noise, depth as nat, r));
            }
            return r;
        },
        None => {},
    }
    proof {
        let k = g.alphabet.len() as int;
        let (e0, lm0) = choose|e: Seq<Vec<bool>>, lm: Seq<Vec<bool>>| links_are(e, g, 0) && order_links(lm, e, k) && (sg is Some) == (count_opens(lm, k, k) >= 2) && (sg matches Some(ps) ==> ps.len() == count_opens(lm, k, k));
        lemma_no_sequence(g, e0, lm0);
    }
    let pr = parallel_cut(log, &g, n, Ghost(gnoise));
    let ghost pg = pr;
    match pr {
        Some(parts) => {
            let children = mine_parts(&parts, names, ranks, n, noise, depth);
            proof {
                lemma_from_parts(children@, parts@, log@, names@);
                lemma_all_wide_from(children@, children.len() as int);
                if noise.num <= 0 && counted(log@) {
                    assert forall|p: int| 0 <= p < children.len() implies #[trigger] covers(children@[p], parts@[p]@, names@) by {
                        assert(counted(parts@[p]@));
                    }
                    lemma_covers_parts(children@, parts@, log@, names@);
                }
            }
            let r = ProcessTree::Parallel { children };
            proof {
                assert forall|x: Seq<char>| #[trigger] has_label(r, x) implies from_log(log@, names@, x) by {
                    assert(labels_in(r->Parallel_children@, r->Parallel_children.len() as int, x));
                }
                if noise.num <= 0 && counted(log@) {
                    assert forall|a: int| 0 <= a < names.len() && #[trigger] occurs_in(log@, a) implies has_label(r, names@[a]@) by {
                        assert(labels_in(r->Parallel_children@, r->Parallel_children.len() as int, names@[a]@));
                    }
                }
            }
            proof {
                let k = g.alphabet.len() as int;
                let pm = choose|lm: Seq<Vec<bool>>| links_are(lm, g, 1) && parallel_outcome(lm, g, pg);
                assert(links_are(pm, g, 1) && count_opens(pm, k, k) >= 2);
                assert(cut_parts(parts@, log@, n as int));
                assert(components_complete(pm, g) ==> parts.len() == count_opens(pm, k, k));
                assert(r->Parallel_children@ == children@);
                assert(((depth as nat) - 1) as nat == (depth - 1) as nat);
                assert(forall|p: int| 0 <= p < parts@.len() ==> mined(#[trigger] parts@[p]@, names@, ranks@, n as int, noise, ((depth as nat) - 1) as nat, r->Parallel_children@[p]));
                assert(graph_of(log@, n as int, noise, g));
                assert(mined(log@, names@, ranks@, n as int, noise, depth as nat, r));
            }
            return r;
        },
        None => {},
    }
    let ghost pm0 = choose|lm: Seq<Vec<bool>>| links_are(lm, g, 1) && parallel_outcome(lm, g, pg);
    proof {
        assert(links_are(pm0, g, 1) && !(count_opens(pm0, g.alphabet.len() as int, g.alphabet.len() as int) >= 2 && components_complete(pm0, g)));
    }
    let lr = loop_cut(log, &g, n, Ghost(gnoise));
    let ghost lg = lr;
    match lr {
        Some(parts) => {
            let children = mine_parts(&parts, names, ranks, n, noise, depth);
            proof {
                lemma_from_parts(children@, parts@, log@, names@);
                lemma_all_wide_from(children@, children.len() as int);
                if noise.num <= 0 && counted(log@) {
                    assert forall|p: int| 0 <= p < children.len() implies #[trigger] covers(children@[p], parts@[p]@, names@) by {
                        assert(counted(parts@[p]@));
                    }
                    lemma_covers_parts(children@, parts@, log@, names@);
                }
            }
            let r = ProcessTree::Loop { children };
            proof {
                assert forall|x: Seq<char>| #[trigger] has_label(r, x) implies from_log(log@, names@, x) by {
                    assert(labels_in(r->Loop_children@, r->Loop_children.len() as int, x));
                }
                if noise.num <= 0 && counted(log@) {
                    assert forall|a: int| 0 <= a < names.len() && #[trigger] occurs_in(log@, a) implies has_label(r, names@[a]@) by {
                        assert(labels_in(r->Loop_children@, r->Loop_children.len() as int, names@[a]@));
                    }
                }
            }
            proof {
                let k = g.alphabet.len() as int;
                let lm0 = choose|lm: Seq<Vec<bool>>| links_are(lm, g, 2) && (lg is Some) == loop_ok(lm, g) && (lg matches Some(ps) ==> ps.len() == 1 + redo_count(lm, g, k));
                assert(links_are(lm0, g, 2) && loop_ok(lm0, g));
                assert(cut_parts(parts@, log@, n as int) && parts@.len() == 1 + redo_count(lm0, g, k));
                assert(r->Loop_children@ == children@);
                assert(((depth as nat) - 1) as nat == (depth - 1) as nat);
                assert(forall|p: int| 0 <= p < parts@.len() ==> mined(#[trigger] parts@[p]@, names@, ranks@, n as int, noise, ((depth as nat) - 1) as nat, r->Loop_children@[p]));
                assert(graph_of(log@, n as int, noise, g));
                assert(mined(log@, names@, ranks@, n as int, noise, depth as nat, r));
                assert(links_are(pm0, g, 1) && !(count_opens(pm0, k, k) >= 2 && components_complete(pm0, g)));
            }
            return r;
        },
        None => {},
    }
    proof {
        let k = g.alphabet.len() as int;
        let lm0 = choose|lm: Seq<Vec<bool>>| links_are(lm, g, 2) && (lg is Some) == loop_ok(lm, g) && (lg matches Some(ps) ==> ps.len() == 1 + redo_count(lm, g, k));
        lemma_no_loop(g, lm0);
    }
    let orr = once_per_trace(log, &g, n, ranks);
    let ghost og = orr;
    match orr {
        Some((chosen, rest)) => {
            let mut children: Vec<ProcessTree> = Vec::new();
            children.push(leaf(names, chosen));
            let ghost c0 = children@;
            let inner = mine(&rest, names, ranks, n, noise, depth - 1);
            let ghost gi = inner;
            proof {
                if counted(log@) {
                    assert forall|t: int| 0 <= t < rest.len() implies #[trigger] rest@[t].count > 0 by {
                        assert(rest@[t].count == log@[t].count);
                    }
                }
                assert forall|a: int| #[trigger] occurs_in(log@, a) && a != chosen implies occurs_in(rest@, a) by {
                    let (t, j) = choose|t: int, j: int| 0 <= t < log.len() && 0 <= j < log@[t].seq.len() && log@[t].seq@[j] == a;
                    let s0 = log@[t].seq@;
                    assert(other_than(chosen)(s0[j]));
                    s0.filter_lemma(other_than(chosen));
                    assert(rest@[t].seq@ == s0.filter(other_than(chosen)));
                    assert(rest@[t].seq@.contains(s0[j]));
                    let z = choose|z: int| 0 <= z < rest@[t].seq@.len() && rest@[t].seq@[z] == s0[j];
                    assert(rest@[t].seq@[z] == a);
                }
            }
            match inner {
                ProcessTree::Parallel { children: nested } => {
                    let mut nested = nested;
                    let ghost ns = nested@;
                    proof {
                        lemma_nested(gi, ns, rest@, names@);
                    }
                    children.append(&mut nested);
                    proof {
                        assert(children@ == c0 + ns);
                        assert(ns == gi->Parallel_children@);
                        lemma_join(children@, chosen as int, ns, rest@, log@, names@);
                        if noise.num <= 0 && counted(log@) {
                            assert forall|x: Seq<char>| #[trigger] has_label(gi, x) implies exists|i: int| 0 <= i < ns.len() && #[trigger] has_label(ns[i], x) by {
                                lemma_labels_in(ns, ns.len() as int, x);
                            }
                            lemma_join_covers(children@, chosen as int, gi, ns, rest@, log@, names@);
                        }
                    }
                },
                other => {
                    children.push(other);
                    proof {
                        let single = seq![other];
                        assert(children@ == c0 + single);
                        assert(other == gi);
                        assert(!(gi is Parallel));
                        assert forall|i: int, x: Seq<char>| 0 <= i < single.len() && #[trigger] has_label(single[i], x) implies from_log(rest@, names@, x) by {
                            assert(single[i] == other);
                        }
                        lemma_join(children@, chosen as int, single, rest@, log@, names@);
                        if noise.num <= 0 && counted(log@) {
                            assert forall|x: Seq<char>| #[trigger] has_label(gi, x) implies exists|i: int| 0 <= i < single.len() && #[trigger] has_label(single[i], x) by {
                                assert(single[0] == gi);
                            }
                            lemma_join_covers(children@, chosen as int, gi, single, rest@, log@, names@);
                        }
                    }
                },
            }
            let r = ProcessTree::Parallel { children };
            proof {
                assert forall|x: Seq<char>| #[trigger] has_label(r, x) implies from_log(log@, names@, x) by {
                    assert(labels_in(r->Parallel_children@, r->Parallel_children.len() as int, x));
                }
                if noise.num <= 0 && counted(log@) {
                    assert forall|a: int| 0 <= a < names.len() && #[trigger] occurs_in(log@, a) implies has_label(r, names@[a]@) by {
                        assert(labels_in(r->Parallel_children@, r->Parallel_children.len() as int, names@[a]@));
                    }
                }
            }
            proof {
                assert(once_choice(log@, g, ranks@, n as int, chosen, rest@));
                assert(mined(rest@, names@, ranks@, n as int, noise, (depth - 1) as nat, gi));
                assert(r->Parallel_children@ == joined(names@, chosen, gi));
                assert(mined(log@, names@, ranks@, n as int, noise, depth as nat, r));
                assert(links_are(pm0, g, 1) && !(count_opens(pm0, g.alphabet.len() as int, g.alphabet.len() as int) >= 2 && components_complete(pm0, g)));
            }
            return r;
        },
        None => {},
    }
    let r = flower(names, &g.alphabet);
    proof {
        assert(links_are(pm0, g, 1) && !(count_opens(pm0, g.alphabet.len() as int, g.alphabet.len() as int) >= 2 && components_complete(pm0, g)));
        assert(is_flower(r, names@, g.alphabet@));
        assert(mined(log@, names@, ranks@, n as int, noise, depth as nat, r));
        assert(g.alphabet@.contains(a0 as usize));
        lemma_flower_tree(r, names@, g.alphabet@, log@);
        assert forall|a: int| 0 <= a < names.len() && #[trigger] occurs_in(log@, a) implies g.alphabet@.contains(a as usize) by {
        }
        lemma_flower_covers(r, names@, g.alphabet@, log@);
    }
    r
}

/// The traces the miners start from: per object of `t` with events, in
/// order, its activity ids, counted once.
pub open spec fn trace_views(t: crate::trace::Traces, k: int) -> Seq<(Seq<usize>, usize)>
    decreases k,
{
    if k <= 0 {
        Seq::empty()
    } else if t.steps[k - 1].len() > 0 {
        trace_views(t, k - 1).push((crate::variants::step_ids(t.steps[k - 1]@), 1usize))
    } else {
        trace_views(t, k - 1)
    }
}

/// Discover a process tree for `object_type` with the inductive miner.
///
/// A zero noise threshold is the exact basic miner; a positive one ignores
/// directly-follows edges, starts and ends below that fraction of the
/// strongest, so the mainstream structure survives noisy logs. Objects
/// without events are ignored.
pub fn inductive(log: &EventLog, object_type: &str, noise: Ratio) -> (tree: ProcessTree)
    requires
        log.wf(),
        log.events.len() < usize::MAX,
        noise.den > 0,
    ensures
        partitioned(tree),
        forall|x: Seq<char>| #[trigger] has_label(tree, x) ==> carried_by_target(*log, object_type@, x),
        (forall|e: int| 0 <= e < log.events.len() ==> !#[trigger] log.is_target(e, object_type@)) ==> tree == ProcessTree::Tau,
        wide(tree),
        noise.num <= 0 ==> forall|e: int| 0 <= e < log.events.len() && #[trigger] log.is_target(e, object_type@) ==> has_label(tree, crate::trace::act(*log, e)),
        exists|t: crate::trace::Traces, v: Seq<Weighted>, ranks: Seq<usize>|
            #[trigger] t.describes(*log, object_type@) && #[trigger] log_views(v) == trace_views(t, t.steps.len() as int) && #[trigger] crate::text::ranks_of(
                t.activity_names@,
                ranks,
            ) && mined(v, t.activity_names@, ranks, t.activity_names.len() as int, noise, (2 * t.activity_names.len() + 2) as nat, tree),
{
    let t = build(log, object_type);
    let n = t.activity_names.len();
    proof {
        lemma_names_within_events(*log, object_type@, t.activity_names@);
    }
    let ranks = name_ranks(&t.activity_names);
    let ghost quiet = forall|e: int| 0 <= e < log.events.len() ==> !#[trigger] log.is_target(e, object_type@);
    let mut variants: Vec<Weighted> = Vec::new();
    let mut s: usize = 0;
    while s < t.steps.len()
        invariant
            t.describes(*log, object_type@),
            n == t.activity_names.len(),
            s <= t.steps.len(),
            ids_below(variants@, n as int),
            quiet == (forall|e: int| 0 <= e < log.events.len() ==> !#[trigger] log.is_target(e, object_type@)),
            quiet ==> variants.len() == 0,
            counted(variants@),
            log_views(variants@) == trace_views(t, s as int),
            forall|s2: int, k2: int| 0 <= s2 < s && 0 <= k2 < t.steps[s2].len() ==> #[trigger] occurs_in(variants@, t.steps[s2][k2].activity as int),
        decreases t.steps.len() - s,
    {
        if t.steps[s].len() > 0 {
            proof {
                if quiet {
                    assert(t.step_ok(*log, s as int, 0));
                    let e = t.steps[s as int][0].event as int;
                    let o = t.object_ids[s as int] as int;
                    assert(log.related(e, o));
                    let k = choose|k: int| 0 <= k < log.events[e].objects.len() && #[trigger] log.events[e].objects[k] == o;
                    crate::log::lemma_members_bound(*log, object_type@, log.objects.len() as int);
                    assert(log.is_member(o, object_type@));
                    assert(log.is_target(e, object_type@));
                }
            }
            let mut seq: Vec<usize> = Vec::new();
            let mut k: usize = 0;
            while k < t.steps[s].len()
                invariant
                    t.describes(*log, object_type@),
                    n == t.activity_names.len(),
                    s < t.steps.len(),
                    k <= t.steps[s as int].len(),
                    forall|j: int| 0 <= j < seq.len() ==> #[trigger] seq[j] < n,
                    seq.len() == k,
                    forall|j: int| 0 <= j < k ==> #[trigger] seq@[j] == t.steps[s as int][j].activity,
                    log_views(variants@) == trace_views(t, s as int),
                decreases t.steps[s as int].len() - k,
            {
                assert(t.step_ok(*log, s as int, k as int));
                seq.push(t.steps[s][k].activity);
                k = k + 1;
            }
            let ghost v0 = variants@;
            proof {
                assert(seq@ =~= crate::variants::step_ids(t.steps[s as int]@));
            }
            let w = Weighted { seq, count: 1 };
            let ghost gw = w;
            variants.push(w);
            proof {
                assert(log_views(variants@) =~= log_views(v0).push((gw.seq@, gw.count)));
                assert forall|s2: int, k2: int| 0 <= s2 < s + 1 && 0 <= k2 < t.steps[s2].len() implies #[trigger] occurs_in(variants@, t.steps[s2][k2].activity as int) by {
                    if s2 < s {
                        lemma_occurs_push(v0, gw, t.steps[s2][k2].activity as int);
                        assert(variants@ == v0.push(gw));
                    } else {
                        assert(variants@[v0.len() as int].seq@[k2] == t.steps[s2][k2].activity);
                    }
                }
                assert forall|t2: int| 0 <= t2 < variants.len() implies #[trigger] variants@[t2].count > 0 by {
                    if t2 < v0.len() {
                        assert(variants@[t2] == v0[t2]);
                    }
                }
                assert forall|t2: int, j: int| 0 <= t2 < variants.len() && 0 <= j < variants@[t2].seq.len() implies #[trigger] variants@[t2].seq@[j] < n by {
                    if t2 < v0.len() {
                        assert(variants@[t2] == v0[t2]);
                    }
                }
            }
        }
        s = s + 1;
    }
    proof {
        assert forall|s2: int, k2: int| 0 <= s2 < s && 0 <= k2 < t.steps[s2].len() implies #[trigger] occurs_in(variants@, t.steps[s2][k2].activity as int) by {
        }
    }
    let depth: u128 = 2 * (n as u128) + 2;
    let tree = mine(&variants, &t.activity_names, &ranks, n, noise, depth);
    proof {
        assert(crate::text::ranks_of(t.activity_names@, ranks@));
        assert(t.describes(*log, object_type@));
        assert(log_views(variants@) == trace_views(t, t.steps.len() as int));
        assert forall|x: Seq<char>| #[trigger] has_label(tree, x) implies carried_by_target(*log, object_type@, x) by {
            let a = choose|a: int| 0 <= a < n && occurs_in(variants@, a) && #[trigger] t.activity_names@[a]@ == x;
            assert(carried_by_target(*log, object_type@, t.activity_names@[a]@));
        }
        if noise.num <= 0 {
            assert forall|e: int| 0 <= e < log.events.len() && #[trigger] log.is_target(e, object_type@) implies has_label(tree, crate::trace::act(*log, e)) by {
                let kk = choose|kk: int| 0 <= kk < log.events[e].objects.len() && log.is_member(#[trigger] log.events[e].objects[kk] as int, object_type@);
                let o = log.events[e].objects[kk] as int;
                assert(o < log.objects.len());
                crate::log::lemma_members_complete(*log, object_type@, log.objects.len() as int, o);
                let s2 = choose|s2: int| 0 <= s2 < t.object_ids.len() && t.object_ids@[s2] == o as usize;
                assert(log.related(e, t.object_ids[s2] as int));
                let k2 = choose|k2: int| 0 <= k2 < t.steps[s2].len() && t.steps[s2][k2].event == e;
                assert(t.step_ok(*log, s2, k2));
                let a = t.steps[s2][k2].activity as int;
                assert(occurs_in(variants@, a));
                assert(t.activity_names@[a]@ == crate::trace::act(*log, e));
            }
        }
    }
    tree
}

impl Weighted {
    /// A copy.
    pub fn clone_weighted(&self) -> (r: Weighted)
        ensures
            r.seq@ == self.seq@,
            r.count == self.count,
    {
        Weighted { seq: self.seq.clone(), count: self.count }
    }
}

} // verus!
