//! Escaping-edges precision: how much behavior a model allows beyond the log.
//!
//! Every trace is walked prefix by prefix (the empty prefix included, the
//! full trace excluded) until its first prefix the model cannot replay; a
//! trace that stops early is truncated. At each prefix `p` walked, the
//! model allows some activities of the log's alphabet and some moves outside
//! it; an allowed activity escapes unless some walked trace continues `p`
//! with it, and every move outside the alphabet escapes. The report sums,
//! over all prefixes walked, the allowed and the escaping counts.
use vstd::prelude::*;
use crate::log::EventLog;
use crate::text::name_seq;
use crate::trace::Traces;
use crate::variants::{activity_ids, first_with, groups_inv, lemma_rank_free_eq, lemma_slot_acts, member_acts, step_ids};
use crate::replay::{busy, count_where, group_of, spells, distinct, prefix_of, lemma_spelling_unique, lemma_slot_len, copy_names, represents};
use crate::model::{Compiled, Nodes, complete};
use crate::text::texts;
use crate::trace::build;
use crate::variants::collect_variants;
use crate::inductive::{ProcessTree, partitioned};
use crate::powl::{Powl, powl_partitioned};
use crate::powl_replay::{compile_model, represents_powl};

verus! {

/// Escaping-edges precision of a model over one object type's traces
/// (the precision itself is `1 - escaping / allowed`, or 1 when nothing is
/// allowed).
pub struct PrecisionReport {
    pub object_type: String,
    /// Allowed moves, summed over the prefixes walked.
    pub allowed: usize,
    /// Escaping moves, summed over the prefixes walked.
    pub escaping: usize,
    /// Traces that stopped at a prefix the model cannot replay.
    pub truncated_traces: usize,
}

/// The first `i' >= i` whose prefix of `x` is not valid, or `x.len()`.
pub open spec fn live_from(valid: spec_fn(Seq<Seq<char>>) -> bool, x: Seq<Seq<char>>, i: int) -> int
    decreases x.len() - i,
{
    if i < 0 || i >= x.len() {
        x.len() as int
    } else if !valid(x.take(i)) {
        i
    } else {
        live_from(valid, x, i + 1)
    }
}

/// How many prefixes of `x` are walked: those before its first invalid one.
pub open spec fn live_len(valid: spec_fn(Seq<Seq<char>>) -> bool, x: Seq<Seq<char>>) -> int {
    live_from(valid, x, 0)
}

/// Trace `x` walks prefix `p` and continues it with `a`.
pub open spec fn observes(valid: spec_fn(Seq<Seq<char>>) -> bool, x: Seq<Seq<char>>, p: Seq<Seq<char>>, a: Seq<char>) -> bool {
    &&& p.len() < live_len(valid, x)
    &&& x.take(p.len() as int) == p
    &&& x[p.len() as int] == a
}

/// Some trace of type `ty` walks prefix `p` and continues it with `a`.
pub open spec fn observed(log: EventLog, ty: Seq<char>, valid: spec_fn(Seq<Seq<char>>) -> bool, p: Seq<Seq<char>>, a: Seq<char>) -> bool {
    exists|s: int| 0 <= s < log.members(ty).len() && #[trigger] observes(valid, member_acts(log, ty, s), p, a)
}

/// How many of the first `k` names satisfy `pred`.
pub open spec fn count_names(names: Seq<String>, pred: spec_fn(Seq<char>) -> bool, k: int) -> nat
    decreases k,
{
    if k <= 0 {
        0
    } else {
        count_names(names, pred, k - 1) + if pred(names[k - 1]@) {
            1nat
        } else {
            0nat
        }
    }
}

/// Moves allowed after `p`: activities of the alphabet, and moves outside it.
pub open spec fn allowed_count(
    names: Seq<String>,
    allowed: spec_fn(Seq<Seq<char>>, Seq<char>) -> bool,
    unlogged: spec_fn(Seq<Seq<char>>) -> nat,
    p: Seq<Seq<char>>,
) -> nat {
    count_names(names, |a: Seq<char>| allowed(p, a), names.len() as int) + unlogged(p)
}

/// Moves allowed after `p` that no walked trace takes there.
pub open spec fn escaping_count(
    log: EventLog,
    ty: Seq<char>,
    names: Seq<String>,
    valid: spec_fn(Seq<Seq<char>>) -> bool,
    allowed: spec_fn(Seq<Seq<char>>, Seq<char>) -> bool,
    unlogged: spec_fn(Seq<Seq<char>>) -> nat,
    p: Seq<Seq<char>>,
) -> nat {
    count_names(names, |a: Seq<char>| allowed(p, a) && !observed(log, ty, valid, p, a), names.len() as int) + unlogged(p)
}

/// `f` summed over the first `j` prefixes of `x`.
pub open spec fn word_sum(f: spec_fn(Seq<Seq<char>>) -> nat, x: Seq<Seq<char>>, j: int) -> nat
    decreases j,
{
    if j <= 0 {
        0
    } else {
        word_sum(f, x, j - 1) + f(x.take(j - 1))
    }
}

/// `f` summed over the traces of the first `k` objects of type `ty`.
pub open spec fn slot_sum(log: EventLog, ty: Seq<char>, f: spec_fn(Seq<Seq<char>>) -> nat, k: int) -> nat
    decreases k,
{
    if k <= 0 {
        0
    } else {
        slot_sum(log, ty, f, k - 1) + f(member_acts(log, ty, k - 1))
    }
}

/// The allowed moves over the prefixes a trace walks.
pub open spec fn trace_allowed(
    names: Seq<String>,
    valid: spec_fn(Seq<Seq<char>>) -> bool,
    allowed: spec_fn(Seq<Seq<char>>, Seq<char>) -> bool,
    unlogged: spec_fn(Seq<Seq<char>>) -> nat,
) -> spec_fn(Seq<Seq<char>>) -> nat {
    |x: Seq<Seq<char>>| word_sum(|p: Seq<Seq<char>>| allowed_count(names, allowed, unlogged, p), x, live_len(valid, x))
}

/// The escaping moves over the prefixes a trace walks.
pub open spec fn trace_escaping(
    log: EventLog,
    ty: Seq<char>,
    names: Seq<String>,
    valid: spec_fn(Seq<Seq<char>>) -> bool,
    allowed: spec_fn(Seq<Seq<char>>, Seq<char>) -> bool,
    unlogged: spec_fn(Seq<Seq<char>>) -> nat,
) -> spec_fn(Seq<Seq<char>>) -> nat {
    |x: Seq<Seq<char>>| word_sum(|p: Seq<Seq<char>>| escaping_count(log, ty, names, valid, allowed, unlogged, p), x, live_len(valid, x))
}

/// The report measures the traces of type `ty`, whose activities are
/// `names`, against a model: `valid` says which prefixes it replays,
/// `allowed` which activities it allows after a prefix, `unlogged` how many
/// moves outside the alphabet.
pub open spec fn precision_ok(
    log: EventLog,
    ty: Seq<char>,
    names: Seq<String>,
    valid: spec_fn(Seq<Seq<char>>) -> bool,
    allowed: spec_fn(Seq<Seq<char>>, Seq<char>) -> bool,
    unlogged: spec_fn(Seq<Seq<char>>) -> nat,
    r: PrecisionReport,
) -> bool {
    let n = log.members(ty).len() as int;
    &&& r.object_type@ == ty
    &&& r.truncated_traces == count_where(
        |s: int| busy(log, ty, s) && live_len(valid, member_acts(log, ty, s)) < member_acts(log, ty, s).len(),
        n,
    )
    &&& r.allowed == slot_sum(log, ty, trace_allowed(names, valid, allowed, unlogged), n)
    &&& r.escaping == slot_sum(log, ty, trace_escaping(log, ty, names, valid, allowed, unlogged), n)
}

pub proof fn lemma_live_bounds(valid: spec_fn(Seq<Seq<char>>) -> bool, x: Seq<Seq<char>>, i: int)
    requires
        0 <= i <= x.len(),
    ensures
        i <= live_from(valid, x, i) <= x.len(),
    decreases x.len() - i,
{
    if i < x.len() && valid(x.take(i)) {
        lemma_live_bounds(valid, x, i + 1);
    }
}

pub proof fn lemma_word_sum_monotone(f: spec_fn(Seq<Seq<char>>) -> nat, x: Seq<Seq<char>>, i: int, j: int)
    requires
        i <= j,
    ensures
        word_sum(f, x, i) <= word_sum(f, x, j),
    decreases j - i,
{
    if i < j {
        lemma_word_sum_monotone(f, x, i, j - 1);
    }
}

pub proof fn lemma_slot_sum_term(log: EventLog, ty: Seq<char>, f: spec_fn(Seq<Seq<char>>) -> nat, s: int, k: int)
    requires
        0 <= s < k,
    ensures
        f(member_acts(log, ty, s)) <= slot_sum(log, ty, f, k),
        slot_sum(log, ty, f, s) <= slot_sum(log, ty, f, k),
    decreases k - s,
{
    if s < k - 1 {
        lemma_slot_sum_term(log, ty, f, s, k - 1);
    }
}

pub proof fn lemma_count_names_bound(names: Seq<String>, pred: spec_fn(Seq<char>) -> bool, k: int)
    requires
        0 <= k,
    ensures
        count_names(names, pred, k) <= k,
    decreases k,
{
    if k > 0 {
        lemma_count_names_bound(names, pred, k - 1);
    }
}

pub proof fn lemma_count_names_sub(names: Seq<String>, p1: spec_fn(Seq<char>) -> bool, p2: spec_fn(Seq<char>) -> bool, k: int)
    requires
        forall|a: Seq<char>| #[trigger] p2(a) ==> p1(a),
    ensures
        count_names(names, p2, k) <= count_names(names, p1, k),
    decreases k,
{
    if k > 0 {
        lemma_count_names_sub(names, p1, p2, k - 1);
    }
}

pub proof fn lemma_word_sum_le(f1: spec_fn(Seq<Seq<char>>) -> nat, f2: spec_fn(Seq<Seq<char>>) -> nat, x: Seq<Seq<char>>, j: int)
    requires
        forall|p: Seq<Seq<char>>| #[trigger] f2(p) <= f1(p),
    ensures
        word_sum(f2, x, j) <= word_sum(f1, x, j),
    decreases j,
{
    if j > 0 {
        lemma_word_sum_le(f1, f2, x, j - 1);
    }
}

pub proof fn lemma_slot_sum_le(log: EventLog, ty: Seq<char>, f1: spec_fn(Seq<Seq<char>>) -> nat, f2: spec_fn(Seq<Seq<char>>) -> nat, k: int)
    requires
        forall|x: Seq<Seq<char>>| #[trigger] f2(x) <= f1(x),
    ensures
        slot_sum(log, ty, f2, k) <= slot_sum(log, ty, f1, k),
    decreases k,
{
    if k > 0 {
        lemma_slot_sum_le(log, ty, f1, f2, k - 1);
    }
}

/// Escaping moves never outnumber allowed ones.
pub proof fn lemma_escaping_le(
    log: EventLog,
    ty: Seq<char>,
    names: Seq<String>,
    valid: spec_fn(Seq<Seq<char>>) -> bool,
    allowed: spec_fn(Seq<Seq<char>>, Seq<char>) -> bool,
    unlogged: spec_fn(Seq<Seq<char>>) -> nat,
)
    ensures
        forall|x: Seq<Seq<char>>| #[trigger] trace_escaping(log, ty, names, valid, allowed, unlogged)(x) <= trace_allowed(names, valid, allowed, unlogged)(x),
        forall|k: int| #[trigger] slot_sum(log, ty, trace_escaping(log, ty, names, valid, allowed, unlogged), k) <= slot_sum(log, ty, trace_allowed(names, valid, allowed, unlogged), k),
{
    let fa = |p: Seq<Seq<char>>| allowed_count(names, allowed, unlogged, p);
    let fe = |p: Seq<Seq<char>>| escaping_count(log, ty, names, valid, allowed, unlogged, p);
    assert forall|p: Seq<Seq<char>>| #[trigger] fe(p) <= fa(p) by {
        lemma_count_names_sub(names, |a: Seq<char>| allowed(p, a), |a: Seq<char>| allowed(p, a) && !observed(log, ty, valid, p, a), names.len() as int);
    }
    assert forall|x: Seq<Seq<char>>| #[trigger] trace_escaping(log, ty, names, valid, allowed, unlogged)(x) <= trace_allowed(names, valid, allowed, unlogged)(x) by {
        lemma_word_sum_le(fa, fe, x, live_len(valid, x));
    }
    assert forall|k: int| #[trigger] slot_sum(log, ty, trace_escaping(log, ty, names, valid, allowed, unlogged), k) <= slot_sum(log, ty, trace_allowed(names, valid, allowed, unlogged), k) by {
        lemma_slot_sum_le(log, ty, trace_allowed(names, valid, allowed, unlogged), trace_escaping(log, ty, names, valid, allowed, unlogged), k);
    }
}

/// Precision stays within `[0, 1]`: every report of the escaping-edges
/// measure counts at most as many escaping moves as allowed ones.
pub proof fn law_escaping_within_allowed(
    log: EventLog,
    ty: Seq<char>,
    names: Seq<String>,
    valid: spec_fn(Seq<Seq<char>>) -> bool,
    allowed: spec_fn(Seq<Seq<char>>, Seq<char>) -> bool,
    unlogged: spec_fn(Seq<Seq<char>>) -> nat,
    r: PrecisionReport,
)
    requires
        precision_ok(log, ty, names, valid, allowed, unlogged, r),
    ensures
        r.escaping <= r.allowed,
{
    lemma_escaping_le(log, ty, names, valid, allowed, unlogged);
    let n = log.members(ty).len() as int;
    assert(slot_sum(log, ty, trace_escaping(log, ty, names, valid, allowed, unlogged), n) <= slot_sum(log, ty, trace_allowed(names, valid, allowed, unlogged), n));
}

/// Per group: how many prefixes it walks, the states it visits before the
/// model stops replaying it.
pub fn visit_states(seqs: &Vec<Vec<usize>>, vt: &Vec<Vec<bool>>, names: Ghost<Seq<String>>, valid: Ghost<spec_fn(Seq<Seq<char>>) -> bool>) -> (ls: Vec<usize>)
    requires
        vt.len() == seqs.len(),
        forall|g: int| 0 <= g < seqs.len() ==> #[trigger] vt[g].len() == seqs[g].len(),
        forall|g: int, i: int| 0 <= g < seqs.len() && 0 <= i < seqs[g].len() ==> #[trigger] vt[g]@[i] == valid@(name_seq(names@, seqs[g]@).take(i)),
    ensures
        ls.len() == seqs.len(),
        forall|g: int| 0 <= g < seqs.len() ==> #[trigger] ls[g] == live_len(valid@, name_seq(names@, seqs[g]@)),
{
    let mut ls: Vec<usize> = Vec::new();
    let mut g: usize = 0;
    while g < seqs.len()
        invariant
            vt.len() == seqs.len(),
            forall|h: int| 0 <= h < seqs.len() ==> #[trigger] vt[h].len() == seqs[h].len(),
            forall|h: int, i: int| 0 <= h < seqs.len() && 0 <= i < seqs[h].len() ==> #[trigger] vt[h]@[i] == valid@(name_seq(names@, seqs[h]@).take(i)),
            g <= seqs.len(),
            ls.len() == g,
            forall|h: int| 0 <= h < g ==> #[trigger] ls[h] == live_len(valid@, name_seq(names@, seqs[h]@)),
        decreases seqs.len() - g,
    {
        let ghost x = name_seq(names@, seqs[g as int]@);
        let row = &vt[g];
        let len = seqs[g].len();
        let mut i: usize = 0;
        while i < len && row[i]
            invariant
                len == seqs[g as int].len(),
                row.len() == len,
                x.len() == len,
                forall|i2: int| 0 <= i2 < len ==> #[trigger] row@[i2] == valid@(x.take(i2)),
                i <= len,
                live_len(valid@, x) == live_from(valid@, x, i as int),
            decreases len - i,
        {
            i = i + 1;
        }
        ls.push(i);
        g = g + 1;
    }
    ls
}

/// Some group walks the first `i` ids of `w` and continues with `k`.
pub open spec fn seen_after(seqs: Seq<Vec<usize>>, ls: Seq<usize>, w: Seq<usize>, i: int, k: int) -> bool {
    exists|h: int| 0 <= h < seqs.len() && i < ls[h] && #[trigger] seqs[h]@.take(i) == w.take(i) && seqs[h]@[i] == k
}

/// Does `a` start with the first `i` ids of `b`?
fn same_prefix(a: &Vec<usize>, b: &Vec<usize>, i: usize) -> (r: bool)
    requires
        i <= a.len(),
        i <= b.len(),
    ensures
        r == (a@.take(i as int) == b@.take(i as int)),
{
    let mut j: usize = 0;
    while j < i
        invariant
            i <= a.len(),
            i <= b.len(),
            j <= i,
            a@.take(j as int) == b@.take(j as int),
        decreases i - j,
    {
        if a[j] != b[j] {
            assert(a@.take(i as int)[j as int] != b@.take(i as int)[j as int]);
            return false;
        }
        assert(a@.take(j + 1) =~= a@.take(j as int).push(a@[j as int]));
        assert(b@.take(j + 1) =~= b@.take(j as int).push(b@[j as int]));
        j = j + 1;
    }
    true
}

/// Per activity id: does some group walk the first `i` ids of group `g`
/// and continue with it?
fn observed_at(seqs: &Vec<Vec<usize>>, ls: &Vec<usize>, g: usize, i: usize, n_names: usize) -> (obs: Vec<bool>)
    requires
        g < seqs.len(),
        i < seqs[g as int].len(),
        ls.len() == seqs.len(),
        forall|h: int| 0 <= h < seqs.len() ==> #[trigger] ls[h] <= seqs[h].len(),
        forall|h: int, k: int| 0 <= h < seqs.len() && 0 <= k < seqs[h].len() ==> #[trigger] seqs[h]@[k] < n_names,
    ensures
        obs.len() == n_names,
        forall|k: int| 0 <= k < n_names ==> #[trigger] obs[k] == seen_after(seqs@, ls@, seqs[g as int]@, i as int, k),
{
    let mut obs: Vec<bool> = Vec::new();
    let mut k: usize = 0;
    while k < n_names
        invariant
            k <= n_names,
            obs.len() == k,
            forall|k2: int| 0 <= k2 < k ==> !#[trigger] obs[k2],
        decreases n_names - k,
    {
        obs.push(false);
        k = k + 1;
    }
    let ghost w = seqs[g as int]@;
    let mut h: usize = 0;
    while h < seqs.len()
        invariant
            g < seqs.len(),
            w == seqs[g as int]@,
            i < w.len(),
            ls.len() == seqs.len(),
            forall|h2: int| 0 <= h2 < seqs.len() ==> #[trigger] ls[h2] <= seqs[h2].len(),
            forall|h2: int, k2: int| 0 <= h2 < seqs.len() && 0 <= k2 < seqs[h2].len() ==> #[trigger] seqs[h2]@[k2] < n_names,
            h <= seqs.len(),
            obs.len() == n_names,
            forall|k2: int| 0 <= k2 < n_names ==> #[trigger] obs[k2] == exists|h2: int|
                0 <= h2 < h && i < ls[h2] && #[trigger] seqs[h2]@.take(i as int) == w.take(i as int) && seqs[h2]@[i as int] == k2,
        decreases seqs.len() - h,
    {
        if i < ls[h] && same_prefix(&seqs[h], &seqs[g], i) {
            let k = seqs[h][i];
            obs.set(k, true);
        }
        h = h + 1;
    }
    proof {
        assert forall|k2: int| 0 <= k2 < n_names implies #[trigger] obs[k2] == seen_after(seqs@, ls@, w, i as int, k2) by {
            if obs[k2] {
                let h2 = choose|h2: int| 0 <= h2 < seqs.len() && i < ls[h2] && #[trigger] seqs[h2]@.take(i as int) == w.take(i as int) && seqs[h2]@[i as int] == k2;
            }
        }
    }
    obs
}


/// A group that walks a prefix of group `g` and continues it with `k`
/// stands for a trace that does.
proof fn lemma_observed_from_group(
    log: EventLog,
    ty: Seq<char>,
    names: Seq<String>,
    seqs: Seq<Vec<usize>>,
    counts: Seq<usize>,
    firsts: Seq<usize>,
    valid: spec_fn(Seq<Seq<char>>) -> bool,
    ls: Seq<usize>,
    g: int,
    i: int,
    k: int,
)
    requires
        groups_inv(log, ty, names, seqs, counts, firsts, log.members(ty).len() as int),
        ls.len() == seqs.len(),
        forall|h: int| 0 <= h < seqs.len() ==> #[trigger] ls[h] == live_len(valid, name_seq(names, seqs[h]@)),
        0 <= g < seqs.len(),
        0 <= i < seqs[g].len(),
        0 <= k < names.len(),
        seen_after(seqs, ls, seqs[g]@, i, k),
    ensures
        observed(log, ty, valid, name_seq(names, seqs[g]@).take(i), names[k]@),
{
    let w = seqs[g]@;
    let p = name_seq(names, w).take(i);
    assert(p =~= name_seq(names, w.take(i)));
    let h = choose|h: int| 0 <= h < seqs.len() && i < ls[h] && #[trigger] seqs[h]@.take(i) == w.take(i) && seqs[h]@[i] == k;
    let x = name_seq(names, seqs[h]@);
    lemma_live_bounds(valid, x, 0);
    let s = firsts[h] as int;
    assert(first_with(log, ty, x, s));
    assert(x.take(i) =~= name_seq(names, seqs[h]@.take(i)));
    assert(observes(valid, member_acts(log, ty, s), p, names[k]@));
}

/// A trace that walks a prefix of group `g` and continues it with `k` is
/// found among the groups.
proof fn lemma_observed_to_group(
    log: EventLog,
    ty: Seq<char>,
    names: Seq<String>,
    seqs: Seq<Vec<usize>>,
    counts: Seq<usize>,
    firsts: Seq<usize>,
    valid: spec_fn(Seq<Seq<char>>) -> bool,
    ls: Seq<usize>,
    g: int,
    i: int,
    k: int,
)
    requires
        groups_inv(log, ty, names, seqs, counts, firsts, log.members(ty).len() as int),
        forall|a: int, b: int| 0 <= a < b < names.len() ==> names[a]@ != names[b]@,
        ls.len() == seqs.len(),
        forall|h: int| 0 <= h < seqs.len() ==> #[trigger] ls[h] == live_len(valid, name_seq(names, seqs[h]@)),
        0 <= g < seqs.len(),
        0 <= i < seqs[g].len(),
        0 <= k < names.len(),
        observed(log, ty, valid, name_seq(names, seqs[g]@).take(i), names[k]@),
    ensures
        seen_after(seqs, ls, seqs[g]@, i, k),
{
    let w = seqs[g]@;
    let p = name_seq(names, w).take(i);
    assert(p =~= name_seq(names, w.take(i)));
    let s = choose|s: int| 0 <= s < log.members(ty).len() && #[trigger] observes(valid, member_acts(log, ty, s), p, names[k]@);
    let xs = member_acts(log, ty, s);
    lemma_live_bounds(valid, xs, 0);
    let h = choose|h: int| 0 <= h < seqs.len() && name_seq(names, #[trigger] seqs[h]@) == xs;
    let v = seqs[h]@;
    assert(forall|q: int| 0 <= q < v.len() ==> #[trigger] v[q] < names.len());
    assert(forall|q: int| 0 <= q < w.len() ==> #[trigger] w[q] < names.len());
    assert(xs.take(i) =~= name_seq(names, v.take(i)));
    lemma_rank_free_eq(names, v.take(i), w.take(i));
    assert(names[v[i] as int]@ == names[k]@);
    if v[i] < k {
        assert(names[v[i] as int]@ != names[k]@);
    } else if k < v[i] {
        assert(names[k]@ != names[v[i] as int]@);
    }
    assert(seqs[h]@.take(i) == w.take(i) && seqs[h]@[i] == k);
}

/// The traces that walk a group's prefix and continue it with an activity
/// are found among the groups.
pub proof fn lemma_observed_groups(
    log: EventLog,
    ty: Seq<char>,
    names: Seq<String>,
    seqs: Seq<Vec<usize>>,
    counts: Seq<usize>,
    firsts: Seq<usize>,
    valid: spec_fn(Seq<Seq<char>>) -> bool,
    ls: Seq<usize>,
    g: int,
    i: int,
    k: int,
)
    requires
        groups_inv(log, ty, names, seqs, counts, firsts, log.members(ty).len() as int),
        forall|a: int, b: int| 0 <= a < b < names.len() ==> names[a]@ != names[b]@,
        ls.len() == seqs.len(),
        forall|h: int| 0 <= h < seqs.len() ==> #[trigger] ls[h] == live_len(valid, name_seq(names, seqs[h]@)),
        0 <= g < seqs.len(),
        0 <= i < seqs[g].len(),
        0 <= k < names.len(),
    ensures
        observed(log, ty, valid, name_seq(names, seqs[g]@).take(i), names[k]@) == seen_after(seqs, ls, seqs[g]@, i, k),
{
    if seen_after(seqs, ls, seqs[g]@, i, k) {
        lemma_observed_from_group(log, ty, names, seqs, counts, firsts, valid, ls, g, i, k);
    }
    if observed(log, ty, valid, name_seq(names, seqs[g]@).take(i), names[k]@) {
        lemma_observed_to_group(log, ty, names, seqs, counts, firsts, valid, ls, g, i, k);
    }
}

/// The allowed and escaping moves group `g` walks.
fn word_sums(
    seqs: &Vec<Vec<usize>>,
    ls: &Vec<usize>,
    at: &Vec<Vec<Vec<bool>>>,
    ut: &Vec<Vec<usize>>,
    g: usize,
    n_names: usize,
    names: Ghost<Seq<String>>,
    allowed: Ghost<spec_fn(Seq<Seq<char>>, Seq<char>) -> bool>,
    unlogged: Ghost<spec_fn(Seq<Seq<char>>) -> nat>,
    obs_spec: Ghost<spec_fn(Seq<Seq<char>>, Seq<char>) -> bool>,
) -> (r: Option<(usize, usize)>)
    requires
        g < seqs.len(),
        n_names == names@.len(),
        ls.len() == seqs.len(),
        forall|h: int| 0 <= h < seqs.len() ==> #[trigger] ls[h] <= seqs[h].len(),
        forall|h: int, k: int| 0 <= h < seqs.len() && 0 <= k < seqs[h].len() ==> #[trigger] seqs[h]@[k] < names@.len(),
        at.len() == seqs.len(),
        ut.len() == seqs.len(),
        at[g as int].len() == seqs[g as int].len(),
        ut[g as int].len() == seqs[g as int].len(),
        forall|i: int| 0 <= i < seqs[g as int].len() ==> #[trigger] at[g as int][i].len() == names@.len(),
        forall|i: int, k: int| 0 <= i < seqs[g as int].len() && 0 <= k < names@.len() ==> #[trigger] at[g as int][i]@[k]
            == allowed@(name_seq(names@, seqs[g as int]@).take(i), names@[k]@),
        forall|i: int| 0 <= i < seqs[g as int].len() ==> #[trigger] ut[g as int]@[i] == unlogged@(name_seq(names@, seqs[g as int]@).take(i)),
        forall|i: int, k: int| 0 <= i < seqs[g as int].len() && 0 <= k < names@.len() ==> #[trigger] seen_after(seqs@, ls@, seqs[g as int]@, i, k)
            == obs_spec@(name_seq(names@, seqs[g as int]@).take(i), names@[k]@),
    ensures
        match r {
            None => word_sum(|p: Seq<Seq<char>>| allowed_count(names@, allowed@, unlogged@, p), name_seq(names@, seqs[g as int]@), ls[g as int] as int)
                > usize::MAX,
            Some(sums) => {
                &&& sums.0 == word_sum(|p: Seq<Seq<char>>| allowed_count(names@, allowed@, unlogged@, p), name_seq(names@, seqs[g as int]@), ls[g as int] as int)
                &&& sums.1 == word_sum(|p: Seq<Seq<char>>| count_names(names@, |a: Seq<char>| allowed@(p, a) && !obs_spec@(p, a), names@.len() as int) + unlogged@(p),
                    name_seq(names@, seqs[g as int]@), ls[g as int] as int)
            },
        },
{
    let ghost x = name_seq(names@, seqs[g as int]@);
    let ghost fa = |p: Seq<Seq<char>>| allowed_count(names@, allowed@, unlogged@, p);
    let ghost fe = |p: Seq<Seq<char>>| count_names(names@, |a: Seq<char>| allowed@(p, a) && !obs_spec@(p, a), names@.len() as int) + unlogged@(p);
    let mut sa: usize = 0;
    let mut se: usize = 0;
    let mut i: usize = 0;
    while i < ls[g]
        invariant
            g < seqs.len(),
            ls.len() == seqs.len(),
            forall|h: int| 0 <= h < seqs.len() ==> #[trigger] ls[h] <= seqs[h].len(),
            forall|h: int, k: int| 0 <= h < seqs.len() && 0 <= k < seqs[h].len() ==> #[trigger] seqs[h]@[k] < names@.len(),
            at.len() == seqs.len(),
            ut.len() == seqs.len(),
            at[g as int].len() == seqs[g as int].len(),
            ut[g as int].len() == seqs[g as int].len(),
            forall|i2: int| 0 <= i2 < seqs[g as int].len() ==> #[trigger] at[g as int][i2].len() == names@.len(),
            forall|i2: int, k: int| 0 <= i2 < seqs[g as int].len() && 0 <= k < names@.len() ==> #[trigger] at[g as int][i2]@[k]
                == allowed@(x.take(i2), names@[k]@),
            forall|i2: int| 0 <= i2 < seqs[g as int].len() ==> #[trigger] ut[g as int]@[i2] == unlogged@(x.take(i2)),
            forall|i2: int, k: int| 0 <= i2 < seqs[g as int].len() && 0 <= k < names@.len() ==> #[trigger] seen_after(seqs@, ls@, seqs[g as int]@, i2, k)
                == obs_spec@(x.take(i2), names@[k]@),
            x == name_seq(names@, seqs[g as int]@),
            fa == (|p: Seq<Seq<char>>| allowed_count(names@, allowed@, unlogged@, p)),
            fe == (|p: Seq<Seq<char>>| count_names(names@, |a: Seq<char>| allowed@(p, a) && !obs_spec@(p, a), names@.len() as int) + unlogged@(p)),
            i <= ls[g as int],
            se <= sa,
            n_names == names@.len(),
            sa == word_sum(fa, x, i as int),
            se == word_sum(fe, x, i as int),
        decreases ls[g as int] - i,
    {
        let ghost p = x.take(i as int);
        let row = &at[g][i];
        let obs = observed_at(seqs, ls, g, i, n_names);
        proof {
            assert forall|k2: int| 0 <= k2 < n_names implies #[trigger] obs[k2] == obs_spec@(p, names@[k2]@) by {
                assert(seen_after(seqs@, ls@, seqs[g as int]@, i as int, k2) == obs_spec@(x.take(i as int), names@[k2]@));
            }
        }
        let mut ca: usize = 0;
        let mut ce: usize = 0;
        let mut k: usize = 0;
        while k < n_names
            invariant
                n_names == names@.len(),
                row.len() == n_names,
                obs.len() == n_names,
                i < seqs[g as int].len(),
                forall|k2: int| 0 <= k2 < n_names ==> #[trigger] row@[k2] == allowed@(p, names@[k2]@),
                forall|k2: int| 0 <= k2 < n_names ==> #[trigger] obs[k2] == obs_spec@(p, names@[k2]@),
                k <= n_names,
                ca == count_names(names@, |a: Seq<char>| allowed@(p, a), k as int),
                ce == count_names(names@, |a: Seq<char>| allowed@(p, a) && !obs_spec@(p, a), k as int),
                ca <= k,
                ce <= ca,
            decreases n_names - k,
        {
            if row[k] {
                ca = ca + 1;
                if !obs[k] {
                    ce = ce + 1;
                }
            }
            k = k + 1;
        }
        proof {
            assert(ca + ut[g as int]@[i as int] == fa(p));
            assert(ce + ut[g as int]@[i as int] == fe(p));
            lemma_word_sum_monotone(fa, x, i + 1, ls[g as int] as int);
        }
        let ta = match ca.checked_add(ut[g][i]) {
            Some(v) => v,
            None => {
                return None;
            },
        };
        let na = match sa.checked_add(ta) {
            Some(v) => v,
            None => {
                return None;
            },
        };
        se = se + (ce + ut[g][i]);
        sa = na;
        i = i + 1;
    }
    Some((sa, se))
}


/// A model's answers per group and position `i`: does it replay the first
/// `i` activities (`vt`), which activities of the alphabet does it allow
/// after them (`at`), how many moves outside the alphabet (`ut`).
pub open spec fn tables_ok(
    names: Seq<String>,
    seqs: Seq<Vec<usize>>,
    vt: Seq<Vec<bool>>,
    at: Seq<Vec<Vec<bool>>>,
    ut: Seq<Vec<usize>>,
    valid: spec_fn(Seq<Seq<char>>) -> bool,
    allowed: spec_fn(Seq<Seq<char>>, Seq<char>) -> bool,
    unlogged: spec_fn(Seq<Seq<char>>) -> nat,
) -> bool {
    &&& vt.len() == seqs.len()
    &&& at.len() == seqs.len()
    &&& ut.len() == seqs.len()
    &&& forall|g: int| 0 <= g < seqs.len() ==> #[trigger] vt[g].len() == seqs[g].len()
    &&& forall|g: int| 0 <= g < seqs.len() ==> #[trigger] at[g].len() == seqs[g].len()
    &&& forall|g: int| 0 <= g < seqs.len() ==> #[trigger] ut[g].len() == seqs[g].len()
    &&& forall|g: int, i: int| 0 <= g < seqs.len() && 0 <= i < seqs[g].len() ==> #[trigger] vt[g]@[i] == valid(name_seq(names, seqs[g]@).take(i))
    &&& forall|g: int, i: int| 0 <= g < seqs.len() && 0 <= i < seqs[g].len() ==> #[trigger] at[g][i].len() == names.len()
    &&& forall|g: int, i: int, k: int| 0 <= g < seqs.len() && 0 <= i < seqs[g].len() && 0 <= k < names.len() ==> #[trigger] at[g][i]@[k]
        == allowed(name_seq(names, seqs[g]@).take(i), names[k]@)
    &&& forall|g: int, i: int| 0 <= g < seqs.len() && 0 <= i < seqs[g].len() ==> #[trigger] ut[g]@[i] == unlogged(name_seq(names, seqs[g]@).take(i))
}

/// Per group: the allowed and escaping moves of its traces.
fn group_sums(
    log: &EventLog,
    ty: Ghost<Seq<char>>,
    t: &Traces,
    seqs: &Vec<Vec<usize>>,
    counts: Ghost<Seq<usize>>,
    firsts: Ghost<Seq<usize>>,
    ls: &Vec<usize>,
    at: &Vec<Vec<Vec<bool>>>,
    ut: &Vec<Vec<usize>>,
    valid: Ghost<spec_fn(Seq<Seq<char>>) -> bool>,
    allowed: Ghost<spec_fn(Seq<Seq<char>>, Seq<char>) -> bool>,
    unlogged: Ghost<spec_fn(Seq<Seq<char>>) -> nat>,
    vt: Ghost<Seq<Vec<bool>>>,
) -> (r: Option<(Vec<usize>, Vec<usize>)>)
    requires
        t.describes(*log, ty@),
        groups_inv(*log, ty@, t.activity_names@, seqs@, counts@, firsts@, t.steps.len() as int),
        tables_ok(t.activity_names@, seqs@, vt@, at@, ut@, valid@, allowed@, unlogged@),
        ls.len() == seqs.len(),
        forall|h: int| 0 <= h < seqs.len() ==> #[trigger] ls[h] == live_len(valid@, name_seq(t.activity_names@, seqs[h]@)),
    ensures
        match r {
            None => slot_sum(*log, ty@, trace_allowed(t.activity_names@, valid@, allowed@, unlogged@), log.members(ty@).len() as int) > usize::MAX,
            Some(sums) => {
                &&& sums.0.len() == seqs.len()
                &&& sums.1.len() == seqs.len()
                &&& forall|g: int| 0 <= g < seqs.len() ==> #[trigger] sums.0[g] == trace_allowed(t.activity_names@, valid@, allowed@, unlogged@)(
                    name_seq(t.activity_names@, seqs[g]@),
                )
                &&& forall|g: int| 0 <= g < seqs.len() ==> #[trigger] sums.1[g] == trace_escaping(*log, ty@, t.activity_names@, valid@, allowed@, unlogged@)(
                    name_seq(t.activity_names@, seqs[g]@),
                )
            },
        },
{
    let ghost names = t.activity_names@;
    let ghost n = log.members(ty@).len() as int;
    let ghost fa = trace_allowed(names, valid@, allowed@, unlogged@);
    let ghost fe = trace_escaping(*log, ty@, names, valid@, allowed@, unlogged@);
    let ghost obs_spec = |p: Seq<Seq<char>>, a: Seq<char>| observed(*log, ty@, valid@, p, a);
    let n_names = t.activity_names.len();
    proof {
        assert(t.object_ids@ == log.members(ty@));
        assert forall|h: int| 0 <= h < seqs.len() implies #[trigger] ls[h] <= seqs[h].len() by {
            lemma_live_bounds(valid@, name_seq(names, seqs[h]@), 0);
        }
    }
    let mut wa: Vec<usize> = Vec::new();
    let mut we: Vec<usize> = Vec::new();
    let mut g: usize = 0;
    while g < seqs.len()
        invariant
            t.describes(*log, ty@),
            names == t.activity_names@,
            n == log.members(ty@).len(),
            n == t.steps.len(),
            n_names == names.len(),
            groups_inv(*log, ty@, names, seqs@, counts@, firsts@, n),
            tables_ok(names, seqs@, vt@, at@, ut@, valid@, allowed@, unlogged@),
            ls.len() == seqs.len(),
            forall|h: int| 0 <= h < seqs.len() ==> #[trigger] ls[h] == live_len(valid@, name_seq(names, seqs[h]@)),
            forall|h: int| 0 <= h < seqs.len() ==> #[trigger] ls[h] <= seqs[h].len(),
            fa == trace_allowed(names, valid@, allowed@, unlogged@),
            fe == trace_escaping(*log, ty@, names, valid@, allowed@, unlogged@),
            obs_spec == (|p: Seq<Seq<char>>, a: Seq<char>| observed(*log, ty@, valid@, p, a)),
            g <= seqs.len(),
            wa.len() == g,
            we.len() == g,
            forall|h: int| 0 <= h < g ==> #[trigger] wa[h] == fa(name_seq(names, seqs[h]@)),
            forall|h: int| 0 <= h < g ==> #[trigger] we[h] == fe(name_seq(names, seqs[h]@)),
        decreases seqs.len() - g,
    {
        let ghost x = name_seq(names, seqs[g as int]@);
        let ghost fe2 = |p: Seq<Seq<char>>| count_names(names, |a: Seq<char>| allowed@(p, a) && !obs_spec(p, a), names.len() as int) + unlogged@(p);
        let ghost fe1 = |p: Seq<Seq<char>>| escaping_count(*log, ty@, names, valid@, allowed@, unlogged@, p);
        proof {
            assert forall|p: Seq<Seq<char>>| #[trigger] fe2(p) == fe1(p) by {
                assert((|a: Seq<char>| allowed@(p, a) && !obs_spec(p, a)) =~= (|a: Seq<char>| allowed@(p, a) && !observed(*log, ty@, valid@, p, a)));
            }
            assert(fe2 =~= fe1);
            assert forall|i: int, k: int| 0 <= i < seqs[g as int].len() && 0 <= k < names.len() implies #[trigger] seen_after(seqs@, ls@, seqs[g as int]@, i, k)
                == obs_spec(x.take(i), names[k]@) by {
                lemma_observed_groups(*log, ty@, names, seqs@, counts@, firsts@, valid@, ls@, g as int, i, k);
            }
            let s = firsts@[g as int] as int;
            assert(crate::variants::first_with(*log, ty@, x, s));
            lemma_slot_sum_term(*log, ty@, fa, s, n);
            lemma_slot_sum_term(*log, ty@, fe, s, n);
        }
        match word_sums(seqs, ls, at, ut, g, n_names, Ghost(names), allowed, unlogged, Ghost(obs_spec)) {
            None => {
                return None;
            },
            Some((a, e)) => {
                wa.push(a);
                we.push(e);
            },
        }
        g = g + 1;
    }
    Some((wa, we))
}

/// The precision report from a model's answers on every group's prefixes.
pub fn score(
    log: &EventLog,
    object_type: &str,
    t: &Traces,
    seqs: &Vec<Vec<usize>>,
    counts: Ghost<Seq<usize>>,
    firsts: Ghost<Seq<usize>>,
    vt: &Vec<Vec<bool>>,
    at: &Vec<Vec<Vec<bool>>>,
    ut: &Vec<Vec<usize>>,
    valid: Ghost<spec_fn(Seq<Seq<char>>) -> bool>,
    allowed: Ghost<spec_fn(Seq<Seq<char>>, Seq<char>) -> bool>,
    unlogged: Ghost<spec_fn(Seq<Seq<char>>) -> nat>,
) -> (r: Option<PrecisionReport>)
    requires
        t.describes(*log, object_type@),
        groups_inv(*log, object_type@, t.activity_names@, seqs@, counts@, firsts@, t.steps.len() as int),
        tables_ok(t.activity_names@, seqs@, vt@, at@, ut@, valid@, allowed@, unlogged@),
    ensures
        match r {
            None => slot_sum(*log, object_type@, trace_allowed(t.activity_names@, valid@, allowed@, unlogged@), log.members(object_type@).len() as int)
                > usize::MAX,
            Some(rep) => precision_ok(*log, object_type@, t.activity_names@, valid@, allowed@, unlogged@, rep),
        },
{
    let ghost ty = object_type@;
    let ghost names = t.activity_names@;
    let ghost n = log.members(ty).len() as int;
    let ghost fa = trace_allowed(names, valid@, allowed@, unlogged@);
    let ghost fe = trace_escaping(*log, ty, names, valid@, allowed@, unlogged@);
    let ghost cut = |s: int| busy(*log, ty, s) && live_len(valid@, member_acts(*log, ty, s)) < member_acts(*log, ty, s).len();
    let ls = visit_states(seqs, vt, Ghost(names), valid);
    let (wa, we) = match group_sums(log, Ghost(ty), t, seqs, counts, firsts, &ls, at, ut, valid, allowed, unlogged, Ghost(vt@)) {
        None => {
            return None;
        },
        Some(sums) => sums,
    };
    proof {
        assert(t.object_ids@ == log.members(ty));
        lemma_escaping_le(*log, ty, names, valid@, allowed@, unlogged@);
    }
    let ns = t.steps.len();
    let mut truncated: usize = 0;
    let mut sa: usize = 0;
    let mut se: usize = 0;
    let mut s: usize = 0;
    while s < ns
        invariant
            ns == t.steps.len(),
            n == ns,
            ty == object_type@,
            n == log.members(ty).len(),
            t.describes(*log, ty),
            names == t.activity_names@,
            groups_inv(*log, ty, names, seqs@, counts@, firsts@, n),
            ls.len() == seqs.len(),
            forall|h: int| 0 <= h < seqs.len() ==> #[trigger] ls[h] == live_len(valid@, name_seq(names, seqs[h]@)),
            wa.len() == seqs.len(),
            we.len() == seqs.len(),
            fa == trace_allowed(names, valid@, allowed@, unlogged@),
            fe == trace_escaping(*log, ty, names, valid@, allowed@, unlogged@),
            cut == (|s2: int| busy(*log, ty, s2) && live_len(valid@, member_acts(*log, ty, s2)) < member_acts(*log, ty, s2).len()),
            forall|h: int| 0 <= h < seqs.len() ==> #[trigger] wa[h] == fa(name_seq(names, seqs[h]@)),
            forall|h: int| 0 <= h < seqs.len() ==> #[trigger] we[h] == fe(name_seq(names, seqs[h]@)),
            forall|x2: Seq<Seq<char>>| #[trigger] fe(x2) <= fa(x2),
            forall|k: int| #[trigger] slot_sum(*log, ty, fe, k) <= slot_sum(*log, ty, fa, k),
            s <= ns,
            sa == slot_sum(*log, ty, fa, s as int),
            se == slot_sum(*log, ty, fe, s as int),
            truncated == count_where(cut, s as int),
            truncated <= s,
        decreases ns - s,
    {
        let ids = activity_ids(&t.steps[s]);
        let ghost x = member_acts(*log, ty, s as int);
        proof {
            lemma_slot_acts(*log, ty, *t, s as int);
            lemma_slot_sum_term(*log, ty, fa, s as int, n);
            lemma_slot_sum_term(*log, ty, fe, s as int, n);
            if s + 1 < n {
                lemma_slot_sum_term(*log, ty, fa, s + 1, n);
                lemma_slot_sum_term(*log, ty, fe, s + 1, n);
            }
        }
        if ids.len() > 0 {
            proof {
                assert(x.len() == ids.len());
                let g = choose|g: int| 0 <= g < seqs.len() && name_seq(names, #[trigger] seqs[g]@) == x;
                lemma_rank_free_eq(names, seqs[g]@, ids@);
                assert(seqs[g]@ == ids@);
            }
            let g = group_of(seqs, &ids);
            proof {
                assert(name_seq(names, seqs[g as int]@) == x);
                lemma_live_bounds(valid@, x, 0);
            }
            if ls[g] < ids.len() {
                truncated = truncated + 1;
            }
            let na = match sa.checked_add(wa[g]) {
                Some(v) => v,
                None => {
                    proof {
                        assert(slot_sum(*log, ty, fa, s + 1) == slot_sum(*log, ty, fa, s as int) + fa(x));
                        assert(fa(x) == wa[g as int]);
                        assert(slot_sum(*log, ty, fa, s + 1) > usize::MAX);
                        if s + 1 < n {
                            lemma_slot_sum_term(*log, ty, fa, s + 1, n);
                        }
                        assert(slot_sum(*log, ty, fa, n) > usize::MAX);
                    }
                    return None;
                },
            };
            assert(slot_sum(*log, ty, fe, s + 1) <= slot_sum(*log, ty, fa, s + 1));
            se = se + we[g];
            sa = na;
        } else {
            proof {
                assert(x.len() == 0);
                assert(live_len(valid@, x) == 0);
            }
        }
        s = s + 1;
    }
    Some(PrecisionReport { object_type: object_type.to_owned(), allowed: sa, escaping: se, truncated_traces: truncated })
}


/// Prefix `p` of activity names is one node `root` of `m` can start with.
pub open spec fn model_valid(m: Nodes, root: int, labels: Seq<Seq<char>>) -> spec_fn(Seq<Seq<char>>) -> bool {
    |p: Seq<Seq<char>>| exists|ids: Seq<usize>| spells(labels, ids, p) && #[trigger] m.prefix_spec(root, ids)
}

/// After prefix `p`, the model allows `a` when `p` followed by `a` is a
/// prefix it can start with.
pub open spec fn model_allowed(m: Nodes, root: int, labels: Seq<Seq<char>>) -> spec_fn(Seq<Seq<char>>, Seq<char>) -> bool {
    |p: Seq<Seq<char>>, a: Seq<char>| model_valid(m, root, labels)(p.push(a))
}

/// How many `k` with `lo <= k < hi` satisfy `pred`.
pub open spec fn count_from(pred: spec_fn(int) -> bool, lo: int, hi: int) -> nat
    decreases hi - lo,
{
    if hi <= lo {
        0
    } else {
        count_from(pred, lo, hi - 1) + if pred(hi - 1) {
            1nat
        } else {
            0nat
        }
    }
}

/// After prefix `p`, how many labels beyond the first `logged` (those of
/// the model alone) the model allows.
pub open spec fn model_unlogged(m: Nodes, root: int, labels: Seq<Seq<char>>, logged: int) -> spec_fn(Seq<Seq<char>>) -> nat {
    |p: Seq<Seq<char>>| count_from(|k: int| model_valid(m, root, labels)(p.push(labels[k])), logged, labels.len() as int)
}

/// With distinct labels, a spelled word is a valid prefix exactly when its
/// spelling is.
pub proof fn lemma_model_valid(m: Nodes, root: int, labels: Seq<Seq<char>>, ids: Seq<usize>, x: Seq<Seq<char>>)
    requires
        distinct(labels),
        spells(labels, ids, x),
    ensures
        model_valid(m, root, labels)(x) == m.prefix_spec(root, ids),
{
    if model_valid(m, root, labels)(x) {
        let other = choose|other: Seq<usize>| spells(labels, other, x) && #[trigger] m.prefix_spec(root, other);
        lemma_spelling_unique(labels, other, ids, x);
    }
}

/// The model's answers after the prefix `w` of activity ids.
fn model_answers(compiled: &Compiled, root: usize, symbols: &Vec<String>, names: Ghost<Seq<String>>, n_names: usize, w: &Vec<usize>) -> (r: (bool, Vec<bool>, usize))
    requires
        n_names == names@.len(),
        compiled.wf(),
        root < compiled.nodes.kinds.len(),
        distinct(texts(symbols@)),
        prefix_of(texts(names@), texts(symbols@)),
        w.len() + 1 < usize::MAX,
        forall|k: int| 0 <= k < w.len() ==> #[trigger] w[k] < names@.len(),
    ensures
        r.0 == model_valid(compiled.nodes, root as int, texts(symbols@))(name_seq(names@, w@)),
        r.1.len() == names@.len(),
        forall|k: int| 0 <= k < names@.len() ==> #[trigger] r.1[k] == model_allowed(compiled.nodes, root as int, texts(symbols@))(name_seq(names@, w@), names@[k]@),
        r.2 == model_unlogged(compiled.nodes, root as int, texts(symbols@), names@.len() as int)(name_seq(names@, w@)),
{
    let ghost labels = texts(symbols@);
    let ghost x = name_seq(names@, w@);
    let ghost mv = model_valid(compiled.nodes, root as int, labels);
    proof {
        assert(spells(labels, w@, x)) by {
            assert forall|k: int| 0 <= k < w.len() implies #[trigger] w@[k] < labels.len() && labels[w@[k] as int] == x[k] by {
                assert(labels[w@[k] as int] == texts(names@)[w@[k] as int]);
            }
        }
        lemma_model_valid(compiled.nodes, root as int, labels, w@, x);
    }
    let ok = compiled.prefix_ok(root, w);
    let mut ext: Vec<usize> = w.clone();
    ext.push(0);
    let mut row: Vec<bool> = Vec::new();
    let mut free: usize = 0;
    let n_symbols = symbols.len();
    let mut k: usize = 0;
    while k < n_symbols
        invariant
            compiled.wf(),
            root < compiled.nodes.kinds.len(),
            labels == texts(symbols@),
            distinct(labels),
            prefix_of(texts(names@), labels),
            n_symbols == symbols.len(),
            n_names == names@.len(),
            x == name_seq(names@, w@),
            mv == model_valid(compiled.nodes, root as int, labels),
            forall|k2: int| 0 <= k2 < w.len() ==> #[trigger] w[k2] < names@.len(),
            ext.len() == w.len() + 1,
            ext@.take(w.len() as int) == w@,
            w.len() + 1 < usize::MAX,
            k <= n_symbols,
            row.len() == if k < names@.len() { k as int } else { names@.len() as int },
            forall|k2: int| 0 <= k2 < row.len() ==> #[trigger] row[k2] == mv(x.push(labels[k2])),
            free <= k,
            free == count_from(|k2: int| mv(x.push(labels[k2])), names@.len() as int, k as int),
        decreases n_symbols - k,
    {
        ext.set(w.len(), k);
        let ghost y = x.push(labels[k as int]);
        proof {
            assert(spells(labels, ext@, y)) by {
                assert forall|j: int| 0 <= j < ext.len() implies #[trigger] ext@[j] < labels.len() && labels[ext@[j] as int] == y[j] by {
                    if j < w.len() {
                        assert(ext@[j] == w@[j]);
                        assert(labels[w@[j] as int] == texts(names@)[w@[j] as int]);
                    }
                }
            }
            lemma_model_valid(compiled.nodes, root as int, labels, ext@, y);
        }
        let e = compiled.prefix_ok(root, &ext);
        if k < n_names {
            row.push(e);
        } else if e {
            free = free + 1;
        }
        k = k + 1;
    }
    proof {
        assert forall|k2: int| 0 <= k2 < names@.len() implies #[trigger] row[k2] == model_allowed(compiled.nodes, root as int, labels)(x, names@[k2]@) by {
            assert(labels[k2] == names@[k2]@);
        }
    }
    (ok, row, free)
}


/// The model's answers on every prefix of every group.
fn model_tables(
    compiled: &Compiled,
    root: usize,
    symbols: &Vec<String>,
    names: Ghost<Seq<String>>,
    n_names: usize,
    seqs: &Vec<Vec<usize>>,
) -> (r: (Vec<Vec<bool>>, Vec<Vec<Vec<bool>>>, Vec<Vec<usize>>))
    requires
        n_names == names@.len(),
        compiled.wf(),
        root < compiled.nodes.kinds.len(),
        distinct(texts(symbols@)),
        prefix_of(texts(names@), texts(symbols@)),
        forall|g: int| 0 <= g < seqs.len() ==> #[trigger] seqs[g].len() < usize::MAX,
        forall|g: int, k: int| 0 <= g < seqs.len() && 0 <= k < seqs[g].len() ==> #[trigger] seqs[g]@[k] < names@.len(),
    ensures
        tables_ok(
            names@,
            seqs@,
            r.0@,
            r.1@,
            r.2@,
            model_valid(compiled.nodes, root as int, texts(symbols@)),
            model_allowed(compiled.nodes, root as int, texts(symbols@)),
            model_unlogged(compiled.nodes, root as int, texts(symbols@), names@.len() as int),
        ),
{
    let ghost mv = model_valid(compiled.nodes, root as int, texts(symbols@));
    let ghost ma = model_allowed(compiled.nodes, root as int, texts(symbols@));
    let ghost mu = model_unlogged(compiled.nodes, root as int, texts(symbols@), names@.len() as int);
    let mut vt: Vec<Vec<bool>> = Vec::new();
    let mut at: Vec<Vec<Vec<bool>>> = Vec::new();
    let mut ut: Vec<Vec<usize>> = Vec::new();
    let mut g: usize = 0;
    while g < seqs.len()
        invariant
            n_names == names@.len(),
            compiled.wf(),
            root < compiled.nodes.kinds.len(),
            distinct(texts(symbols@)),
            prefix_of(texts(names@), texts(symbols@)),
            mv == model_valid(compiled.nodes, root as int, texts(symbols@)),
            ma == model_allowed(compiled.nodes, root as int, texts(symbols@)),
            mu == model_unlogged(compiled.nodes, root as int, texts(symbols@), names@.len() as int),
            forall|h: int| 0 <= h < seqs.len() ==> #[trigger] seqs[h].len() < usize::MAX,
            forall|h: int, k: int| 0 <= h < seqs.len() && 0 <= k < seqs[h].len() ==> #[trigger] seqs[h]@[k] < names@.len(),
            g <= seqs.len(),
            vt.len() == g,
            at.len() == g,
            ut.len() == g,
            forall|h: int| 0 <= h < g ==> #[trigger] vt[h].len() == seqs[h].len(),
            forall|h: int| 0 <= h < g ==> #[trigger] at[h].len() == seqs[h].len(),
            forall|h: int| 0 <= h < g ==> #[trigger] ut[h].len() == seqs[h].len(),
            forall|h: int, i: int| 0 <= h < g && 0 <= i < seqs[h].len() ==> #[trigger] vt[h]@[i] == mv(name_seq(names@, seqs[h]@).take(i)),
            forall|h: int, i: int| 0 <= h < g && 0 <= i < seqs[h].len() ==> #[trigger] at[h][i].len() == names@.len(),
            forall|h: int, i: int, k: int| 0 <= h < g && 0 <= i < seqs[h].len() && 0 <= k < names@.len() ==> #[trigger] at[h][i]@[k]
                == ma(name_seq(names@, seqs[h]@).take(i), names@[k]@),
            forall|h: int, i: int| 0 <= h < g && 0 <= i < seqs[h].len() ==> #[trigger] ut[h]@[i] == mu(name_seq(names@, seqs[h]@).take(i)),
        decreases seqs.len() - g,
    {
        let w = &seqs[g];
        let ghost x = name_seq(names@, w@);
        let mut vrow: Vec<bool> = Vec::new();
        let mut arow: Vec<Vec<bool>> = Vec::new();
        let mut urow: Vec<usize> = Vec::new();
        let mut prefix: Vec<usize> = Vec::new();
        let mut i: usize = 0;
        while i < w.len()
            invariant
                n_names == names@.len(),
                compiled.wf(),
                root < compiled.nodes.kinds.len(),
                distinct(texts(symbols@)),
                prefix_of(texts(names@), texts(symbols@)),
                mv == model_valid(compiled.nodes, root as int, texts(symbols@)),
                ma == model_allowed(compiled.nodes, root as int, texts(symbols@)),
                mu == model_unlogged(compiled.nodes, root as int, texts(symbols@), names@.len() as int),
                w.len() < usize::MAX,
                forall|k: int| 0 <= k < w.len() ==> #[trigger] w[k] < names@.len(),
                x == name_seq(names@, w@),
                i <= w.len(),
                prefix@ == w@.take(i as int),
                vrow.len() == i,
                arow.len() == i,
                urow.len() == i,
                forall|i2: int| 0 <= i2 < i ==> #[trigger] vrow@[i2] == mv(x.take(i2)),
                forall|i2: int| 0 <= i2 < i ==> #[trigger] arow[i2].len() == names@.len(),
                forall|i2: int, k: int| 0 <= i2 < i && 0 <= k < names@.len() ==> #[trigger] arow[i2]@[k] == ma(x.take(i2), names@[k]@),
                forall|i2: int| 0 <= i2 < i ==> #[trigger] urow@[i2] == mu(x.take(i2)),
            decreases w.len() - i,
        {
            proof {
                assert(name_seq(names@, prefix@) =~= x.take(i as int));
            }
            let (v, a, u) = model_answers(compiled, root, symbols, names, n_names, &prefix);
            vrow.push(v);
            arow.push(a);
            urow.push(u);
            prefix.push(w[i]);
            proof {
                assert(prefix@ =~= w@.take(i + 1));
            }
            i = i + 1;
        }
        vt.push(vrow);
        at.push(arow);
        ut.push(urow);
        g = g + 1;
    }
    (vt, at, ut)
}

/// Precision of a compiled model over the traces `t`.
fn model_precision(
    log: &EventLog,
    object_type: &str,
    t: &Traces,
    compiled: &Compiled,
    root: usize,
    symbols: &Vec<String>,
) -> (r: Option<PrecisionReport>)
    requires
        log.wf(),
        log.events.len() < usize::MAX,
        t.describes(*log, object_type@),
        compiled.wf(),
        root < compiled.nodes.kinds.len(),
        distinct(texts(symbols@)),
        prefix_of(texts(t.activity_names@), texts(symbols@)),
    ensures
        match r {
            None => slot_sum(
                *log,
                object_type@,
                trace_allowed(
                    t.activity_names@,
                    model_valid(compiled.nodes, root as int, texts(symbols@)),
                    model_allowed(compiled.nodes, root as int, texts(symbols@)),
                    model_unlogged(compiled.nodes, root as int, texts(symbols@), t.activity_names.len() as int),
                ),
                log.members(object_type@).len() as int,
            ) > usize::MAX,
            Some(rep) => precision_ok(
                *log,
                object_type@,
                t.activity_names@,
                model_valid(compiled.nodes, root as int, texts(symbols@)),
                model_allowed(compiled.nodes, root as int, texts(symbols@)),
                model_unlogged(compiled.nodes, root as int, texts(symbols@), t.activity_names.len() as int),
                rep,
            ),
        },
{
    let ghost ty = object_type@;
    let ghost names = t.activity_names@;
    let (seqs, counts, firsts, _busy) = collect_variants(log, Ghost(ty), t);
    proof {
        assert forall|g: int| 0 <= g < seqs.len() implies #[trigger] seqs[g].len() < usize::MAX by {
            let f = firsts[g] as int;
            let x = name_seq(names, seqs[g]@);
            assert(crate::variants::first_with(*log, ty, x, f));
            assert(t.object_ids@ == log.members(ty));
            lemma_slot_acts(*log, ty, *t, f);
            lemma_slot_len(*log, ty, *t, f);
            assert(x.len() == seqs[g]@.len());
        }
    }
    let (vt, at, ut) = model_tables(compiled, root, symbols, Ghost(names), t.activity_names.len(), &seqs);
    score(
        log,
        object_type,
        t,
        &seqs,
        Ghost(counts@),
        Ghost(firsts@),
        &vt,
        &at,
        &ut,
        Ghost(model_valid(compiled.nodes, root as int, texts(symbols@))),
        Ghost(model_allowed(compiled.nodes, root as int, texts(symbols@))),
        Ghost(model_unlogged(compiled.nodes, root as int, texts(symbols@), names.len() as int)),
    )
}

/// Escaping-edges precision of a process tree whose children partition
/// their alphabets: after each prefix walked, the tree allows the labels it
/// can continue with; `None` when the allowed moves do not fit in a `usize`.
pub fn tree_precision(log: &EventLog, object_type: &str, tree: &ProcessTree) -> (r: Option<PrecisionReport>)
    requires
        log.wf(),
        log.events.len() < usize::MAX,
        partitioned(*tree),
    ensures
        exists|t: Traces, m: Nodes, root: int, labels: Seq<Seq<char>>|
            #![trigger t.describes(*log, object_type@), represents(m, root, *tree, labels)]
            {
                &&& t.describes(*log, object_type@)
                &&& m.wf()
                &&& distinct(labels)
                &&& represents(m, root, *tree, labels)
                &&& prefix_of(texts(t.activity_names@), labels)
                &&& match r {
                    None => slot_sum(
                        *log,
                        object_type@,
                        trace_allowed(t.activity_names@, model_valid(m, root, labels), model_allowed(m, root, labels), model_unlogged(m, root, labels, t.activity_names.len() as int)),
                        log.members(object_type@).len() as int,
                    ) > usize::MAX,
                    Some(rep) => precision_ok(
                        *log,
                        object_type@,
                        t.activity_names@,
                        model_valid(m, root, labels),
                        model_allowed(m, root, labels),
                        model_unlogged(m, root, labels, t.activity_names.len() as int),
                        rep,
                    ),
                }
            },
{
    let t = build(log, object_type);
    let mut symbols = copy_names(&t.activity_names);
    let mut nodes = Nodes { kinds: Vec::new(), owner: Vec::new() };
    proof {
        assert(distinct(texts(symbols@)));
    }
    let (root, _) = crate::replay::compile(tree, &mut symbols, &mut nodes);
    let compiled = complete(nodes);
    model_precision(log, object_type, &t, &compiled, root, &symbols)
}

/// Escaping-edges precision of a POWL model whose children partition their
/// alphabets, read as `tree_precision` reads a tree.
pub fn powl_precision(log: &EventLog, object_type: &str, model: &Powl) -> (r: Option<PrecisionReport>)
    requires
        log.wf(),
        log.events.len() < usize::MAX,
        powl_partitioned(*model),
    ensures
        exists|t: Traces, m: Nodes, root: int, labels: Seq<Seq<char>>|
            #![trigger t.describes(*log, object_type@), represents_powl(m, root, *model, labels)]
            {
                &&& t.describes(*log, object_type@)
                &&& m.wf()
                &&& distinct(labels)
                &&& represents_powl(m, root, *model, labels)
                &&& prefix_of(texts(t.activity_names@), labels)
                &&& match r {
                    None => slot_sum(
                        *log,
                        object_type@,
                        trace_allowed(t.activity_names@, model_valid(m, root, labels), model_allowed(m, root, labels), model_unlogged(m, root, labels, t.activity_names.len() as int)),
                        log.members(object_type@).len() as int,
                    ) > usize::MAX,
                    Some(rep) => precision_ok(
                        *log,
                        object_type@,
                        t.activity_names@,
                        model_valid(m, root, labels),
                        model_allowed(m, root, labels),
                        model_unlogged(m, root, labels, t.activity_names.len() as int),
                        rep,
                    ),
                }
            },
{
    let t = build(log, object_type);
    proof {
        assert forall|i: int, j: int| 0 <= i < j < t.activity_names.len() implies t.activity_names[i]@ != t.activity_names[j]@ by {
            assert(crate::trace::names_ok(*log, object_type@, t.activity_names@));
        }
    }
    let (compiled, root, symbols) = compile_model(model, &t);
    model_precision(log, object_type, &t, &compiled, root, &symbols)
}

} // verus!
