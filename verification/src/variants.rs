//! Per-type trace variants.
//!
//! A variant is the activity sequence shared by objects of one type; only
//! objects of the requested type contribute, so events shared with other
//! types cannot distort the counts.
use vstd::prelude::*;
use crate::keysort::{is_permutation, key_le, key_lt, lemma_key_lt_total, sort_by_keys, sorted_by_keys};
use crate::log::{EventLog, activities_of};
use crate::text::{name_ranks, name_seq, rank_key, ranks_of, texts, texts_lt, lemma_rank_key_order};
use crate::trace::{Step, Traces, build, step_events, act};

use crate::count::{grid_sum, row_sum, swapped, lemma_grid_transpose};

verus! {

/// One activity sequence and how many objects of the type follow it.
#[derive(Clone, Debug)]
pub struct Variant {
    /// Activity (event type) names in trace order.
    pub activities: Vec<String>,
    /// Objects whose trace is exactly this sequence.
    pub count: usize,
    /// The first object (in log order) exhibiting this variant.
    pub example: String,
}

/// Trace variants of every object of one type.
#[derive(Clone, Debug)]
pub struct VariantsReport {
    pub object_type: String,
    /// Objects of the type in the log.
    pub objects: usize,
    /// Objects with at least one linked event (only these form variants).
    pub with_events: usize,
    /// Variants sorted by descending count, ties by activity sequence.
    pub variants: Vec<Variant>,
}

/// The activities of the `s`-th object of type `ty`.
pub open spec fn member_acts(log: EventLog, ty: Seq<char>, s: int) -> Seq<Seq<char>> {
    activities_of(log, log.members(ty)[s] as int)
}

/// How many of the first `k` objects of type `ty` follow activity sequence `x`.
pub open spec fn count_acts(log: EventLog, ty: Seq<char>, x: Seq<Seq<char>>, k: int) -> nat
    decreases k,
{
    if k <= 0 {
        0
    } else {
        count_acts(log, ty, x, k - 1) + if member_acts(log, ty, k - 1) == x {
            1nat
        } else {
            0nat
        }
    }
}

/// How many of the first `k` objects of type `ty` have at least one event.
pub open spec fn count_busy(log: EventLog, ty: Seq<char>, k: int) -> nat
    decreases k,
{
    if k <= 0 {
        0
    } else {
        count_busy(log, ty, k - 1) + if member_acts(log, ty, k - 1).len() > 0 {
            1nat
        } else {
            0nat
        }
    }
}

/// Object `s` of type `ty` is the first to follow `x`.
pub open spec fn first_with(log: EventLog, ty: Seq<char>, x: Seq<Seq<char>>, s: int) -> bool {
    &&& 0 <= s < log.members(ty).len()
    &&& member_acts(log, ty, s) == x
    &&& forall|s2: int| 0 <= s2 < s ==> #[trigger] member_acts(log, ty, s2) != x
}

impl Variant {
    pub open spec fn acts(&self) -> Seq<Seq<char>> {
        texts(self.activities@)
    }
}

/// Some variant of the list follows `x`.
pub open spec fn listed(variants: Seq<Variant>, x: Seq<Seq<char>>) -> bool {
    exists|i: int| 0 <= i < variants.len() && #[trigger] variants[i].acts() == x
}

/// Variant `a` is reported before variant `b`.
pub open spec fn variant_before(a: Variant, b: Variant) -> bool {
    a.count > b.count || (a.count == b.count && texts_lt(a.acts(), b.acts()))
}

/// The report is exactly the variants of type `ty` in `log`.
pub open spec fn variants_ok(log: EventLog, ty: Seq<char>, r: VariantsReport) -> bool {
    let n = log.members(ty).len() as int;
    &&& r.object_type@ == ty
    &&& r.objects == n
    &&& r.with_events == count_busy(log, ty, n)
    &&& forall|i: int|
        0 <= i < r.variants.len() ==> {
            let v = #[trigger] r.variants[i];
            &&& v.acts().len() > 0
            &&& v.count == count_acts(log, ty, v.acts(), n)
            &&& exists|s: int| first_with(log, ty, v.acts(), s) && v.example@ == log.objects[log.members(ty)[s] as int].id@
        }
    &&& forall|s: int| 0 <= s < n && (#[trigger] member_acts(log, ty, s)).len() > 0 ==> listed(r.variants@, member_acts(log, ty, s))
    &&& forall|i: int, j: int| 0 <= i < j < r.variants.len() ==> variant_before(#[trigger] r.variants[i], #[trigger] r.variants[j])
}

/// The activity ids of a list of steps.
pub open spec fn step_ids(steps: Seq<Step>) -> Seq<usize> {
    steps.map_values(|x: Step| x.activity)
}

pub fn activity_ids(steps: &Vec<Step>) -> (r: Vec<usize>)
    ensures
        r@ == step_ids(steps@),
{
    let mut r: Vec<usize> = Vec::new();
    for k in 0..steps.len()
        invariant
            r@ == step_ids(steps@.take(k as int)),
    {
        r.push(steps[k].activity);
        assert(steps@.take(k + 1) =~= steps@.take(k as int).push(steps[k as int]));
        assert(step_ids(steps@.take(k + 1)) =~= step_ids(steps@.take(k as int)).push(steps[k as int].activity));
    }
    assert(steps@.take(steps.len() as int) =~= steps@);
    r
}

/// The same list of ids.
pub fn same_ids(a: &Vec<usize>, b: &Vec<usize>) -> (r: bool)
    ensures
        r == (a@ == b@),
{
    if a.len() != b.len() {
        return false;
    }
    let mut k: usize = 0;
    while k < a.len()
        invariant
            a.len() == b.len(),
            0 <= k <= a.len(),
            forall|j: int| 0 <= j < k ==> a[j] == b[j],
        decreases a.len() - k,
    {
        if a[k] != b[k] {
            return false;
        }
        k = k + 1;
    }
    assert(a@ =~= b@);
    true
}

/// Names of `t`'s slot `s`, read through the interned ids, are the object's
/// activities.
pub proof fn lemma_slot_acts(log: EventLog, ty: Seq<char>, t: Traces, s: int)
    requires
        t.describes(log, ty),
        0 <= s < t.steps.len(),
    ensures
        name_seq(t.activity_names@, step_ids(t.steps[s]@)) == member_acts(log, ty, s),
        forall|k: int| 0 <= k < t.steps[s].len() ==> #[trigger] step_ids(t.steps[s]@)[k] < t.activity_names.len(),
{
    let ids = step_ids(t.steps[s]@);
    let ev = step_events(t.steps[s]@);
    assert(ev == crate::log::trace_of(log, t.object_ids[s] as int));
    assert(t.object_ids@ == log.members(ty));
    assert forall|k: int| 0 <= k < ids.len() implies name_seq(t.activity_names@, ids)[k] == member_acts(log, ty, s)[k] by {
        assert(t.step_ok(log, s, k));
    }
    assert forall|k: int| 0 <= k < t.steps[s].len() implies #[trigger] step_ids(t.steps[s]@)[k] < t.activity_names.len() by {
        assert(t.step_ok(log, s, k));
    }
    assert(name_seq(t.activity_names@, ids) =~= member_acts(log, ty, s));
}

/// Grouping state after the first `s` slots.
pub open spec fn groups_inv(
    log: EventLog,
    ty: Seq<char>,
    names: Seq<String>,
    seqs: Seq<Vec<usize>>,
    counts: Seq<usize>,
    firsts: Seq<usize>,
    s: int,
) -> bool {
    &&& seqs.len() == counts.len() == firsts.len()
    &&& forall|g: int|
        0 <= g < seqs.len() ==> {
            let x = name_seq(names, #[trigger] seqs[g]@);
            &&& seqs[g]@.len() > 0
            &&& forall|k: int| 0 <= k < seqs[g]@.len() ==> #[trigger] seqs[g]@[k] < names.len()
            &&& counts[g] == count_acts(log, ty, x, s)
            &&& firsts[g] < s
            &&& first_with(log, ty, x, firsts[g] as int)
        }
    &&& forall|g1: int, g2: int| 0 <= g1 < g2 < seqs.len() ==> #[trigger] seqs[g1]@ != #[trigger] seqs[g2]@
    &&& forall|s2: int|
        0 <= s2 < s && (#[trigger] member_acts(log, ty, s2)).len() > 0 ==> exists|g: int|
            0 <= g < seqs.len() && name_seq(names, #[trigger] seqs[g]@) == member_acts(log, ty, s2)
}

pub proof fn lemma_count_acts_bound(log: EventLog, ty: Seq<char>, x: Seq<Seq<char>>, k: int)
    requires
        0 <= k,
    ensures
        count_acts(log, ty, x, k) <= k,
    decreases k,
{
    if k > 0 {
        lemma_count_acts_bound(log, ty, x, k - 1);
    }
}

proof fn lemma_count_busy_bound(log: EventLog, ty: Seq<char>, k: int)
    requires
        0 <= k,
    ensures
        count_busy(log, ty, k) <= k,
    decreases k,
{
    if k > 0 {
        lemma_count_busy_bound(log, ty, k - 1);
    }
}

proof fn lemma_count_acts_zero(log: EventLog, ty: Seq<char>, x: Seq<Seq<char>>, k: int, s: int)
    requires
        first_with(log, ty, x, s),
        0 <= k <= s,
    ensures
        count_acts(log, ty, x, k) == 0,
    decreases k,
{
    if k > 0 {
        lemma_count_acts_zero(log, ty, x, k - 1, s);
        assert(member_acts(log, ty, k - 1) != x);
    }
}

/// Group the slots `0..ns` of `t` by activity sequence.
pub fn collect_variants(log: &EventLog, ty: Ghost<Seq<char>>, t: &Traces) -> (r: (Vec<Vec<usize>>, Vec<usize>, Vec<usize>, usize))
    requires
        t.describes(*log, ty@),
    ensures
        groups_inv(*log, ty@, t.activity_names@, r.0@, r.1@, r.2@, t.steps.len() as int),
        r.3 == count_busy(*log, ty@, t.steps.len() as int),
        forall|g1: int, g2: int| 0 <= g1 < g2 < r.2.len() ==> #[trigger] r.2[g1] < #[trigger] r.2[g2],
{
    let ns = t.steps.len();
    let ghost names = t.activity_names@;
    let mut seqs: Vec<Vec<usize>> = Vec::new();
    let mut counts: Vec<usize> = Vec::new();
    let mut firsts: Vec<usize> = Vec::new();
    let mut busy: usize = 0;
    let mut s: usize = 0;
    while s < ns
        invariant
            ns == t.steps.len(),
            t.describes(*log, ty@),
            names == t.activity_names@,
            0 <= s <= ns,
            groups_inv(*log, ty@, names, seqs@, counts@, firsts@, s as int),
            busy == count_busy(*log, ty@, s as int),
            forall|g1: int, g2: int| 0 <= g1 < g2 < firsts.len() ==> #[trigger] firsts[g1] < #[trigger] firsts[g2],
        decreases ns - s,
    {
        let ids = activity_ids(&t.steps[s]);
        proof {
            lemma_slot_acts(*log, ty@, *t, s as int);
            lemma_count_busy_bound(*log, ty@, s as int);
        }
        let ghost x = member_acts(*log, ty@, s as int);
        let ghost seqs0 = seqs@;
        let ghost counts0 = counts@;
        let ghost firsts0 = firsts@;
        if ids.len() > 0 {
            busy = busy + 1;
            let mut g: usize = 0;
            while g < seqs.len() && !same_ids(&seqs[g], &ids)
                invariant
                    0 <= g <= seqs.len(),
                    seqs@ == seqs0,
                    forall|h: int| 0 <= h < g ==> seqs[h]@ != ids@,
                decreases seqs.len() - g,
            {
                g = g + 1;
            }
            if g < seqs.len() {
                proof {
                    lemma_count_acts_bound(*log, ty@, x, s as int);
                }
                let c = counts[g] + 1;
                counts.set(g, c);
                proof {
                    assert forall|h: int| 0 <= h < seqs.len() implies {
                        let y = name_seq(names, #[trigger] seqs[h]@);
                        &&& seqs[h]@.len() > 0
                        &&& forall|k: int| 0 <= k < seqs[h]@.len() ==> #[trigger] seqs[h]@[k] < names.len()
                        &&& counts[h] == count_acts(*log, ty@, y, s + 1)
                        &&& firsts[h] < s + 1
                        &&& first_with(*log, ty@, y, firsts[h] as int)
                    } by {
                        let y = name_seq(names, seqs[h]@);
                        lemma_rank_free_eq(names, seqs[h]@, ids@);
                        if h == g {
                            assert(y == x);
                        } else {
                            assert(seqs[h]@ != ids@);
                        }
                    }
                    assert forall|s2: int|
                        0 <= s2 < s + 1 && (#[trigger] member_acts(*log, ty@, s2)).len() > 0 implies exists|h: int|
                            0 <= h < seqs.len() && name_seq(names, #[trigger] seqs[h]@) == member_acts(*log, ty@, s2) by {
                        if s2 == s {
                            assert(name_seq(names, seqs[g as int]@) == x);
                        }
                    }
                }
            } else {
                let ghost gnew = seqs.len() as int;
                seqs.push(ids);
                counts.push(1);
                firsts.push(s);
                proof {
                    assert forall|g1: int, g2: int| 0 <= g1 < g2 < firsts.len() implies #[trigger] firsts[g1] < #[trigger] firsts[g2] by {
                        assert(firsts[g1] == firsts0[g1]);
                        if g2 < firsts0.len() {
                            assert(firsts[g2] == firsts0[g2]);
                        } else {
                            assert(seqs0[g1]@.len() > 0);
                            assert(firsts0[g1] < s);
                        }
                    }
                    assert forall|h: int| 0 <= h < seqs.len() implies {
                        let y = name_seq(names, #[trigger] seqs[h]@);
                        &&& seqs[h]@.len() > 0
                        &&& forall|k: int| 0 <= k < seqs[h]@.len() ==> #[trigger] seqs[h]@[k] < names.len()
                        &&& counts[h] == count_acts(*log, ty@, y, s + 1)
                        &&& firsts[h] < s + 1
                        &&& first_with(*log, ty@, y, firsts[h] as int)
                    } by {
                        let y = name_seq(names, seqs[h]@);
                        if h < gnew {
                            assert(seqs[h] == seqs0[h]);
                            lemma_rank_free_eq(names, seqs[h]@, seqs[gnew]@);
                        } else {
                            assert(y == x);
                            assert forall|s2: int| 0 <= s2 < s implies #[trigger] member_acts(*log, ty@, s2) != x by {
                                if member_acts(*log, ty@, s2) == x {
                                    let h2 = choose|h2: int|
                                        0 <= h2 < seqs0.len() && name_seq(names, #[trigger] seqs0[h2]@) == member_acts(*log, ty@, s2);
                                    lemma_rank_free_eq(names, seqs0[h2]@, ids@);
                                }
                            }
                            lemma_count_acts_zero(*log, ty@, x, s as int, s as int);
                        }
                    }
                    assert forall|g1: int, g2: int| 0 <= g1 < g2 < seqs.len() implies #[trigger] seqs[g1]@ != #[trigger] seqs[g2]@ by {
                        if g2 < gnew {
                            assert(seqs[g1] == seqs0[g1]);
                            assert(seqs[g2] == seqs0[g2]);
                        } else {
                            assert(seqs[g1] == seqs0[g1]);
                        }
                    }
                    assert forall|s2: int|
                        0 <= s2 < s + 1 && (#[trigger] member_acts(*log, ty@, s2)).len() > 0 implies exists|h: int|
                            0 <= h < seqs.len() && name_seq(names, #[trigger] seqs[h]@) == member_acts(*log, ty@, s2) by {
                        if s2 == s {
                            assert(name_seq(names, seqs[gnew]@) == x);
                        } else {
                            let h = choose|h: int|
                                0 <= h < seqs0.len() && name_seq(names, #[trigger] seqs0[h]@) == member_acts(*log, ty@, s2);
                            assert(seqs[h] == seqs0[h]);
                        }
                    }
                }
            }
        } else {
            proof {
                assert forall|h: int| 0 <= h < seqs.len() implies {
                    let y = name_seq(names, #[trigger] seqs[h]@);
                    &&& seqs[h]@.len() > 0
                    &&& forall|k: int| 0 <= k < seqs[h]@.len() ==> #[trigger] seqs[h]@[k] < names.len()
                    &&& counts[h] == count_acts(*log, ty@, y, s + 1)
                    &&& firsts[h] < s + 1
                    &&& first_with(*log, ty@, y, firsts[h] as int)
                } by {
                    let y = name_seq(names, seqs[h]@);
                    assert(x.len() == 0);
                    assert(y.len() > 0);
                }
            }
        }
        s = s + 1;
    }
    (seqs, counts, firsts, busy)
}

/// Id lists name the same sequence only when they are the same list (the
/// names are distinct).
pub proof fn lemma_rank_free_eq(names: Seq<String>, x: Seq<usize>, y: Seq<usize>)
    requires
        forall|i: int, j: int| 0 <= i < j < names.len() ==> names[i]@ != names[j]@,
        forall|k: int| 0 <= k < x.len() ==> #[trigger] x[k] < names.len(),
        forall|k: int| 0 <= k < y.len() ==> #[trigger] y[k] < names.len(),
    ensures
        (name_seq(names, x) == name_seq(names, y)) == (x == y),
{
    if name_seq(names, x) == name_seq(names, y) {
        assert(x.len() == y.len()) by {
            assert(name_seq(names, x).len() == x.len());
        }
        assert forall|k: int| 0 <= k < x.len() implies x[k] == y[k] by {
            assert(name_seq(names, x)[k] == name_seq(names, y)[k]);
            let a = x[k] as int;
            let b = y[k] as int;
            if a < b {
                assert(names[a]@ != names[b]@);
            } else if b < a {
                assert(names[b]@ != names[a]@);
            }
        }
        assert(x =~= y);
    }
}

/// The names of a list of activity ids.
pub fn names_of(names: &Vec<String>, ids: &Vec<usize>) -> (r: Vec<String>)
    requires
        forall|k: int| 0 <= k < ids.len() ==> #[trigger] ids[k] < names.len(),
    ensures
        texts(r@) == name_seq(names@, ids@),
{
    let mut r: Vec<String> = Vec::new();
    for k in 0..ids.len()
        invariant
            forall|j: int| 0 <= j < ids.len() ==> #[trigger] ids[j] < names.len(),
            texts(r@) == name_seq(names@, ids@.take(k as int)),
    {
        let ghost r0 = r@;
        let name = names[ids[k]].clone();
        r.push(name);
        proof {
            assert(name@ == names@[ids@[k as int] as int]@);
            assert(texts(r@) =~= texts(r0).push(name@));
            assert(ids@.take(k + 1) =~= ids@.take(k as int).push(ids@[k as int]));
            assert(name_seq(names@, ids@.take(k + 1)) =~= name_seq(names@, ids@.take(k as int)).push(name@));
        }
    }
    assert(ids@.take(ids.len() as int) =~= ids@);
    r
}

/// A count key followed by a name-rank key.
pub proof fn lemma_key_head(a: i128, r1: Seq<i128>, b: i128, r2: Seq<i128>)
    ensures
        key_lt(seq![a] + r1, seq![b] + r2) == (a < b || (a == b && key_lt(r1, r2))),
        (seq![a] + r1 == seq![b] + r2) == (a == b && r1 == r2),
{
    let x = seq![a] + r1;
    let y = seq![b] + r2;
    assert(x.drop_first() =~= r1);
    assert(y.drop_first() =~= r2);
    assert(x[0] == a);
    assert(y[0] == b);
    if x == y {
        assert(x.drop_first() == y.drop_first());
    }
}

/// Sort key of a variant: descending count, then names.
pub open spec fn variant_key(ranks: Seq<usize>, count: usize, ids: Seq<usize>) -> Seq<i128> {
    seq![descending(count)] + rank_key(ranks, ids)
}

/// A count as the leading key of a descending sort.
pub open spec fn descending(count: usize) -> i128 {
    (-(count as int)) as i128
}

pub fn make_key(ranks: &Vec<usize>, count: usize, ids: &Vec<usize>) -> (key: Vec<i128>)
    requires
        forall|k: int| 0 <= k < ids.len() ==> #[trigger] ids[k] < ranks.len(),
    ensures
        key@ == variant_key(ranks@, count, ids@),
{
    let mut key: Vec<i128> = Vec::new();
    let head: i128 = -(count as i128);
    assert(head == descending(count));
    key.push(head);
    for k in 0..ids.len()
        invariant
            forall|j: int| 0 <= j < ids.len() ==> #[trigger] ids[j] < ranks.len(),
            key@ == seq![descending(count)] + rank_key(ranks@, ids@.take(k as int)),
    {
        key.push(ranks[ids[k]] as i128);
        assert(rank_key(ranks@, ids@.take(k + 1)) =~= rank_key(ranks@, ids@.take(k as int)).push(ranks[ids[k as int] as int] as i128));
        assert(key@ =~= seq![descending(count)] + rank_key(ranks@, ids@.take(k + 1)));
    }
    assert(ids@.take(ids.len() as int) =~= ids@);
    key
}

proof fn lemma_report_entries(
    log: EventLog,
    ty: Seq<char>,
    names: Seq<String>,
    seqs: Seq<Vec<usize>>,
    counts: Seq<usize>,
    firsts: Seq<usize>,
    perm: Seq<usize>,
    out: Seq<Variant>,
    object_ids: Seq<usize>,
)
    requires
        object_ids == log.members(ty),
        groups_inv(log, ty, names, seqs, counts, firsts, log.members(ty).len() as int),
        is_permutation(perm, seqs.len() as nat),
        out.len() == seqs.len(),
        forall|j: int|
            0 <= j < out.len() ==> {
                let g = perm[j] as int;
                &&& (#[trigger] out[j]).acts() == name_seq(names, seqs[g]@)
                &&& out[j].count == counts[g]
                &&& out[j].example@ == log.objects[object_ids[firsts[g] as int] as int].id@
            },
    ensures
        forall|i: int|
            0 <= i < out.len() ==> {
                let v = #[trigger] out[i];
                &&& v.acts().len() > 0
                &&& v.count == count_acts(log, ty, v.acts(), log.members(ty).len() as int)
                &&& exists|s: int| first_with(log, ty, v.acts(), s) && v.example@ == log.objects[log.members(ty)[s] as int].id@
            },
{
    assert forall|i: int| 0 <= i < out.len() implies {
        let v = #[trigger] out[i];
        &&& v.acts().len() > 0
        &&& v.count == count_acts(log, ty, v.acts(), log.members(ty).len() as int)
        &&& exists|s: int| first_with(log, ty, v.acts(), s) && v.example@ == log.objects[log.members(ty)[s] as int].id@
    } by {
        let g = perm[i] as int;
        let x = name_seq(names, seqs[g]@);
        assert(out[i].acts() == x);
        assert(first_with(log, ty, x, firsts[g] as int));
        assert(seqs[g]@.len() > 0);
        assert(x.len() == seqs[g]@.len());
    }
}

proof fn lemma_report_listed(
    log: EventLog,
    ty: Seq<char>,
    names: Seq<String>,
    seqs: Seq<Vec<usize>>,
    counts: Seq<usize>,
    firsts: Seq<usize>,
    perm: Seq<usize>,
    out: Seq<Variant>,
)
    requires
        groups_inv(log, ty, names, seqs, counts, firsts, log.members(ty).len() as int),
        is_permutation(perm, seqs.len() as nat),
        out.len() == seqs.len(),
        forall|j: int| 0 <= j < out.len() ==> (#[trigger] out[j]).acts() == name_seq(names, seqs[perm[j] as int]@),
    ensures
        forall|s: int|
            0 <= s < log.members(ty).len() && (#[trigger] member_acts(log, ty, s)).len() > 0 ==> listed(out, member_acts(log, ty, s)),
{
    assert forall|s: int|
        0 <= s < log.members(ty).len() && (#[trigger] member_acts(log, ty, s)).len() > 0 implies listed(out, member_acts(log, ty, s)) by {
        let g = choose|g: int| 0 <= g < seqs.len() && name_seq(names, #[trigger] seqs[g]@) == member_acts(log, ty, s);
        assert(crate::keysort::occurs(perm, g));
        let i = choose|i: int| 0 <= i < perm.len() && perm[i] == g;
        assert(out[i].acts() == member_acts(log, ty, s));
    }
}

proof fn lemma_report_order(
    log: EventLog,
    ty: Seq<char>,
    names: Seq<String>,
    ranks: Seq<usize>,
    seqs: Seq<Vec<usize>>,
    counts: Seq<usize>,
    firsts: Seq<usize>,
    perm: Seq<usize>,
    ks: Seq<Seq<i128>>,
    out: Seq<Variant>,
)
    requires
        groups_inv(log, ty, names, seqs, counts, firsts, log.members(ty).len() as int),
        ranks_of(names, ranks),
        is_permutation(perm, seqs.len() as nat),
        sorted_by_keys(ks, perm),
        ks.len() == seqs.len(),
        forall|h: int| 0 <= h < seqs.len() ==> #[trigger] ks[h] == variant_key(ranks, counts[h], seqs[h]@),
        out.len() == seqs.len(),
        forall|j: int|
            0 <= j < out.len() ==> (#[trigger] out[j]).acts() == name_seq(names, seqs[perm[j] as int]@)
                && out[j].count == counts[perm[j] as int],
    ensures
        forall|i: int, j: int| 0 <= i < j < out.len() ==> variant_before(#[trigger] out[i], #[trigger] out[j]),
{
    assert forall|i: int, j: int| 0 <= i < j < out.len() implies variant_before(#[trigger] out[i], #[trigger] out[j]) by {
        let gi = perm[i] as int;
        let gj = perm[j] as int;
        assert(gi != gj);
        assert(key_le(ks[perm[i] as int], ks[perm[j] as int]));
        lemma_rank_key_order(names, ranks, seqs[gi]@, seqs[gj]@);
        lemma_key_head(descending(counts[gi]), rank_key(ranks, seqs[gi]@), descending(counts[gj]), rank_key(ranks, seqs[gj]@));
        lemma_key_head(descending(counts[gj]), rank_key(ranks, seqs[gj]@), descending(counts[gi]), rank_key(ranks, seqs[gi]@));
        if gi < gj {
            assert(seqs[gi]@ != seqs[gj]@);
        } else {
            assert(seqs[gj]@ != seqs[gi]@);
        }
        lemma_key_lt_total(ks[gi], ks[gj]);
    }
}

/// Compute the trace variants of `object_type`.
///
/// An event linked to the same object through several relationships counts
/// once; same-timestamp events are ordered by their position in the log.
pub fn variants(log: &EventLog, object_type: &str) -> (r: VariantsReport)
    requires
        log.wf(),
    ensures
        variants_ok(*log, object_type@, r),
{
    let t = build(log, object_type);
    let ghost ty = object_type@;
    let ns = t.steps.len();
    let (seqs, counts, firsts, busy) = collect_variants(log, Ghost(ty), &t);
    let ranks = name_ranks(&t.activity_names);
    let ghost names = t.activity_names@;
    proof {
        assert(ranks_of(names, ranks@));
    }
    let mut keys: Vec<Vec<i128>> = Vec::new();
    for g in 0..seqs.len()
        invariant
            groups_inv(*log, ty, names, seqs@, counts@, firsts@, ns as int),
            ranks@.len() == names.len(),
            keys.len() == g,
            forall|h: int| 0 <= h < g ==> #[trigger] keys[h]@ == variant_key(ranks@, counts[h], seqs[h]@),
    {
        let key = make_key(&ranks, counts[g], &seqs[g]);
        keys.push(key);
    }
    let perm = sort_by_keys(&keys);
    proof {
        crate::log::lemma_members_bound(*log, ty, log.objects.len() as int);
    }
    let ghost ks = keys@.map_values(|k: Vec<i128>| k@);
    let mut out: Vec<Variant> = Vec::new();
    let ng = seqs.len();
    for i in 0..ng
        invariant
            ng == seqs.len(),
            t.describes(*log, ty),
            names == t.activity_names@,
            groups_inv(*log, ty, names, seqs@, counts@, firsts@, ns as int),
            is_permutation(perm@, ng as nat),
            forall|s2: int| 0 <= s2 < log.members(ty).len() ==> #[trigger] log.members(ty)[s2] < log.objects.len(),
            out.len() == i,
            forall|j: int|
                0 <= j < i ==> {
                    let g = perm[j] as int;
                    &&& (#[trigger] out[j]).acts() == name_seq(names, seqs[g]@)
                    &&& out[j].count == counts[g]
                    &&& out[j].example@ == log.objects[t.object_ids[firsts[g] as int] as int].id@
                },
    {
        let g = perm[i];
        let activities = names_of(&t.activity_names, &seqs[g]);
        let example = log.objects[t.object_ids[firsts[g]]].id.clone();
        out.push(Variant { activities, count: counts[g], example });
    }
    let r = VariantsReport { object_type: object_type.to_owned(), objects: ns, with_events: busy, variants: out };
    proof {
        assert(log.members(ty).len() == ns);
        lemma_report_entries(*log, ty, names, seqs@, counts@, firsts@, perm@, r.variants@, t.object_ids@);
        lemma_report_listed(*log, ty, names, seqs@, counts@, firsts@, perm@, r.variants@);
        lemma_report_order(*log, ty, names, ranks@, seqs@, counts@, firsts@, perm@, ks, r.variants@);
    }
    r
}

/// Variant `v` is group `g`: its activities, count and first object.
pub open spec fn group_variant(
    log: EventLog,
    ty: Seq<char>,
    names: Seq<String>,
    seqs: Seq<Vec<usize>>,
    counts: Seq<usize>,
    firsts: Seq<usize>,
    g: int,
    v: Variant,
) -> bool {
    &&& 0 <= g < seqs.len()
    &&& v.acts() == name_seq(names, seqs[g]@)
    &&& v.count == counts[g]
    &&& v.example@ == log.objects[log.members(ty)[firsts[g] as int] as int].id@
}

/// Some kept group is `v`.
pub open spec fn kept_variant(
    log: EventLog,
    ty: Seq<char>,
    names: Seq<String>,
    seqs: Seq<Vec<usize>>,
    counts: Seq<usize>,
    firsts: Seq<usize>,
    keep: Seq<bool>,
    v: Variant,
) -> bool {
    exists|g: int| #[trigger] keep[g] && group_variant(log, ty, names, seqs, counts, firsts, g, v)
}

/// The kept groups as variants, by descending count, ties by names.
pub fn assemble(
    log: &EventLog,
    ty: Ghost<Seq<char>>,
    t: &Traces,
    seqs: &Vec<Vec<usize>>,
    counts: &Vec<usize>,
    firsts: &Vec<usize>,
    keep: &Vec<bool>,
) -> (out: Vec<Variant>)
    requires
        t.describes(*log, ty@),
        groups_inv(*log, ty@, t.activity_names@, seqs@, counts@, firsts@, t.steps.len() as int),
        keep.len() == seqs.len(),
    ensures
        forall|i: int| 0 <= i < out.len() ==> kept_variant(*log, ty@, t.activity_names@, seqs@, counts@, firsts@, keep@, #[trigger] out[i]),
        forall|g: int| 0 <= g < seqs.len() && #[trigger] keep[g] ==> listed(out@, name_seq(t.activity_names@, seqs[g]@)),
        forall|i: int, j: int| 0 <= i < j < out.len() ==> variant_before(#[trigger] out[i], #[trigger] out[j]),
{
    let ghost names = t.activity_names@;
    let ranks = name_ranks(&t.activity_names);
    proof {
        assert(ranks_of(names, ranks@));
    }
    let mut sel: Vec<usize> = Vec::new();
    let mut keys: Vec<Vec<i128>> = Vec::new();
    for g in 0..seqs.len()
        invariant
            groups_inv(*log, ty@, names, seqs@, counts@, firsts@, t.steps.len() as int),
            ranks@.len() == names.len(),
            keep.len() == seqs.len(),
            sel.len() == keys.len(),
            forall|h: int| 0 <= h < sel.len() ==> #[trigger] sel[h] < g && keep[sel[h] as int],
            forall|h1: int, h2: int| 0 <= h1 < h2 < sel.len() ==> #[trigger] sel[h1] < #[trigger] sel[h2],
            forall|g2: int| 0 <= g2 < g && #[trigger] keep[g2] ==> sel@.contains(g2 as usize),
            forall|h: int| 0 <= h < sel.len() ==> #[trigger] keys[h]@ == variant_key(ranks@, counts[sel[h] as int], seqs[sel[h] as int]@),
    {
        if keep[g] {
            let ghost sel0 = sel@;
            let key = make_key(&ranks, counts[g], &seqs[g]);
            keys.push(key);
            sel.push(g);
            proof {
                assert forall|g2: int| 0 <= g2 < g + 1 && #[trigger] keep[g2] implies sel@.contains(g2 as usize) by {
                    if g2 < g {
                        let h = choose|h: int| 0 <= h < sel0.len() && sel0[h] == g2 as usize;
                        assert(sel@[h] == sel0[h]);
                    } else {
                        assert(sel@[sel0.len() as int] == g);
                    }
                }
            }
        }
    }
    let perm = sort_by_keys(&keys);
    let ghost ks = keys@.map_values(|k: Vec<i128>| k@);
    proof {
        crate::log::lemma_members_bound(*log, ty@, log.objects.len() as int);
    }
    let mut out: Vec<Variant> = Vec::new();
    let m = sel.len();
    for j in 0..m
        invariant
            m == sel.len(),
            t.describes(*log, ty@),
            names == t.activity_names@,
            groups_inv(*log, ty@, names, seqs@, counts@, firsts@, t.steps.len() as int),
            is_permutation(perm@, m as nat),
            forall|h: int| 0 <= h < sel.len() ==> #[trigger] sel[h] < seqs.len() && keep[sel[h] as int],
            forall|s2: int| 0 <= s2 < log.members(ty@).len() ==> #[trigger] log.members(ty@)[s2] < log.objects.len(),
            out.len() == j,
            forall|i: int| 0 <= i < j ==> group_variant(*log, ty@, names, seqs@, counts@, firsts@, sel[perm[i] as int] as int, #[trigger] out[i]),
    {
        let g = sel[perm[j]];
        let activities = names_of(&t.activity_names, &seqs[g]);
        proof {
            assert(t.object_ids@ == log.members(ty@));
        }
        let example = log.objects[t.object_ids[firsts[g]]].id.clone();
        out.push(Variant { activities, count: counts[g], example });
    }
    proof {
        assert forall|i: int| 0 <= i < out.len() implies kept_variant(*log, ty@, names, seqs@, counts@, firsts@, keep@, #[trigger] out[i]) by {
            let g = sel[perm[i] as int] as int;
            assert(keep[g]);
            assert(group_variant(*log, ty@, names, seqs@, counts@, firsts@, g, out[i]));
        }
        assert forall|g: int| 0 <= g < seqs.len() && #[trigger] keep[g] implies listed(out@, name_seq(names, seqs[g]@)) by {
            let h = choose|h: int| 0 <= h < sel.len() && sel[h] == g as usize;
            assert(crate::keysort::occurs(perm@, h));
            let i = choose|i: int| 0 <= i < perm.len() && perm[i] == h;
            assert(group_variant(*log, ty@, names, seqs@, counts@, firsts@, sel[perm[i] as int] as int, out[i]));
            assert(out[i].acts() == name_seq(names, seqs[g]@));
        }
        assert forall|i: int, j: int| 0 <= i < j < out.len() implies variant_before(#[trigger] out[i], #[trigger] out[j]) by {
            let hi = perm[i] as int;
            let hj = perm[j] as int;
            let gi = sel[hi] as int;
            let gj = sel[hj] as int;
            assert(group_variant(*log, ty@, names, seqs@, counts@, firsts@, gi, out[i]));
            assert(group_variant(*log, ty@, names, seqs@, counts@, firsts@, gj, out[j]));
            assert(hi != hj);
            assert(gi != gj) by {
                if hi < hj {
                    assert(sel[hi] < sel[hj]);
                } else {
                    assert(sel[hj] < sel[hi]);
                }
            }
            assert(ks[hi] == keys[hi]@);
            assert(ks[hj] == keys[hj]@);
            assert(key_le(ks[perm[i] as int], ks[perm[j] as int]));
            lemma_rank_key_order(names, ranks@, seqs[gi]@, seqs[gj]@);
            lemma_key_head(descending(counts[gi]), rank_key(ranks@, seqs[gi]@), descending(counts[gj]), rank_key(ranks@, seqs[gj]@));
            lemma_key_head(descending(counts[gj]), rank_key(ranks@, seqs[gj]@), descending(counts[gi]), rank_key(ranks@, seqs[gi]@));
            if gi < gj {
                assert(seqs[gi]@ != seqs[gj]@);
            } else {
                assert(seqs[gj]@ != seqs[gi]@);
            }
            lemma_key_lt_total(ks[hi], ks[hj]);
        }
    }
    out
}

/// The counts of the first `k` variants.
pub open spec fn count_sum(vs: Seq<Variant>, k: int) -> int
    decreases k,
{
    if k <= 0 {
        0
    } else {
        count_sum(vs, k - 1) + vs[k - 1].count
    }
}

pub proof fn lemma_texts_lt_irreflexive(a: Seq<Seq<char>>)
    ensures
        !texts_lt(a, a),
    decreases a.len(),
{
    if a.len() > 0 {
        crate::text::lemma_text_lt_irreflexive(a[0]);
        lemma_texts_lt_irreflexive(a.drop_first());
    }
}

/// Variant `i` of `vs` is followed by object `s`, as 1 or 0.
pub open spec fn follows_at(log: EventLog, ty: Seq<char>, vs: Seq<Variant>) -> spec_fn(int, int) -> int {
    |i: int, s: int| if member_acts(log, ty, s) == vs[i].acts() { 1int } else { 0int }
}

pub proof fn lemma_row_count(log: EventLog, ty: Seq<char>, vs: Seq<Variant>, i: int, k: int)
    ensures
        row_sum(follows_at(log, ty, vs), i, k) == count_acts(log, ty, vs[i].acts(), k),
    decreases k,
{
    if k > 0 {
        lemma_row_count(log, ty, vs, i, k - 1);
    }
}

proof fn lemma_grid_counts(log: EventLog, ty: Seq<char>, r: VariantsReport, m: int)
    requires
        variants_ok(log, ty, r),
        0 <= m <= r.variants.len(),
    ensures
        grid_sum(follows_at(log, ty, r.variants@), m, log.members(ty).len() as int) == count_sum(r.variants@, m),
    decreases m,
{
    if m > 0 {
        lemma_grid_counts(log, ty, r, m - 1);
        lemma_row_count(log, ty, r.variants@, m - 1, log.members(ty).len() as int);
        assert(r.variants[m - 1].count == count_acts(log, ty, r.variants[m - 1].acts(), log.members(ty).len() as int));
    }
}

/// Object `s` follows variant `i0` and no other of the first `k`.
pub proof fn lemma_column_one(log: EventLog, ty: Seq<char>, vs: Seq<Variant>, s: int, i0: int, k: int)
    requires
        0 <= i0 < vs.len(),
        0 <= k <= vs.len(),
        member_acts(log, ty, s) == vs[i0].acts(),
        forall|i: int| 0 <= i < vs.len() && i != i0 ==> #[trigger] vs[i].acts() != vs[i0].acts(),
    ensures
        row_sum(swapped(follows_at(log, ty, vs)), s, k) == if i0 < k { 1int } else { 0int },
    decreases k,
{
    if k > 0 {
        lemma_column_one(log, ty, vs, s, i0, k - 1);
        if k - 1 != i0 {
            assert(vs[k - 1].acts() != vs[i0].acts());
        }
    }
}

/// Object `s` follows none of the first `k` variants.
pub proof fn lemma_column_none(log: EventLog, ty: Seq<char>, vs: Seq<Variant>, s: int, k: int)
    requires
        0 <= k <= vs.len(),
        forall|i: int| 0 <= i < vs.len() ==> #[trigger] vs[i].acts() != member_acts(log, ty, s),
    ensures
        row_sum(swapped(follows_at(log, ty, vs)), s, k) == 0,
    decreases k,
{
    if k > 0 {
        lemma_column_none(log, ty, vs, s, k - 1);
        assert(vs[k - 1].acts() != member_acts(log, ty, s));
    }
}

proof fn lemma_columns_busy(log: EventLog, ty: Seq<char>, r: VariantsReport, m: int)
    requires
        variants_ok(log, ty, r),
        0 <= m <= log.members(ty).len(),
        forall|i: int, j: int| 0 <= i < r.variants.len() && 0 <= j < r.variants.len() && i != j ==> #[trigger] r.variants[i].acts()
            != #[trigger] r.variants[j].acts(),
    ensures
        grid_sum(swapped(follows_at(log, ty, r.variants@)), m, r.variants.len() as int) == count_busy(log, ty, m),
    decreases m,
{
    if m > 0 {
        lemma_columns_busy(log, ty, r, m - 1);
        let s = m - 1;
        let vs = r.variants@;
        let v = vs.len() as int;
        if member_acts(log, ty, s).len() > 0 {
            assert(listed(vs, member_acts(log, ty, s)));
            let i0 = choose|i: int| 0 <= i < vs.len() && #[trigger] vs[i].acts() == member_acts(log, ty, s);
            assert forall|i: int| 0 <= i < vs.len() && i != i0 implies #[trigger] vs[i].acts() != vs[i0].acts() by {
                assert(r.variants[i].acts() != r.variants[i0].acts());
            }
            lemma_column_one(log, ty, vs, s, i0, v);
        } else {
            assert forall|i: int| 0 <= i < vs.len() implies #[trigger] vs[i].acts() != member_acts(log, ty, s) by {
                let w = r.variants[i];
                assert(w.acts().len() > 0);
            }
            lemma_column_none(log, ty, vs, s, v);
        }
    }
}

/// Every object with events follows exactly one reported variant: the
/// variant counts add up to the objects with events.
pub proof fn law_counts_cover_objects(log: EventLog, ty: Seq<char>, r: VariantsReport)
    requires
        variants_ok(log, ty, r),
    ensures
        count_sum(r.variants@, r.variants.len() as int) == r.with_events,
{
    let vs = r.variants@;
    let n = log.members(ty).len() as int;
    assert forall|i: int, j: int| 0 <= i < vs.len() && 0 <= j < vs.len() && i != j implies #[trigger] r.variants[i].acts()
        != #[trigger] r.variants[j].acts() by {
        if r.variants[i].acts() == r.variants[j].acts() {
            let (lo, hi) = if i < j { (i, j) } else { (j, i) };
            assert(variant_before(r.variants[lo], r.variants[hi]));
            lemma_texts_lt_irreflexive(r.variants[lo].acts());
        }
    }
    lemma_grid_counts(log, ty, r, vs.len() as int);
    lemma_grid_transpose(follows_at(log, ty, vs), vs.len() as int, n);
    lemma_columns_busy(log, ty, r, n);
}

} // verus!
