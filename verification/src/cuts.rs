//! The directly-follows abstraction the inductive and POWL miners cut on.
//!
//! A sub-log is a list of activity sequences with multiplicities. Its graph
//! holds the activities that occur, the weighted direct successions and the
//! start and end activities. Under a positive noise threshold a succession
//! below that fraction of its source's strongest outgoing succession is
//! ignored; start and end activities are kept when they reach that fraction
//! of the strongest one.
use vstd::prelude::*;
use crate::heuristics::{Ratio, at_least, reaches};

verus! {

/// An activity sequence occurring `count` times.
#[derive(Clone, Debug)]
pub struct Weighted {
    pub seq: Vec<usize>,
    pub count: usize,
}

/// The directly-follows graph of a sub-log over activities below `n`.
#[derive(Clone, Debug)]
pub struct CutGraph {
    /// The activities that occur, in increasing order.
    pub alphabet: Vec<usize>,
    /// Weighted direct successions kept, per pair (zero when absent).
    pub follows: Vec<Vec<usize>>,
    /// Start activities kept, per activity.
    pub starts: Vec<bool>,
    /// End activities kept, per activity.
    pub ends: Vec<bool>,
}

/// Positions `j` with `j + 1 < k` where `s` steps from `a` to `b`.
pub open spec fn pairs(s: Seq<usize>, a: int, b: int, k: int) -> nat
    decreases k,
{
    if k <= 1 {
        0
    } else {
        pairs(s, a, b, k - 1) + if s[k - 2] == a && s[k - 1] == b { 1nat } else { 0nat }
    }
}

/// Weighted direct successions from `a` to `b` over the first `k`
/// sequences.
pub open spec fn weighted_pairs(log: Seq<Weighted>, a: int, b: int, k: int) -> nat
    decreases k,
{
    if k <= 0 {
        0
    } else {
        weighted_pairs(log, a, b, k - 1) + (log[k - 1].count as nat) * pairs(log[k - 1].seq@, a, b, log[k - 1].seq.len() as int)
    }
}

/// Weighted sequences over the first `k` that start (`first`) or end with
/// `a`.
pub open spec fn weighted_edge(log: Seq<Weighted>, a: int, k: int, first: bool) -> nat
    decreases k,
{
    if k <= 0 {
        0
    } else {
        let s = log[k - 1].seq@;
        weighted_edge(log, a, k - 1, first) + if s.len() > 0 && (if first { s[0] } else { s.last() }) == a {
            log[k - 1].count as nat
        } else {
            0nat
        }
    }
}

/// All weighted steps over the first `k` sequences.
pub open spec fn weight(log: Seq<Weighted>, k: int) -> nat
    decreases k,
{
    if k <= 0 {
        0
    } else {
        weight(log, k - 1) + (log[k - 1].count as nat) * (log[k - 1].seq.len() as nat)
    }
}

/// Activity `a` occurs in some sequence.
pub open spec fn occurs_in(log: Seq<Weighted>, a: int) -> bool {
    exists|t: int, j: int| 0 <= t < log.len() && 0 <= j < log[t].seq.len() && log[t].seq@[j] == a
}

/// The largest of `f(x, y)` for `y < k`.
pub open spec fn max_over(f: spec_fn(int, int) -> nat, x: int, k: int) -> nat
    decreases k,
{
    if k <= 0 {
        0
    } else {
        let m = max_over(f, x, k - 1);
        if f(x, k - 1) >= m { f(x, k - 1) } else { m }
    }
}

/// Weighted successions as a function of the pair.
pub open spec fn succ_of(log: Seq<Weighted>) -> spec_fn(int, int) -> nat {
    |a: int, b: int| weighted_pairs(log, a, b, log.len() as int)
}

/// Weighted starts (`first`) or ends, as a function of the activity (the
/// first argument is ignored).
pub open spec fn edge_of(log: Seq<Weighted>, first: bool) -> spec_fn(int, int) -> nat {
    |x: int, a: int| weighted_edge(log, a, log.len() as int, first)
}

/// The successions from `a` to `b` kept under `noise` among `n`
/// activities.
pub open spec fn kept_follows(log: Seq<Weighted>, n: int, noise: Ratio, a: int, b: int) -> nat {
    let f = succ_of(log)(a, b);
    if noise.num > 0 && !at_least(f as int, max_over(succ_of(log), a, n) as int, noise) {
        0
    } else {
        f
    }
}

/// Activity `a` starts (`first`) or ends some sequence and reaches the
/// fraction `noise` of the strongest such activity among `n`.
pub open spec fn kept_edge(log: Seq<Weighted>, n: int, noise: Ratio, a: int, first: bool) -> bool {
    let c = edge_of(log, first)(0, a);
    c > 0 && at_least(c as int, max_over(edge_of(log, first), 0, n) as int, noise)
}

/// `g` is the graph of `log` over `n` activities under `noise`.
pub open spec fn graph_of(log: Seq<Weighted>, n: int, noise: Ratio, g: CutGraph) -> bool {
    &&& forall|i: int| 0 <= i < g.alphabet.len() ==> #[trigger] g.alphabet[i] < n && occurs_in(log, g.alphabet[i] as int)
    &&& forall|i: int, j: int| 0 <= i < j < g.alphabet.len() ==> #[trigger] g.alphabet[i] < #[trigger] g.alphabet[j]
    &&& forall|a: int| 0 <= a < n && occurs_in(log, a) ==> #[trigger] g.alphabet@.contains(a as usize)
    &&& g.follows.len() == n
    &&& forall|a: int| 0 <= a < n ==> #[trigger] g.follows[a].len() == n
    &&& forall|a: int, b: int| 0 <= a < n && 0 <= b < n ==> #[trigger] g.follows[a]@[b] == kept_follows(log, n, noise, a, b)
    &&& g.starts.len() == n
    &&& g.ends.len() == n
    &&& forall|a: int| 0 <= a < n ==> #[trigger] g.starts[a] == kept_edge(log, n, noise, a, true)
    &&& forall|a: int| 0 <= a < n ==> #[trigger] g.ends[a] == kept_edge(log, n, noise, a, false)
}

proof fn lemma_pairs_bound(s: Seq<usize>, a: int, b: int, k: int)
    requires
        0 <= k,
    ensures
        pairs(s, a, b, k) <= k,
    decreases k,
{
    if k > 0 {
        lemma_pairs_bound(s, a, b, k - 1);
    }
}

pub proof fn lemma_weight_monotone(log: Seq<Weighted>, k1: int, k2: int)
    requires
        0 <= k1 <= k2,
    ensures
        weight(log, k1) <= weight(log, k2),
    decreases k2 - k1,
{
    if k1 < k2 {
        lemma_weight_monotone(log, k1, k2 - 1);
    }
}

proof fn lemma_weighted_bounds(log: Seq<Weighted>, a: int, b: int, k: int)
    requires
        0 <= k <= log.len(),
    ensures
        weighted_pairs(log, a, b, k) <= weight(log, k),
        weighted_edge(log, a, k, true) <= weight(log, k),
        weighted_edge(log, a, k, false) <= weight(log, k),
    decreases k,
{
    if k > 0 {
        lemma_weighted_bounds(log, a, b, k - 1);
        let c = log[k - 1].count as nat;
        let len = log[k - 1].seq.len() as nat;
        let p = pairs(log[k - 1].seq@, a, b, len as int);
        lemma_pairs_bound(log[k - 1].seq@, a, b, len as int);
        assert(c * p <= c * len) by (nonlinear_arith)
            requires
                p <= len;
        if len > 0 {
            assert(c <= c * len) by (nonlinear_arith)
                requires
                    len >= 1;
        }
    }
}

/// Add `v` to entry `(x, y)`.
fn add_at(m: &mut Vec<Vec<usize>>, n: usize, x: usize, y: usize, v: usize)
    requires
        old(m).len() == n,
        forall|i: int| 0 <= i < n ==> #[trigger] old(m)[i].len() == n,
        x < n,
        y < n,
        old(m)[x as int]@[y as int] + v <= usize::MAX,
    ensures
        final(m).len() == n,
        forall|i: int| 0 <= i < n ==> #[trigger] final(m)[i].len() == n,
        forall|a: int, b: int| 0 <= a < n && 0 <= b < n ==> #[trigger] final(m)[a]@[b] == old(m)[a]@[b] + if a == x && b == y {
            v as int
        } else {
            0int
        },
{
    let ghost m0 = m@;
    let mut row: Vec<usize> = Vec::new();
    std::mem::swap(&mut row, &mut m[x]);
    assert(row@ == m0[x as int]@);
    assert(m0[x as int].len() == n);
    let w = row[y];
    row.set(y, w + v);
    m.set(x, row);
    proof {
        assert forall|i: int| 0 <= i < n implies #[trigger] m@[i].len() == n by {
            if i != x {
                assert(m@[i] == m0[i]);
                assert(m0[i].len() == n);
            }
        }
        assert forall|a: int, b: int| 0 <= a < n && 0 <= b < n implies #[trigger] m[a]@[b] == m0[a]@[b] + if a == x && b == y {
            v as int
        } else {
            0int
        } by {
            if a != x {
                assert(m@[a] == m0[a]);
            }
        }
    }
}

/// The weighted successions, starts and ends of `log`.
fn weigh(log: &Vec<Weighted>, n: usize) -> (r: (Vec<Vec<usize>>, Vec<usize>, Vec<usize>))
    requires
        forall|t: int, j: int| 0 <= t < log.len() && 0 <= j < log[t].seq.len() ==> #[trigger] log[t].seq@[j] < n,
        weight(log@, log.len() as int) <= usize::MAX,
    ensures
        r.0.len() == n,
        forall|a: int| 0 <= a < n ==> #[trigger] r.0[a].len() == n,
        forall|a: int, b: int| 0 <= a < n && 0 <= b < n ==> #[trigger] r.0[a]@[b] == succ_of(log@)(a, b),
        r.1.len() == n,
        r.2.len() == n,
        forall|a: int| 0 <= a < n ==> #[trigger] r.1[a] == edge_of(log@, true)(0, a),
        forall|a: int| 0 <= a < n ==> #[trigger] r.2[a] == edge_of(log@, false)(0, a),
{
    let nl = log.len();
    let mut m: Vec<Vec<usize>> = Vec::new();
    let mut st: Vec<usize> = Vec::new();
    let mut en: Vec<usize> = Vec::new();
    let mut a: usize = 0;
    while a < n
        invariant
            a <= n,
            m.len() == a,
            st.len() == a,
            en.len() == a,
            forall|i: int| 0 <= i < a ==> #[trigger] m[i].len() == n,
            forall|i: int, j: int| 0 <= i < a && 0 <= j < n ==> #[trigger] m[i]@[j] == 0,
            forall|i: int| 0 <= i < a ==> #[trigger] st[i] == 0,
            forall|i: int| 0 <= i < a ==> #[trigger] en[i] == 0,
        decreases n - a,
    {
        let mut row: Vec<usize> = Vec::new();
        let mut b: usize = 0;
        while b < n
            invariant
                b <= n,
                row.len() == b,
                forall|j: int| 0 <= j < b ==> #[trigger] row[j] == 0,
            decreases n - b,
        {
            row.push(0);
            b = b + 1;
        }
        m.push(row);
        st.push(0);
        en.push(0);
        a = a + 1;
    }
    let mut t: usize = 0;
    while t < nl
        invariant
            nl == log.len(),
            forall|t2: int, j: int| 0 <= t2 < log.len() && 0 <= j < log[t2].seq.len() ==> #[trigger] log[t2].seq@[j] < n,
            weight(log@, nl as int) <= usize::MAX,
            t <= nl,
            m.len() == n,
            forall|i: int| 0 <= i < n ==> #[trigger] m[i].len() == n,
            forall|x: int, y: int| 0 <= x < n && 0 <= y < n ==> #[trigger] m[x]@[y] == weighted_pairs(log@, x, y, t as int),
            st.len() == n,
            en.len() == n,
            forall|x: int| 0 <= x < n ==> #[trigger] st[x] == weighted_edge(log@, x, t as int, true),
            forall|x: int| 0 <= x < n ==> #[trigger] en[x] == weighted_edge(log@, x, t as int, false),
        decreases nl - t,
    {
        let seq = &log[t].seq;
        let count = log[t].count;
        let len = seq.len();
        let ghost t1 = t + 1;
        proof {
            lemma_weight_monotone(log@, t1, nl as int);
            assert forall|x: int, y: int| 0 <= x < n && 0 <= y < n implies #[trigger] m[x]@[y] == weighted_pairs(log@, x, y, t as int)
                + (count as nat) * pairs(seq@, x, y, 1) by {
                assert(pairs(seq@, x, y, 1) == 0);
                assert((count as nat) * 0 == 0) by (nonlinear_arith);
            }
        }
        let mut j: usize = 1;
        while j < len
            invariant
                nl == log.len(),
                t < nl,
                t1 == t + 1,
                seq == &log[t as int].seq,
                count == log[t as int].count,
                len == seq.len(),
                forall|j2: int| 0 <= j2 < len ==> #[trigger] seq@[j2] < n,
                weight(log@, t1) <= usize::MAX,
                1 <= j,
                j <= len || j == 1,
                m.len() == n,
                forall|i: int| 0 <= i < n ==> #[trigger] m[i].len() == n,
                forall|x: int, y: int| 0 <= x < n && 0 <= y < n ==> #[trigger] m[x]@[y] == weighted_pairs(log@, x, y, t as int)
                    + (count as nat) * pairs(seq@, x, y, j as int),
            decreases len - j,
        {
            let x = seq[j - 1];
            let y = seq[j];
            proof {
                let p = pairs(seq@, x as int, y as int, j as int);
                lemma_pairs_bound(seq@, x as int, y as int, j as int);
                lemma_weighted_bounds(log@, x as int, y as int, t as int);
                assert((count as nat) * (p + 1) <= (count as nat) * (len as nat)) by (nonlinear_arith)
                    requires
                        p + 1 <= len;
                assert((count as nat) * (p + 1) == (count as nat) * p + count) by (nonlinear_arith);
            }
            add_at(&mut m, n, x, y, count);
            proof {
                let j1 = j + 1;
                assert forall|a2: int, b2: int| 0 <= a2 < n && 0 <= b2 < n implies #[trigger] m[a2]@[b2] == weighted_pairs(log@, a2, b2, t as int)
                    + (count as nat) * pairs(seq@, a2, b2, j1 as int) by {
                    let p = pairs(seq@, a2, b2, j as int);
                    if a2 == x && b2 == y {
                        assert((count as nat) * (p + 1) == (count as nat) * p + count) by (nonlinear_arith);
                    }
                }
            }
            j = j + 1;
        }
        proof {
            assert(log@[t as int].seq@ == seq@);
            assert forall|x: int, y: int| 0 <= x < n && 0 <= y < n implies #[trigger] m[x]@[y] == weighted_pairs(log@, x, y, t1) by {
                assert(weighted_pairs(log@, x, y, t1) == weighted_pairs(log@, x, y, t as int) + (count as nat) * pairs(seq@, x, y, len as int));
                if len <= 1 {
                    assert(pairs(seq@, x, y, len as int) == 0);
                    assert(pairs(seq@, x, y, 1) == 0);
                    assert((count as nat) * 0 == 0) by (nonlinear_arith);
                }
            }
        }
        if len > 0 {
            let f = seq[0];
            let l = seq[len - 1];
            proof {
                lemma_weighted_bounds(log@, f as int, 0, t as int);
                lemma_weighted_bounds(log@, l as int, 0, t as int);
                assert((count as nat) <= (count as nat) * (len as nat)) by (nonlinear_arith)
                    requires
                        len >= 1;
            }
            st.set(f, st[f] + count);
            en.set(l, en[l] + count);
        }
        t = t + 1;
    }
    (m, st, en)
}

/// Activity `a` occurs in one of the first `t` sequences, or at one of the
/// first `j` positions of sequence `t`.
pub open spec fn occurs_before(log: Seq<Weighted>, a: int, t: int, j: int) -> bool {
    exists|t2: int, j2: int|
        0 <= t2 < log.len() && 0 <= j2 < log[t2].seq.len() && (t2 < t || (t2 == t && j2 < j)) && #[trigger] log[t2].seq@[j2] == a
}

/// Per activity below `n`: does it occur?
pub fn occurring(log: &Vec<Weighted>, n: usize) -> (flags: Vec<bool>)
    requires
        forall|t: int, j: int| 0 <= t < log.len() && 0 <= j < log[t].seq.len() ==> #[trigger] log[t].seq@[j] < n,
    ensures
        flags.len() == n,
        forall|a: int| 0 <= a < n ==> #[trigger] flags[a] == occurs_in(log@, a),
{
    let mut flags: Vec<bool> = Vec::new();
    let mut a: usize = 0;
    while a < n
        invariant
            a <= n,
            flags.len() == a,
            forall|x: int| 0 <= x < a ==> !#[trigger] flags[x],
        decreases n - a,
    {
        flags.push(false);
        a = a + 1;
    }
    let mut t: usize = 0;
    while t < log.len()
        invariant
            forall|t2: int, j: int| 0 <= t2 < log.len() && 0 <= j < log[t2].seq.len() ==> #[trigger] log[t2].seq@[j] < n,
            t <= log.len(),
            flags.len() == n,
            forall|x: int| 0 <= x < n ==> #[trigger] flags[x] == occurs_before(log@, x, t as int, 0),
        decreases log.len() - t,
    {
        let seq = &log[t].seq;
        let mut j: usize = 0;
        while j < seq.len()
            invariant
                forall|t2: int, j2: int| 0 <= t2 < log.len() && 0 <= j2 < log[t2].seq.len() ==> #[trigger] log[t2].seq@[j2] < n,
                t < log.len(),
                seq == &log[t as int].seq,
                j <= seq.len(),
                flags.len() == n,
                forall|x: int| 0 <= x < n ==> #[trigger] flags[x] == occurs_before(log@, x, t as int, j as int),
            decreases seq.len() - j,
        {
            let x = seq[j];
            let ghost f0 = flags@;
            flags.set(x, true);
            proof {
                assert forall|y: int| 0 <= y < n implies #[trigger] flags[y] == occurs_before(log@, y, t as int, j + 1) by {
                    if y == x {
                        assert(log@[t as int].seq@[j as int] == y);
                    } else {
                        assert(flags[y] == f0[y]);
                        if occurs_before(log@, y, t as int, j + 1) {
                            let (t2, j2) = choose|t2: int, j2: int|
                                0 <= t2 < log.len() && 0 <= j2 < log@[t2].seq.len() && (t2 < t || (t2 == t && j2 < j + 1)) && #[trigger] log@[t2].seq@[j2] == y;
                            assert(log@[t2].seq@[j2] == y);
                        }
                    }
                }
            }
            j = j + 1;
        }
        proof {
            assert forall|y: int| 0 <= y < n implies #[trigger] flags[y] == occurs_before(log@, y, t + 1, 0) by {
                if occurs_before(log@, y, t + 1, 0) {
                    let (t2, j2) = choose|t2: int, j2: int|
                        0 <= t2 < log.len() && 0 <= j2 < log@[t2].seq.len() && (t2 < t + 1 || (t2 == t + 1 && j2 < 0)) && #[trigger] log@[t2].seq@[j2] == y;
                    assert(log@[t2].seq@[j2] == y);
                }
                if occurs_before(log@, y, t as int, seq.len() as int) {
                    let (t2, j2) = choose|t2: int, j2: int|
                        0 <= t2 < log.len() && 0 <= j2 < log@[t2].seq.len() && (t2 < t || (t2 == t && j2 < seq.len())) && #[trigger] log@[t2].seq@[j2] == y;
                    assert(log@[t2].seq@[j2] == y);
                }
            }
        }
        t = t + 1;
    }
    proof {
        assert forall|y: int| 0 <= y < n implies #[trigger] flags[y] == occurs_in(log@, y) by {
            if occurs_in(log@, y) {
                let (t2, j2) = choose|t2: int, j2: int| 0 <= t2 < log@.len() && 0 <= j2 < log@[t2].seq.len() && log@[t2].seq@[j2] == y;
                assert(log@[t2].seq@[j2] == y);
            }
            if occurs_before(log@, y, log.len() as int, 0) {
                let (t2, j2) = choose|t2: int, j2: int|
                    0 <= t2 < log.len() && 0 <= j2 < log@[t2].seq.len() && (t2 < log.len() || (t2 == log.len() && j2 < 0)) && #[trigger] log@[t2].seq@[j2] == y;
                assert(log@[t2].seq@[j2] == y);
            }
        }
    }
    flags
}

/// The largest entry of `v`, as `max_over` reads it.
fn row_max(v: &Vec<usize>, f: Ghost<spec_fn(int, int) -> nat>, x: Ghost<int>) -> (m: usize)
    requires
        forall|y: int| 0 <= y < v.len() ==> #[trigger] v[y] == f@(x@, y),
    ensures
        m == max_over(f@, x@, v.len() as int),
{
    let mut m: usize = 0;
    let mut y: usize = 0;
    while y < v.len()
        invariant
            forall|y2: int| 0 <= y2 < v.len() ==> #[trigger] v[y2] == f@(x@, y2),
            y <= v.len(),
            m == max_over(f@, x@, y as int),
        decreases v.len() - y,
    {
        if v[y] >= m {
            m = v[y];
        }
        y = y + 1;
    }
    m
}

/// The directly-follows graph of `log` over `n` activities under `noise`.
pub fn cut_graph(log: &Vec<Weighted>, n: usize, noise: Ratio) -> (g: CutGraph)
    requires
        forall|t: int, j: int| 0 <= t < log.len() && 0 <= j < log[t].seq.len() ==> #[trigger] log[t].seq@[j] < n,
        weight(log@, log.len() as int) <= usize::MAX,
        noise.den > 0,
    ensures
        graph_of(log@, n as int, noise, g),
{
    let flags = occurring(log, n);
    let alphabet = crate::petri::flagged_ids(&flags);
    proof {
        assert forall|a: int| 0 <= a < n && occurs_in(log@, a) implies #[trigger] alphabet@.contains(a as usize) by {
            assert(flags[a]);
            assert(crate::petri::id_set(alphabet@).contains(a));
            let k = choose|k: int| 0 <= k < alphabet.len() && #[trigger] alphabet@[k] as int == a;
            assert(alphabet@[k] == a as usize);
        }
    }
    let (raw, st, en) = weigh(log, n);
    let mut follows: Vec<Vec<usize>> = Vec::new();
    let mut a: usize = 0;
    while a < n
        invariant
            noise.den > 0,
            raw.len() == n,
            forall|x: int| 0 <= x < n ==> #[trigger] raw[x].len() == n,
            forall|x: int, y: int| 0 <= x < n && 0 <= y < n ==> #[trigger] raw[x]@[y] == succ_of(log@)(x, y),
            a <= n,
            follows.len() == a,
            forall|x: int| 0 <= x < a ==> #[trigger] follows[x].len() == n,
            forall|x: int, y: int| 0 <= x < a && 0 <= y < n ==> #[trigger] follows[x]@[y] == kept_follows(log@, n as int, noise, x, y),
        decreases n - a,
    {
        assert(raw[a as int].len() == n);
        let strongest = row_max(&raw[a], Ghost(succ_of(log@)), Ghost(a as int));
        let mut row: Vec<usize> = Vec::new();
        let mut b: usize = 0;
        while b < n
            invariant
                noise.den > 0,
                raw.len() == n,
                forall|x: int| 0 <= x < n ==> #[trigger] raw[x].len() == n,
                forall|x: int, y: int| 0 <= x < n && 0 <= y < n ==> #[trigger] raw[x]@[y] == succ_of(log@)(x, y),
                a < n,
                strongest == max_over(succ_of(log@), a as int, n as int),
                b <= n,
                row.len() == b,
                forall|y: int| 0 <= y < b ==> #[trigger] row[y] == kept_follows(log@, n as int, noise, a as int, y),
            decreases n - b,
        {
            assert(raw[a as int].len() == n);
            let f = raw[a][b];
            let keep = noise.num <= 0 || reaches(f as i128, strongest as i128, noise);
            row.push(if keep { f } else { 0 });
            b = b + 1;
        }
        follows.push(row);
        a = a + 1;
    }
    let top_start = row_max(&st, Ghost(edge_of(log@, true)), Ghost(0int));
    let top_end = row_max(&en, Ghost(edge_of(log@, false)), Ghost(0int));
    let mut starts: Vec<bool> = Vec::new();
    let mut ends: Vec<bool> = Vec::new();
    let mut a: usize = 0;
    while a < n
        invariant
            noise.den > 0,
            st.len() == n,
            en.len() == n,
            forall|x: int| 0 <= x < n ==> #[trigger] st[x] == edge_of(log@, true)(0, x),
            forall|x: int| 0 <= x < n ==> #[trigger] en[x] == edge_of(log@, false)(0, x),
            top_start == max_over(edge_of(log@, true), 0, n as int),
            top_end == max_over(edge_of(log@, false), 0, n as int),
            a <= n,
            starts.len() == a,
            ends.len() == a,
            forall|x: int| 0 <= x < a ==> #[trigger] starts[x] == kept_edge(log@, n as int, noise, x, true),
            forall|x: int| 0 <= x < a ==> #[trigger] ends[x] == kept_edge(log@, n as int, noise, x, false),
        decreases n - a,
    {
        starts.push(st[a] > 0 && reaches(st[a] as i128, top_start as i128, noise));
        ends.push(en[a] > 0 && reaches(en[a] as i128, top_end as i128, noise));
        a = a + 1;
    }
    CutGraph { alphabet, follows, starts, ends }
}

} // verus!
