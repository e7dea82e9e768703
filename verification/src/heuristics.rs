//! Heuristics miner: per-type dependency graph discovery, the noise-robust
//! tier.
//!
//! Classic dependency measures over one object type's traces: direct
//! succession counts become dependency values, and only edges at or above
//! the thresholds survive. Length-1 and length-2 loops get their own
//! measures, so short loops are kept where the alpha algorithm fails. The
//! output is graph-shaped and states what the measures support, nothing
//! more.
//!
//! Thresholds and measures are exact fractions: a measure `x / y` reaches a
//! threshold `p / q` when `x * q >= p * y`.
use vstd::prelude::*;
use crate::count::{grid_sum, row_sum, zero_at, lemma_grid_add, lemma_grid_le, lemma_grid_point, lemma_grid_zero};
use crate::dfg::{act_count, busy_slots, edge_count, lemma_key_three, lemma_members_len, lemma_total_steps_bound, total_steps};
use crate::keysort::{is_permutation, key_le, occurs, sort_by_keys};
use crate::log::EventLog;
use crate::text::{name_ranks, ranks_of, text_lt, lemma_rank_pair};
use crate::trace::{Step, Traces, build};
use crate::variants::descending;

verus! {

/// A threshold `num / den`; `den` is positive.
#[derive(Clone, Copy, Debug, PartialEq, Eq)]
pub struct Ratio {
    pub num: i32,
    pub den: u32,
}

/// A measure `num / den`; `den` is positive.
#[derive(Clone, Copy, Debug, PartialEq, Eq)]
pub struct Fraction {
    pub num: i128,
    pub den: i128,
}

/// Tunable thresholds of [`heuristics`].
#[derive(Clone, Copy, Debug)]
pub struct HeuristicsParams {
    /// Minimum dependency value for an edge; higher keeps only relations
    /// the log rarely contradicts.
    pub dependency_threshold: Ratio,
    /// Minimum length-2 loop measure for an `a ⇄ b` pair.
    pub loop2_threshold: Ratio,
    /// Pre-cleaning: a succession whose count is below this fraction of the
    /// weaker endpoint's strongest succession is dropped before any measure
    /// is computed (a non-positive value disables it).
    pub dfg_noise_threshold: Ratio,
    /// Edges observed fewer times than this are dropped.
    pub min_edge_frequency: usize,
    /// Activities observed fewer times than this are dropped, and their
    /// edges with them.
    pub min_activity_frequency: usize,
}

impl HeuristicsParams {
    /// Every threshold has a positive denominator.
    pub open spec fn wf(self) -> bool {
        &&& self.dependency_threshold.den > 0
        &&& self.loop2_threshold.den > 0
        &&& self.dfg_noise_threshold.den > 0
    }
}

impl Default for HeuristicsParams {
    /// Dependency and length-2 thresholds of one half, pre-cleaning at one
    /// twentieth, and no frequency floors beyond one.
    fn default() -> (p: HeuristicsParams)
        ensures
            p.wf(),
            p.dependency_threshold == (Ratio { num: 1, den: 2 }),
            p.loop2_threshold == (Ratio { num: 1, den: 2 }),
            p.dfg_noise_threshold == (Ratio { num: 1, den: 20 }),
            p.min_edge_frequency == 1,
            p.min_activity_frequency == 1,
    {
        HeuristicsParams {
            dependency_threshold: Ratio { num: 1, den: 2 },
            loop2_threshold: Ratio { num: 1, den: 2 },
            dfg_noise_threshold: Ratio { num: 1, den: 20 },
            min_edge_frequency: 1,
            min_activity_frequency: 1,
        }
    }
}

/// One activity node of the dependency graph.
#[derive(Clone, Debug)]
pub struct HeuristicActivity {
    pub activity: String,
    /// Trace steps with this activity.
    pub frequency: usize,
    /// Traces starting here.
    pub starts: usize,
    /// Traces ending here.
    pub ends: usize,
}

/// A directed dependency edge.
#[derive(Clone, Debug)]
pub struct HeuristicEdge {
    pub from: String,
    pub to: String,
    /// Direct-succession occurrences (after pre-cleaning).
    pub frequency: usize,
    /// The measure that admitted the edge: plain dependency for `a → b`,
    /// the length-1 measure for self-loops, the length-2 measure for pairs.
    pub dependency: Fraction,
}

/// The dependency graph of one object type.
#[derive(Clone, Debug)]
pub struct HeuristicsNet {
    pub object_type: String,
    pub objects: usize,
    pub with_events: usize,
    /// Nodes sorted by descending frequency, ties by activity name.
    pub activities: Vec<HeuristicActivity>,
    /// Edges sorted by descending frequency, ties by (from, to).
    pub edges: Vec<HeuristicEdge>,
    /// Observed direct successions the kept edges explain.
    pub covered_successions: usize,
    /// All observed direct successions, before any cleaning.
    pub total_successions: usize,
}

/// `num / den` reaches the threshold `t`.
pub open spec fn at_least(num: int, den: int, t: Ratio) -> bool {
    num * t.den >= t.num * den
}

/// Positions `j` with `j + 1 < k` where `row` steps from `a` to `b`.
pub open spec fn row_succ(row: Seq<Step>, a: int, b: int, k: int) -> nat
    decreases k,
{
    if k <= 1 {
        0
    } else {
        row_succ(row, a, b, k - 1) + if row[k - 2].activity == a && row[k - 1].activity == b {
            1nat
        } else {
            0nat
        }
    }
}

/// Direct successions from `a` to `b` over the first `s` slots.
pub open spec fn succ_upto(steps: Seq<Vec<Step>>, a: int, b: int, s: int) -> nat
    decreases s,
{
    if s <= 0 {
        0
    } else {
        succ_upto(steps, a, b, s - 1) + row_succ(steps[s - 1]@, a, b, steps[s - 1].len() as int)
    }
}

/// Direct successions from `a` to `b`.
pub open spec fn succ(steps: Seq<Vec<Step>>, a: int, b: int) -> nat {
    succ_upto(steps, a, b, steps.len() as int)
}

/// Positions `j` with `j + 2 < k` where `row` reads `a b a`, `a != b`.
pub open spec fn row_aba(row: Seq<Step>, a: int, b: int, k: int) -> nat
    decreases k,
{
    if k <= 2 {
        0
    } else {
        row_aba(row, a, b, k - 1) + if a != b && row[k - 3].activity == a && row[k - 2].activity == b && row[k - 1].activity
            == a {
            1nat
        } else {
            0nat
        }
    }
}

/// `a b a` patterns over the first `s` slots.
pub open spec fn aba_upto(steps: Seq<Vec<Step>>, a: int, b: int, s: int) -> nat
    decreases s,
{
    if s <= 0 {
        0
    } else {
        aba_upto(steps, a, b, s - 1) + row_aba(steps[s - 1]@, a, b, steps[s - 1].len() as int)
    }
}

/// `a b a` patterns, `a != b`.
pub open spec fn aba(steps: Seq<Vec<Step>>, a: int, b: int) -> nat {
    aba_upto(steps, a, b, steps.len() as int)
}

/// All direct successions over the first `s` slots.
pub open spec fn succ_total(steps: Seq<Vec<Step>>, s: int) -> nat
    decreases s,
{
    if s <= 0 {
        0
    } else {
        succ_total(steps, s - 1) + if steps[s - 1].len() > 0 {
            (steps[s - 1].len() - 1) as nat
        } else {
            0nat
        }
    }
}

/// `m` is an `n × n` matrix.
pub open spec fn square(m: Seq<Vec<usize>>, n: int) -> bool {
    m.len() == n && forall|i: int| 0 <= i < n ==> #[trigger] m[i].len() == n
}

proof fn lemma_row_succ_bound(row: Seq<Step>, a: int, b: int, k: int)
    requires
        0 <= k,
    ensures
        row_succ(row, a, b, k) <= k,
        row_aba(row, a, b, k) <= k,
    decreases k,
{
    if k > 0 {
        lemma_row_succ_bound(row, a, b, k - 1);
    }
}

proof fn lemma_succ_bound(steps: Seq<Vec<Step>>, a: int, b: int, s: int)
    requires
        0 <= s <= steps.len(),
    ensures
        succ_upto(steps, a, b, s) <= total_steps(steps, s),
        aba_upto(steps, a, b, s) <= total_steps(steps, s),
        succ_total(steps, s) <= total_steps(steps, s),
    decreases s,
{
    if s > 0 {
        lemma_succ_bound(steps, a, b, s - 1);
        lemma_row_succ_bound(steps[s - 1]@, a, b, steps[s - 1].len() as int);
    }
}

/// An `n × n` matrix of zeros.
fn zeros(n: usize) -> (m: Vec<Vec<usize>>)
    ensures
        square(m@, n as int),
        forall|a: int, b: int| 0 <= a < n && 0 <= b < n ==> #[trigger] m[a]@[b] == 0,
        mat_total(m@, n as int, n as int) == 0,
{
    let mut m: Vec<Vec<usize>> = Vec::new();
    let mut a: usize = 0;
    while a < n
        invariant
            a <= n,
            m.len() == a,
            forall|i: int| 0 <= i < a ==> #[trigger] m[i].len() == n,
            forall|i: int, j: int| 0 <= i < a && 0 <= j < n ==> #[trigger] m[i]@[j] == 0,
        decreases n - a,
    {
        let mut row: Vec<usize> = Vec::new();
        let mut b: usize = 0;
        while b < n
            invariant
                b <= n,
                row.len() == b,
                forall|j: int| 0 <= j < b ==> #[trigger] row[j] == 0,
            decreases n - b,
        {
            row.push(0);
            b = b + 1;
        }
        m.push(row);
        a = a + 1;
    }
    proof {
        lemma_mat_total_zero(m@, n as int, n as int);
    }
    m
}

/// Add one to entry `(x, y)`.
fn bump(m: &mut Vec<Vec<usize>>, n: usize, x: usize, y: usize)
    requires
        square(old(m)@, n as int),
        x < n,
        y < n,
        old(m)[x as int]@[y as int] < usize::MAX,
    ensures
        square(final(m)@, n as int),
        forall|a: int, b: int| 0 <= a < n && 0 <= b < n ==> #[trigger] final(m)[a]@[b] == old(m)[a]@[b] + if a == x && b == y {
            1int
        } else {
            0int
        },
        mat_total(final(m)@, n as int, n as int) == mat_total(old(m)@, n as int, n as int) + 1,
{
    let ghost m0 = m@;
    let mut row: Vec<usize> = Vec::new();
    std::mem::swap(&mut row, &mut m[x]);
    assert(row@ == m0[x as int]@);
    assert(m0[x as int].len() == n);
    let v = row[y];
    row.set(y, v + 1);
    m.set(x, row);
    proof {
        assert forall|i: int| 0 <= i < n implies #[trigger] m@[i].len() == n by {
            if i != x {
                assert(m@[i] == m0[i]);
                assert(m0[i].len() == n);
            }
        }
        assert forall|a: int, b: int| 0 <= a < n && 0 <= b < n implies #[trigger] m[a]@[b] == m0[a]@[b] + if a == x && b == y {
            1int
        } else {
            0int
        } by {
            if a != x {
                assert(m@[a] == m0[a]);
            }
        }
        lemma_row_total_bump(m0[x as int]@, m@[x as int]@, y as int, n as int);
        lemma_mat_total_bump(m0, m@, n as int, x as int, n as int);
    }
}

/// Per pair of activities below `n`: direct successions and `a b a`
/// patterns; and all direct successions.
fn tally(t: &Traces, n: usize) -> (r: (Vec<Vec<usize>>, Vec<Vec<usize>>, usize))
    requires
        forall|s: int, k: int| 0 <= s < t.steps.len() && 0 <= k < t.steps[s].len() ==> #[trigger] t.steps[s]@[k].activity < n,
        total_steps(t.steps@, t.steps.len() as int) <= usize::MAX,
    ensures
        square(r.0@, n as int),
        square(r.1@, n as int),
        forall|a: int, b: int| 0 <= a < n && 0 <= b < n ==> #[trigger] r.0[a]@[b] == succ(t.steps@, a, b),
        forall|a: int, b: int| 0 <= a < n && 0 <= b < n ==> #[trigger] r.1[a]@[b] == aba(t.steps@, a, b),
        r.2 == succ_total(t.steps@, t.steps.len() as int),
        mat_total(r.0@, n as int, n as int) == r.2,
{
    let ghost steps = t.steps@;
    let ns = t.steps.len();
    let mut sm = zeros(n);
    let mut am = zeros(n);
    let mut total: usize = 0;
    let mut s: usize = 0;
    while s < ns
        invariant
            ns == t.steps.len(),
            steps == t.steps@,
            forall|s2: int, k: int| 0 <= s2 < ns && 0 <= k < steps[s2].len() ==> #[trigger] steps[s2]@[k].activity < n,
            total_steps(steps, ns as int) <= usize::MAX,
            s <= ns,
            square(sm@, n as int),
            square(am@, n as int),
            forall|a: int, b: int| 0 <= a < n && 0 <= b < n ==> #[trigger] sm[a]@[b] == succ_upto(steps, a, b, s as int),
            forall|a: int, b: int| 0 <= a < n && 0 <= b < n ==> #[trigger] am[a]@[b] == aba_upto(steps, a, b, s as int),
            total == succ_total(steps, s as int),
            mat_total(sm@, n as int, n as int) == total,
        decreases ns - s,
    {
        let row = &t.steps[s];
        let len = row.len();
        let ghost s1 = s + 1;
        proof {
            crate::dfg::lemma_total_steps_monotone(steps, s1, ns as int);
            assert(steps[s as int]@ == row@);
            lemma_succ_bound(steps, 0, 0, s as int);
        }
        let mut k: usize = 0;
        while k < len
            invariant
                ns == t.steps.len(),
                steps == t.steps@,
                s < ns,
                s1 == s + 1,
                row == &t.steps[s as int],
                steps[s as int]@ == row@,
                len == row.len(),
                forall|k2: int| 0 <= k2 < len ==> #[trigger] row@[k2].activity < n,
                total_steps(steps, s1) <= usize::MAX,
                total_steps(steps, s1) == total_steps(steps, s as int) + len,
                k <= len,
                square(sm@, n as int),
                square(am@, n as int),
                forall|a: int, b: int| 0 <= a < n && 0 <= b < n ==> #[trigger] sm[a]@[b] == succ_upto(steps, a, b, s as int) + row_succ(row@, a, b, k as int),
                forall|a: int, b: int| 0 <= a < n && 0 <= b < n ==> #[trigger] am[a]@[b] == aba_upto(steps, a, b, s as int) + row_aba(row@, a, b, k as int),
                total == succ_total(steps, s as int) + if k > 0 { k - 1 } else { 0 },
                mat_total(sm@, n as int, n as int) == total,
                succ_total(steps, s as int) <= total_steps(steps, s as int),
            decreases len - k,
        {
            let ghost k1 = k + 1;
            if k >= 1 {
                let x = row[k - 1].activity;
                let y = row[k].activity;
                proof {
                    lemma_succ_bound(steps, x as int, y as int, s as int);
                    lemma_row_succ_bound(row@, x as int, y as int, k as int);
                }
                bump(&mut sm, n, x, y);
                total = total + 1;
            }
            if k >= 2 {
                let x = row[k - 2].activity;
                let y = row[k - 1].activity;
                if x != y && row[k].activity == x {
                    proof {
                        lemma_succ_bound(steps, x as int, y as int, s as int);
                        lemma_row_succ_bound(row@, x as int, y as int, k as int);
                    }
                    bump(&mut am, n, x, y);
                }
            }
            proof {
                assert forall|a: int, b: int| 0 <= a < n && 0 <= b < n implies #[trigger] sm[a]@[b] == succ_upto(steps, a, b, s as int) + row_succ(row@, a, b, k1) by {}
                assert forall|a: int, b: int| 0 <= a < n && 0 <= b < n implies #[trigger] am[a]@[b] == aba_upto(steps, a, b, s as int) + row_aba(row@, a, b, k1) by {}
            }
            k = k + 1;
        }
        s = s + 1;
    }
    (sm, am, total)
}

/// The strongest succession touching `x` (either way) among activities
/// below `k`.
pub open spec fn succ_max(steps: Seq<Vec<Step>>, x: int, k: int) -> nat
    decreases k,
{
    if k <= 0 {
        0
    } else {
        let m = succ_max(steps, x, k - 1);
        let out = succ(steps, x, k - 1);
        let inn = succ(steps, k - 1, x);
        let c = if out >= inn { out } else { inn };
        if c >= m { c } else { m }
    }
}

/// Successions from `a` to `b` after pre-cleaning among `n` activities:
/// with a positive noise threshold, a count below that fraction of the
/// weaker endpoint's strongest succession becomes zero.
pub open spec fn cleaned(steps: Seq<Vec<Step>>, n: int, p: HeuristicsParams, a: int, b: int) -> nat {
    let f = succ(steps, a, b);
    let ma = succ_max(steps, a, n);
    let mb = succ_max(steps, b, n);
    let weaker = if ma <= mb { ma } else { mb };
    if p.dfg_noise_threshold.num > 0 && !at_least(f as int, weaker as int, p.dfg_noise_threshold) {
        0
    } else {
        f
    }
}

/// Activity `a` is frequent enough to stay.
pub open spec fn kept(steps: Seq<Vec<Step>>, p: HeuristicsParams, a: int) -> bool {
    act_count(steps, a, steps.len() as int) >= p.min_activity_frequency
}

/// Numerator of the plain measure of `a → b`: the length-1 measure
/// `c / (c + 1)` for a self-loop, `(f - r) / (f + r + 1)` otherwise.
pub open spec fn plain_num(steps: Seq<Vec<Step>>, n: int, p: HeuristicsParams, a: int, b: int) -> int {
    if a == b {
        cleaned(steps, n, p, a, a) as int
    } else {
        cleaned(steps, n, p, a, b) - cleaned(steps, n, p, b, a)
    }
}

pub open spec fn plain_den(steps: Seq<Vec<Step>>, n: int, p: HeuristicsParams, a: int, b: int) -> int {
    if a == b {
        cleaned(steps, n, p, a, a) + 1int
    } else {
        cleaned(steps, n, p, a, b) + cleaned(steps, n, p, b, a) + 1int
    }
}

/// The plain measure admits `a → b`.
pub open spec fn plain_ok(steps: Seq<Vec<Step>>, n: int, p: HeuristicsParams, a: int, b: int) -> bool {
    let f = cleaned(steps, n, p, a, b);
    &&& f > 0
    &&& f >= p.min_edge_frequency
    &&& kept(steps, p, a)
    &&& kept(steps, p, b)
    &&& at_least(plain_num(steps, n, p, a, b), plain_den(steps, n, p, a, b), p.dependency_threshold)
}

/// `a b a` and `b a b` patterns together.
pub open spec fn loop_len(steps: Seq<Vec<Step>>, a: int, b: int) -> nat {
    aba(steps, a, b) + aba(steps, b, a)
}

/// The length-2 measure `l / (l + 1)` admits `a → b`: plain dependency
/// admitted neither direction of the pair.
pub open spec fn loop2_ok(steps: Seq<Vec<Step>>, n: int, p: HeuristicsParams, a: int, b: int) -> bool {
    let f = cleaned(steps, n, p, a, b);
    let l = loop_len(steps, a, b);
    &&& a != b
    &&& l > 0
    &&& kept(steps, p, a)
    &&& kept(steps, p, b)
    &&& !plain_ok(steps, n, p, a, b)
    &&& !plain_ok(steps, n, p, b, a)
    &&& at_least(l as int, l + 1int, p.loop2_threshold)
    &&& f > 0
    &&& f >= p.min_edge_frequency
}

/// The edge `a → b` is kept.
pub open spec fn accepted(steps: Seq<Vec<Step>>, n: int, p: HeuristicsParams, a: int, b: int) -> bool {
    plain_ok(steps, n, p, a, b) || loop2_ok(steps, n, p, a, b)
}

/// The measure that admitted `a → b`, as (numerator, denominator).
pub open spec fn measure(steps: Seq<Vec<Step>>, n: int, p: HeuristicsParams, a: int, b: int) -> (int, int) {
    if plain_ok(steps, n, p, a, b) {
        (plain_num(steps, n, p, a, b), plain_den(steps, n, p, a, b))
    } else {
        (loop_len(steps, a, b) as int, loop_len(steps, a, b) + 1int)
    }
}

/// Whether `num / den` reaches `t`, for the magnitudes the measures take.
pub(crate) fn reaches(num: i128, den: i128, t: Ratio) -> (r: bool)
    requires
        -0x4_0000_0000_0000_0000 <= num <= 0x4_0000_0000_0000_0000,
        0 <= den <= 0x4_0000_0000_0000_0000,
    ensures
        r == at_least(num as int, den as int, t),
{
    let q = t.den as i128;
    let p = t.num as i128;
    assert(-0x4_0000_0000_0000_0000 * 0x1_0000_0000 <= num * q <= 0x4_0000_0000_0000_0000 * 0x1_0000_0000) by (nonlinear_arith)
        requires
            -0x4_0000_0000_0000_0000 <= num <= 0x4_0000_0000_0000_0000,
            0 <= q <= 0x1_0000_0000;
    assert(-0x8000_0000 * 0x4_0000_0000_0000_0000 <= p * den <= 0x8000_0000 * 0x4_0000_0000_0000_0000) by (nonlinear_arith)
        requires
            0 <= den <= 0x4_0000_0000_0000_0000,
            -0x8000_0000 <= p <= 0x8000_0000;
    num * q >= p * den
}

/// Per activity: its strongest succession either way.
fn strongest(sm: &Vec<Vec<usize>>, n: usize, steps: Ghost<Seq<Vec<Step>>>) -> (mx: Vec<usize>)
    requires
        square(sm@, n as int),
        forall|a: int, b: int| 0 <= a < n && 0 <= b < n ==> #[trigger] sm[a]@[b] == succ(steps@, a, b),
    ensures
        mx.len() == n,
        forall|x: int| 0 <= x < n ==> #[trigger] mx[x] == succ_max(steps@, x, n as int),
{
    let mut mx: Vec<usize> = Vec::new();
    let mut x: usize = 0;
    while x < n
        invariant
            square(sm@, n as int),
            forall|a: int, b: int| 0 <= a < n && 0 <= b < n ==> #[trigger] sm[a]@[b] == succ(steps@, a, b),
            x <= n,
            mx.len() == x,
            forall|z: int| 0 <= z < x ==> #[trigger] mx[z] == succ_max(steps@, z, n as int),
        decreases n - x,
    {
        let mut m: usize = 0;
        let mut y: usize = 0;
        assert(sm[x as int].len() == n);
        while y < n
            invariant
                square(sm@, n as int),
                forall|a: int, b: int| 0 <= a < n && 0 <= b < n ==> #[trigger] sm[a]@[b] == succ(steps@, a, b),
                x < n,
                y <= n,
                m == succ_max(steps@, x as int, y as int),
            decreases n - y,
        {
            assert(sm[y as int].len() == n);
            assert(sm[x as int].len() == n);
            let out = sm[x][y];
            let inn = sm[y][x];
            let c = if out >= inn { out } else { inn };
            if c >= m {
                m = c;
            }
            y = y + 1;
        }
        mx.push(m);
        x = x + 1;
    }
    mx
}

/// Successions after pre-cleaning, per pair.
fn cleaned_matrix(sm: &Vec<Vec<usize>>, n: usize, p: &HeuristicsParams, steps: Ghost<Seq<Vec<Step>>>) -> (c: Vec<Vec<usize>>)
    requires
        p.wf(),
        square(sm@, n as int),
        forall|a: int, b: int| 0 <= a < n && 0 <= b < n ==> #[trigger] sm[a]@[b] == succ(steps@, a, b),
    ensures
        square(c@, n as int),
        forall|a: int, b: int| 0 <= a < n && 0 <= b < n ==> #[trigger] c[a]@[b] == cleaned(steps@, n as int, *p, a, b),
        forall|a: int, b: int| 0 <= a < n && 0 <= b < n ==> #[trigger] c[a]@[b] <= sm[a]@[b],
{
    let mx = strongest(sm, n, steps);
    let t = p.dfg_noise_threshold;
    let mut c: Vec<Vec<usize>> = Vec::new();
    let mut a: usize = 0;
    while a < n
        invariant
            p.wf(),
            t == p.dfg_noise_threshold,
            square(sm@, n as int),
            forall|x: int, y: int| 0 <= x < n && 0 <= y < n ==> #[trigger] sm[x]@[y] == succ(steps@, x, y),
            mx.len() == n,
            forall|x: int| 0 <= x < n ==> #[trigger] mx[x] == succ_max(steps@, x, n as int),
            a <= n,
            c.len() == a,
            forall|x: int| 0 <= x < a ==> #[trigger] c[x].len() == n,
            forall|x: int, y: int| 0 <= x < a && 0 <= y < n ==> #[trigger] c[x]@[y] == cleaned(steps@, n as int, *p, x, y),
            forall|x: int, y: int| 0 <= x < a && 0 <= y < n ==> #[trigger] c[x]@[y] <= sm[x]@[y],
        decreases n - a,
    {
        let mut row: Vec<usize> = Vec::new();
        let mut b: usize = 0;
        assert(sm[a as int].len() == n);
        while b < n
            invariant
                p.wf(),
                t == p.dfg_noise_threshold,
                square(sm@, n as int),
                forall|x: int, y: int| 0 <= x < n && 0 <= y < n ==> #[trigger] sm[x]@[y] == succ(steps@, x, y),
                mx.len() == n,
                forall|x: int| 0 <= x < n ==> #[trigger] mx[x] == succ_max(steps@, x, n as int),
                a < n,
                b <= n,
                row.len() == b,
                forall|y: int| 0 <= y < b ==> #[trigger] row[y] == cleaned(steps@, n as int, *p, a as int, y),
                forall|y: int| 0 <= y < b ==> #[trigger] row[y] <= sm[a as int]@[y],
            decreases n - b,
        {
            assert(sm[a as int].len() == n);
            let f = sm[a][b];
            let weaker = if mx[a] <= mx[b] { mx[a] } else { mx[b] };
            let keep = t.num <= 0 || reaches(f as i128, weaker as i128, t);
            row.push(if keep { f } else { 0 });
            b = b + 1;
        }
        c.push(row);
        a = a + 1;
    }
    c
}

/// Sum of the first `k` entries of `r`.
pub open spec fn row_total(r: Seq<usize>, k: int) -> int
    decreases k,
{
    if k <= 0 {
        0
    } else {
        row_total(r, k - 1) + r[k - 1]
    }
}

/// Sum of the first `k` rows of `m`, each over its first `n` entries.
pub open spec fn mat_total(m: Seq<Vec<usize>>, n: int, k: int) -> int
    decreases k,
{
    if k <= 0 {
        0
    } else {
        mat_total(m, n, k - 1) + row_total(m[k - 1]@, n)
    }
}

proof fn lemma_row_total_bump(r: Seq<usize>, r2: Seq<usize>, y: int, k: int)
    requires
        r.len() == r2.len(),
        0 <= y < r.len(),
        0 <= k <= r.len(),
        r2[y] == r[y] + 1,
        forall|j: int| 0 <= j < r.len() && j != y ==> r2[j] == r[j],
    ensures
        row_total(r2, k) == row_total(r, k) + if y < k { 1int } else { 0int },
    decreases k,
{
    if k > 0 {
        lemma_row_total_bump(r, r2, y, k - 1);
    }
}

proof fn lemma_mat_total_bump(m: Seq<Vec<usize>>, m2: Seq<Vec<usize>>, n: int, x: int, k: int)
    requires
        m.len() == m2.len(),
        0 <= x < m.len(),
        0 <= k <= m.len(),
        row_total(m2[x]@, n) == row_total(m[x]@, n) + 1,
        forall|i: int| 0 <= i < m.len() && i != x ==> m2[i]@ == m[i]@,
    ensures
        mat_total(m2, n, k) == mat_total(m, n, k) + if x < k { 1int } else { 0int },
    decreases k,
{
    if k > 0 {
        lemma_mat_total_bump(m, m2, n, x, k - 1);
    }
}

proof fn lemma_row_total_zero(r: Seq<usize>, k: int)
    requires
        0 <= k <= r.len(),
        forall|j: int| 0 <= j < k ==> r[j] == 0,
    ensures
        row_total(r, k) == 0,
    decreases k,
{
    if k > 0 {
        lemma_row_total_zero(r, k - 1);
    }
}

proof fn lemma_mat_total_zero(m: Seq<Vec<usize>>, n: int, k: int)
    requires
        square(m, n),
        0 <= k <= n,
        forall|a: int, b: int| 0 <= a < n && 0 <= b < n ==> #[trigger] m[a]@[b] == 0,
    ensures
        mat_total(m, n, k) == 0,
    decreases k,
{
    if k > 0 {
        lemma_mat_total_zero(m, n, k - 1);
        assert(m[k - 1].len() == n);
        lemma_row_total_zero(m[k - 1]@, n);
    }
}

proof fn lemma_mat_total_monotone(m: Seq<Vec<usize>>, n: int, k1: int, k2: int)
    requires
        0 <= k1 <= k2,
    ensures
        mat_total(m, n, k1) <= mat_total(m, n, k2),
    decreases k2 - k1,
{
    if k1 < k2 {
        lemma_mat_total_monotone(m, n, k1, k2 - 1);
        lemma_row_total_nonneg(m[k2 - 1]@, n);
    }
}

proof fn lemma_row_total_nonneg(r: Seq<usize>, k: int)
    ensures
        row_total(r, k) >= 0,
    decreases k,
{
    if k > 0 {
        lemma_row_total_nonneg(r, k - 1);
    }
}

/// Successions the kept edges `a → y`, `y < k`, explain.
pub open spec fn cov_row(steps: Seq<Vec<Step>>, n: int, p: HeuristicsParams, a: int, k: int) -> nat
    decreases k,
{
    if k <= 0 {
        0
    } else {
        cov_row(steps, n, p, a, k - 1) + if accepted(steps, n, p, a, k - 1) {
            cleaned(steps, n, p, a, k - 1)
        } else {
            0nat
        }
    }
}

/// Successions the kept edges leaving the first `k` activities explain.
pub open spec fn cov_rows(steps: Seq<Vec<Step>>, n: int, p: HeuristicsParams, k: int) -> nat
    decreases k,
{
    if k <= 0 {
        0
    } else {
        cov_rows(steps, n, p, k - 1) + cov_row(steps, n, p, k - 1, n)
    }
}

/// The plain measure of `a → b` and whether it admits the edge.
fn plain_check(
    c: &Vec<Vec<usize>>,
    counts: &Vec<usize>,
    n: usize,
    p: &HeuristicsParams,
    a: usize,
    b: usize,
    steps: Ghost<Seq<Vec<Step>>>,
) -> (r: (bool, i128, i128))
    requires
        p.wf(),
        square(c@, n as int),
        forall|x: int, y: int| 0 <= x < n && 0 <= y < n ==> #[trigger] c[x]@[y] == cleaned(steps@, n as int, *p, x, y),
        counts.len() == n,
        forall|x: int| 0 <= x < n ==> #[trigger] counts[x] == act_count(steps@, x, steps@.len() as int),
        a < n,
        b < n,
    ensures
        r.0 == plain_ok(steps@, n as int, *p, a as int, b as int),
        r.1 == plain_num(steps@, n as int, *p, a as int, b as int),
        r.2 == plain_den(steps@, n as int, *p, a as int, b as int),
{
    assert(c[a as int].len() == n);
    assert(c[b as int].len() == n);
    let f = c[a][b];
    let (num, den): (i128, i128) = if a == b {
        (f as i128, f as i128 + 1)
    } else {
        let r = c[b][a];
        (f as i128 - r as i128, f as i128 + r as i128 + 1)
    };
    let ok = f > 0 && f >= p.min_edge_frequency && counts[a] >= p.min_activity_frequency
        && counts[b] >= p.min_activity_frequency && reaches(num, den, p.dependency_threshold);
    (ok, num, den)
}

/// The kept edges in order of their activity ids, with their cleaned
/// frequencies and admitting measures, and the successions they explain.
fn accept_list(
    sm: &Vec<Vec<usize>>,
    c: &Vec<Vec<usize>>,
    am: &Vec<Vec<usize>>,
    counts: &Vec<usize>,
    n: usize,
    p: &HeuristicsParams,
    steps: Ghost<Seq<Vec<Step>>>,
) -> (r: (Vec<usize>, Vec<usize>, Vec<usize>, Vec<Fraction>, usize))
    requires
        p.wf(),
        square(sm@, n as int),
        square(c@, n as int),
        square(am@, n as int),
        forall|x: int, y: int| 0 <= x < n && 0 <= y < n ==> #[trigger] c[x]@[y] == cleaned(steps@, n as int, *p, x, y),
        forall|x: int, y: int| 0 <= x < n && 0 <= y < n ==> #[trigger] c[x]@[y] <= sm[x]@[y],
        forall|x: int, y: int| 0 <= x < n && 0 <= y < n ==> #[trigger] am[x]@[y] == aba(steps@, x, y),
        mat_total(sm@, n as int, n as int) <= usize::MAX,
        counts.len() == n,
        forall|x: int| 0 <= x < n ==> #[trigger] counts[x] == act_count(steps@, x, steps@.len() as int),
    ensures
        r.1.len() == r.0.len(),
        r.2.len() == r.0.len(),
        r.3.len() == r.0.len(),
        forall|e: int| 0 <= e < r.0.len() ==> {
            &&& #[trigger] r.0[e] < n
            &&& r.1[e] < n
            &&& accepted(steps@, n as int, *p, r.0[e] as int, r.1[e] as int)
            &&& r.2[e] == cleaned(steps@, n as int, *p, r.0[e] as int, r.1[e] as int)
            &&& r.3[e].num == measure(steps@, n as int, *p, r.0[e] as int, r.1[e] as int).0
            &&& r.3[e].den == measure(steps@, n as int, *p, r.0[e] as int, r.1[e] as int).1
        },
        forall|x: int, y: int| 0 <= x < n && 0 <= y < n && #[trigger] accepted(steps@, n as int, *p, x, y) ==> exists|e: int|
            0 <= e < r.0.len() && r.0[e] == x && #[trigger] r.1[e] == y,
        forall|e1: int, e2: int| 0 <= e1 < e2 < r.0.len() ==> #[trigger] r.0[e1] != #[trigger] r.0[e2] || r.1[e1] != r.1[e2],
        r.4 == cov_rows(steps@, n as int, *p, n as int),
{
    let mut from: Vec<usize> = Vec::new();
    let mut to: Vec<usize> = Vec::new();
    let mut freq: Vec<usize> = Vec::new();
    let mut meas: Vec<Fraction> = Vec::new();
    let mut covered: usize = 0;
    let mut a: usize = 0;
    while a < n
        invariant
            p.wf(),
            square(sm@, n as int),
            square(c@, n as int),
            square(am@, n as int),
            forall|x: int, y: int| 0 <= x < n && 0 <= y < n ==> #[trigger] c[x]@[y] == cleaned(steps@, n as int, *p, x, y),
            forall|x: int, y: int| 0 <= x < n && 0 <= y < n ==> #[trigger] c[x]@[y] <= sm[x]@[y],
            forall|x: int, y: int| 0 <= x < n && 0 <= y < n ==> #[trigger] am[x]@[y] == aba(steps@, x, y),
            mat_total(sm@, n as int, n as int) <= usize::MAX,
            counts.len() == n,
            forall|x: int| 0 <= x < n ==> #[trigger] counts[x] == act_count(steps@, x, steps@.len() as int),
            a <= n,
            to.len() == from.len(),
            freq.len() == from.len(),
            meas.len() == from.len(),
            forall|e: int| 0 <= e < from.len() ==> {
                &&& #[trigger] from[e] < a
                &&& to[e] < n
                &&& accepted(steps@, n as int, *p, from[e] as int, to[e] as int)
                &&& freq[e] == cleaned(steps@, n as int, *p, from[e] as int, to[e] as int)
                &&& meas[e].num == measure(steps@, n as int, *p, from[e] as int, to[e] as int).0
                &&& meas[e].den == measure(steps@, n as int, *p, from[e] as int, to[e] as int).1
            },
            forall|x: int, y: int| 0 <= x < a && 0 <= y < n && #[trigger] accepted(steps@, n as int, *p, x, y) ==> exists|e: int|
                0 <= e < from.len() && from[e] == x && #[trigger] to[e] == y,
            forall|e1: int, e2: int| 0 <= e1 < e2 < from.len() ==> #[trigger] from[e1] < #[trigger] from[e2] || (from[e1] == from[e2] && to[e1] < to[e2]),
            covered == cov_rows(steps@, n as int, *p, a as int),
            covered <= mat_total(sm@, n as int, a as int),
        decreases n - a,
    {
        let mut b: usize = 0;
        let ghost base = covered as int;
        proof {
            lemma_mat_total_monotone(sm@, n as int, a + 1, n as int);
            assert(sm[a as int].len() == n);
        }
        while b < n
            invariant
                p.wf(),
                square(sm@, n as int),
                square(c@, n as int),
                square(am@, n as int),
                forall|x: int, y: int| 0 <= x < n && 0 <= y < n ==> #[trigger] c[x]@[y] == cleaned(steps@, n as int, *p, x, y),
                forall|x: int, y: int| 0 <= x < n && 0 <= y < n ==> #[trigger] c[x]@[y] <= sm[x]@[y],
                forall|x: int, y: int| 0 <= x < n && 0 <= y < n ==> #[trigger] am[x]@[y] == aba(steps@, x, y),
                mat_total(sm@, n as int, a + 1) <= usize::MAX,
                mat_total(sm@, n as int, a + 1) == mat_total(sm@, n as int, a as int) + row_total(sm[a as int]@, n as int),
                counts.len() == n,
                forall|x: int| 0 <= x < n ==> #[trigger] counts[x] == act_count(steps@, x, steps@.len() as int),
                a < n,
                b <= n,
                to.len() == from.len(),
                freq.len() == from.len(),
                meas.len() == from.len(),
                forall|e: int| 0 <= e < from.len() ==> {
                    &&& #[trigger] from[e] <= a
                    &&& to[e] < n
                    &&& (from[e] == a ==> to[e] < b)
                    &&& accepted(steps@, n as int, *p, from[e] as int, to[e] as int)
                    &&& freq[e] == cleaned(steps@, n as int, *p, from[e] as int, to[e] as int)
                    &&& meas[e].num == measure(steps@, n as int, *p, from[e] as int, to[e] as int).0
                    &&& meas[e].den == measure(steps@, n as int, *p, from[e] as int, to[e] as int).1
                },
                forall|x: int, y: int|
                    0 <= x < n && 0 <= y < n && (x < a || (x == a && y < b)) && #[trigger] accepted(steps@, n as int, *p, x, y) ==> exists|e: int|
                        0 <= e < from.len() && from[e] == x && #[trigger] to[e] == y,
                forall|e1: int, e2: int| 0 <= e1 < e2 < from.len() ==> #[trigger] from[e1] < #[trigger] from[e2] || (from[e1] == from[e2] && to[e1] < to[e2]),
                base == cov_rows(steps@, n as int, *p, a as int),
                base <= mat_total(sm@, n as int, a as int),
                covered == base + cov_row(steps@, n as int, *p, a as int, b as int),
                cov_row(steps@, n as int, *p, a as int, b as int) <= row_total(sm[a as int]@, b as int),
            decreases n - b,
        {
            let (ok, num, den) = plain_check(c, counts, n, p, a, b, steps);
            let mut keep = ok;
            let mut mnum = num;
            let mut mden = den;
            if !ok && a != b {
                let (back, _, _) = plain_check(c, counts, n, p, b, a, steps);
                assert(am[a as int].len() == n);
                assert(am[b as int].len() == n);
                assert(c[a as int].len() == n);
                let l = am[a][b] as i128 + am[b][a] as i128;
                let f = c[a][b];
                if l > 0 && !back && counts[a] >= p.min_activity_frequency && counts[b] >= p.min_activity_frequency
                    && f > 0 && f >= p.min_edge_frequency && reaches(l, l + 1, p.loop2_threshold) {
                    keep = true;
                    mnum = l;
                    mden = l + 1;
                }
            }
            proof {
                assert(c[a as int].len() == n);
                lemma_row_total_nonneg(sm[a as int]@, b as int);
                lemma_row_total_prefix(sm[a as int]@, b as int + 1, n as int);
            }
            if keep {
                assert(c[a as int].len() == n);
                let f = c[a][b];
                let ghost fr0 = from@;
                let ghost to0 = to@;
                from.push(a);
                to.push(b);
                freq.push(f);
                meas.push(Fraction { num: mnum, den: mden });
                covered = covered + f;
                proof {
                    assert forall|x: int, y: int|
                        0 <= x < n && 0 <= y < n && (x < a || (x == a && y < b + 1)) && #[trigger] accepted(steps@, n as int, *p, x, y) implies exists|e: int|
                            0 <= e < from.len() && from[e] == x && #[trigger] to[e] == y by {
                        if x == a && y == b {
                            assert(from[from.len() - 1] == x && to[from.len() - 1] == y);
                        } else {
                            let e = choose|e: int| 0 <= e < fr0.len() && fr0[e] == x && #[trigger] to0[e] == y;
                            assert(from[e] == fr0[e] && to[e] == to0[e]);
                        }
                    }
                }
            }
            b = b + 1;
        }
        proof {
            lemma_mat_total_monotone(sm@, n as int, a + 1, n as int);
        }
        a = a + 1;
    }
    (from, to, freq, meas, covered)
}

proof fn lemma_row_total_prefix(r: Seq<usize>, k1: int, k2: int)
    requires
        0 <= k1 <= k2,
    ensures
        row_total(r, k1) <= row_total(r, k2),
    decreases k2 - k1,
{
    if k1 < k2 {
        lemma_row_total_prefix(r, k1, k2 - 1);
    }
}

/// Node `v` is activity `a`'s.
pub open spec fn activity_of(steps: Seq<Vec<Step>>, names: Seq<String>, a: int, v: HeuristicActivity) -> bool {
    let s = steps.len() as int;
    &&& v.activity@ == names[a]@
    &&& v.frequency == act_count(steps, a, s)
    &&& v.starts == edge_count(steps, a, s, true)
    &&& v.ends == edge_count(steps, a, s, false)
}

/// Activity `a` has steps and is frequent enough to stay.
pub open spec fn shown(steps: Seq<Vec<Step>>, p: HeuristicsParams, a: int) -> bool {
    act_count(steps, a, steps.len() as int) > 0 && kept(steps, p, a)
}

/// `v` is the node of a shown activity.
pub open spec fn some_activity(steps: Seq<Vec<Step>>, names: Seq<String>, p: HeuristicsParams, v: HeuristicActivity) -> bool {
    exists|a: int| 0 <= a < names.len() && shown(steps, p, a) && #[trigger] activity_of(steps, names, a, v)
}

/// Some node of `vs` is activity `a`'s.
pub open spec fn listed_activity(steps: Seq<Vec<Step>>, names: Seq<String>, a: int, vs: Seq<HeuristicActivity>) -> bool {
    exists|j: int| 0 <= j < vs.len() && #[trigger] activity_of(steps, names, a, vs[j])
}

/// `v` sorts before `w`: more frequent, or as frequent and a smaller name.
pub open spec fn activity_before(v: HeuristicActivity, w: HeuristicActivity) -> bool {
    v.frequency > w.frequency || (v.frequency == w.frequency && text_lt(v.activity@, w.activity@))
}

/// Edge `x` is the kept edge `a → b`.
pub open spec fn edge_of(steps: Seq<Vec<Step>>, names: Seq<String>, p: HeuristicsParams, a: int, b: int, x: HeuristicEdge) -> bool {
    let n = names.len() as int;
    &&& x.from@ == names[a]@
    &&& x.to@ == names[b]@
    &&& x.frequency == cleaned(steps, n, p, a, b)
    &&& x.dependency.num == measure(steps, n, p, a, b).0
    &&& x.dependency.den == measure(steps, n, p, a, b).1
}

/// `x` is the edge of a kept pair.
pub open spec fn some_edge(steps: Seq<Vec<Step>>, names: Seq<String>, p: HeuristicsParams, x: HeuristicEdge) -> bool {
    exists|a: int, b: int|
        0 <= a < names.len() && 0 <= b < names.len() && accepted(steps, names.len() as int, p, a, b) && #[trigger] edge_of(steps, names, p, a, b, x)
}

/// Some edge of `xs` is the kept edge `a → b`.
pub open spec fn listed_edge(steps: Seq<Vec<Step>>, names: Seq<String>, p: HeuristicsParams, a: int, b: int, xs: Seq<HeuristicEdge>) -> bool {
    exists|j: int| 0 <= j < xs.len() && #[trigger] edge_of(steps, names, p, a, b, xs[j])
}

/// `x` sorts before `y`: more frequent, or as frequent and smaller (from,
/// to) names.
pub open spec fn edge_before(x: HeuristicEdge, y: HeuristicEdge) -> bool {
    ||| x.frequency > y.frequency
    ||| (x.frequency == y.frequency && text_lt(x.from@, y.from@))
    ||| (x.frequency == y.frequency && x.from@ == y.from@ && text_lt(x.to@, y.to@))
}

/// `r` is the heuristics net of the traces `t` of type `ty` under `p`.
pub open spec fn net_of(t: Traces, ty: Seq<char>, p: HeuristicsParams, r: HeuristicsNet) -> bool {
    let steps = t.steps@;
    let names = t.activity_names@;
    let n = names.len() as int;
    &&& r.object_type@ == ty
    &&& r.objects == steps.len()
    &&& r.with_events == busy_slots(steps, steps.len() as int)
    &&& forall|j: int| 0 <= j < r.activities.len() ==> some_activity(steps, names, p, #[trigger] r.activities[j])
    &&& forall|a: int| 0 <= a < n && shown(steps, p, a) ==> #[trigger] listed_activity(steps, names, a, r.activities@)
    &&& forall|i: int, j: int| 0 <= i < j < r.activities.len() ==> activity_before(#[trigger] r.activities[i], #[trigger] r.activities[j])
    &&& forall|j: int| 0 <= j < r.edges.len() ==> some_edge(steps, names, p, #[trigger] r.edges[j])
    &&& forall|a: int, b: int| 0 <= a < n && 0 <= b < n && accepted(steps, n, p, a, b) ==> #[trigger] listed_edge(steps, names, p, a, b, r.edges@)
    &&& forall|i: int, j: int| 0 <= i < j < r.edges.len() ==> edge_before(#[trigger] r.edges[i], #[trigger] r.edges[j])
    &&& r.covered_successions == cov_rows(steps, n, p, n)
    &&& r.total_successions == succ_total(steps, steps.len() as int)
}

/// The nodes of the shown activities, in node order.
fn net_activities(
    t: &Traces,
    ranks: &Vec<usize>,
    p: &HeuristicsParams,
    counts: &Vec<usize>,
    starts: &Vec<usize>,
    ends: &Vec<usize>,
) -> (vs: Vec<HeuristicActivity>)
    requires
        ranks_of(t.activity_names@, ranks@),
        counts.len() == t.activity_names.len(),
        starts.len() == t.activity_names.len(),
        ends.len() == t.activity_names.len(),
        forall|b: int| 0 <= b < t.activity_names.len() ==> #[trigger] counts[b] == act_count(t.steps@, b, t.steps.len() as int),
        forall|b: int| 0 <= b < t.activity_names.len() ==> #[trigger] starts[b] == edge_count(t.steps@, b, t.steps.len() as int, true),
        forall|b: int| 0 <= b < t.activity_names.len() ==> #[trigger] ends[b] == edge_count(t.steps@, b, t.steps.len() as int, false),
    ensures
        forall|j: int| 0 <= j < vs.len() ==> some_activity(t.steps@, t.activity_names@, *p, #[trigger] vs[j]),
        forall|a: int| 0 <= a < t.activity_names.len() && shown(t.steps@, *p, a) ==> #[trigger] listed_activity(
            t.steps@,
            t.activity_names@,
            a,
            vs@,
        ),
        forall|i: int, j: int| 0 <= i < j < vs.len() ==> activity_before(#[trigger] vs[i], #[trigger] vs[j]),
{
    let ghost steps = t.steps@;
    let ghost names = t.activity_names@;
    let n = t.activity_names.len();
    let mut ids: Vec<usize> = Vec::new();
    let mut keys: Vec<Vec<i128>> = Vec::new();
    let mut a: usize = 0;
    while a < n
        invariant
            n == names.len(),
            names == t.activity_names@,
            steps == t.steps@,
            ranks@.len() == n,
            counts.len() == n,
            forall|b: int| 0 <= b < n ==> #[trigger] counts[b] == act_count(steps, b, steps.len() as int),
            a <= n,
            keys.len() == ids.len(),
            forall|c: int| 0 <= c < ids.len() ==> #[trigger] ids[c] < a && shown(steps, *p, ids[c] as int),
            forall|c1: int, c2: int| 0 <= c1 < c2 < ids.len() ==> #[trigger] ids[c1] < #[trigger] ids[c2],
            forall|b: int| 0 <= b < a && shown(steps, *p, b) ==> exists|c: int| 0 <= c < ids.len() && #[trigger] ids[c] == b,
            forall|c: int| 0 <= c < ids.len() ==> #[trigger] keys[c]@ == seq![descending(counts[ids[c] as int]), ranks@[ids[c] as int] as i128],
        decreases n - a,
    {
        if counts[a] > 0 && counts[a] >= p.min_activity_frequency {
            let ghost i0 = ids@;
            ids.push(a);
            let d: i128 = 0 - (counts[a] as i128);
            keys.push(vec![d, ranks[a] as i128]);
            proof {
                assert forall|b: int| 0 <= b < a + 1 && shown(steps, *p, b) implies exists|c: int| 0 <= c < ids.len() && #[trigger] ids[c] == b by {
                    if b == a {
                        assert(ids[ids.len() - 1] == b);
                    } else {
                        let c = choose|c: int| 0 <= c < i0.len() && #[trigger] i0[c] == b;
                        assert(ids[c] == i0[c]);
                    }
                }
            }
        }
        a = a + 1;
    }
    let perm = sort_by_keys(&keys);
    let ghost ks = keys@.map_values(|k: Vec<i128>| k@);
    let mut vs: Vec<HeuristicActivity> = Vec::new();
    let mut j: usize = 0;
    while j < perm.len()
        invariant
            is_permutation(perm@, ids.len() as nat),
            forall|c: int| 0 <= c < ids.len() ==> #[trigger] ids[c] < n,
            n == names.len(),
            names == t.activity_names@,
            steps == t.steps@,
            counts.len() == n,
            starts.len() == n,
            ends.len() == n,
            forall|b: int| 0 <= b < n ==> #[trigger] counts[b] == act_count(steps, b, steps.len() as int),
            forall|b: int| 0 <= b < n ==> #[trigger] starts[b] == edge_count(steps, b, steps.len() as int, true),
            forall|b: int| 0 <= b < n ==> #[trigger] ends[b] == edge_count(steps, b, steps.len() as int, false),
            j <= perm.len(),
            vs.len() == j,
            forall|h: int| 0 <= h < j ==> #[trigger] activity_of(steps, names, ids[perm[h] as int] as int, vs[h]),
        decreases perm.len() - j,
    {
        let b = ids[perm[j]];
        vs.push(HeuristicActivity { activity: t.activity_names[b].clone(), frequency: counts[b], starts: starts[b], ends: ends[b] });
        j = j + 1;
    }
    proof {
        assert forall|j2: int| 0 <= j2 < vs.len() implies some_activity(steps, names, *p, #[trigger] vs[j2]) by {
            let b = ids[perm[j2] as int] as int;
            assert(activity_of(steps, names, b, vs[j2]));
        }
        assert forall|b: int| 0 <= b < names.len() && shown(steps, *p, b) implies #[trigger] listed_activity(steps, names, b, vs@) by {
            let c = choose|c: int| 0 <= c < ids.len() && #[trigger] ids[c] == b;
            assert(occurs(perm@, c));
            let h = choose|h: int| 0 <= h < perm.len() && perm[h] == c;
            assert(activity_of(steps, names, b, vs[h]));
        }
        assert forall|i: int, j2: int| 0 <= i < j2 < vs.len() implies activity_before(#[trigger] vs[i], #[trigger] vs[j2]) by {
            let ci = perm[i] as int;
            let cj = perm[j2] as int;
            let bi = ids[ci] as int;
            let bj = ids[cj] as int;
            assert(key_le(ks[ci], ks[cj]));
            assert(activity_of(steps, names, bi, vs[i]));
            assert(activity_of(steps, names, bj, vs[j2]));
            crate::dfg::lemma_key_two(descending(counts[bi]), ranks@[bi] as i128, descending(counts[bj]), ranks@[bj] as i128);
            crate::dfg::lemma_key_two(descending(counts[bj]), ranks@[bj] as i128, descending(counts[bi]), ranks@[bi] as i128);
            lemma_rank_pair(names, ranks@, bi, bj);
            assert(ci != cj);
            if ci < cj {
                assert(bi < bj);
            } else {
                assert(bj < bi);
            }
        }
    }
    vs
}

/// The kept edges, in edge order.
fn net_edges(
    t: &Traces,
    ranks: &Vec<usize>,
    p: &HeuristicsParams,
    from: &Vec<usize>,
    to: &Vec<usize>,
    freq: &Vec<usize>,
    meas: &Vec<Fraction>,
) -> (edges: Vec<HeuristicEdge>)
    requires
        ranks_of(t.activity_names@, ranks@),
        to.len() == from.len(),
        freq.len() == from.len(),
        meas.len() == from.len(),
        forall|e: int| 0 <= e < from.len() ==> {
            let n = t.activity_names.len() as int;
            &&& #[trigger] from[e] < n
            &&& to[e] < n
            &&& accepted(t.steps@, n, *p, from[e] as int, to[e] as int)
            &&& freq[e] == cleaned(t.steps@, n, *p, from[e] as int, to[e] as int)
            &&& meas[e].num == measure(t.steps@, n, *p, from[e] as int, to[e] as int).0
            &&& meas[e].den == measure(t.steps@, n, *p, from[e] as int, to[e] as int).1
        },
        forall|x: int, y: int|
            0 <= x < t.activity_names.len() && 0 <= y < t.activity_names.len() && #[trigger] accepted(t.steps@, t.activity_names.len() as int, *p, x, y)
                ==> exists|e: int| 0 <= e < from.len() && from[e] == x && #[trigger] to[e] == y,
        forall|e1: int, e2: int| 0 <= e1 < e2 < from.len() ==> #[trigger] from[e1] != #[trigger] from[e2] || to[e1] != to[e2],
    ensures
        forall|j: int| 0 <= j < edges.len() ==> some_edge(t.steps@, t.activity_names@, *p, #[trigger] edges[j]),
        forall|a: int, b: int|
            0 <= a < t.activity_names.len() && 0 <= b < t.activity_names.len() && accepted(t.steps@, t.activity_names.len() as int, *p, a, b)
                ==> #[trigger] listed_edge(t.steps@, t.activity_names@, *p, a, b, edges@),
        forall|i: int, j: int| 0 <= i < j < edges.len() ==> edge_before(#[trigger] edges[i], #[trigger] edges[j]),
{
    let ghost steps = t.steps@;
    let ghost names = t.activity_names@;
    let n = t.activity_names.len();
    let ne = from.len();
    let mut keys: Vec<Vec<i128>> = Vec::new();
    let mut e: usize = 0;
    while e < ne
        invariant
            ne == from.len(),
            to.len() == ne,
            freq.len() == ne,
            ranks@.len() == n,
            n == t.activity_names.len(),
            forall|e2: int| 0 <= e2 < ne ==> #[trigger] from[e2] < n && to[e2] < n,
            e <= ne,
            keys.len() == e,
            forall|e2: int| 0 <= e2 < e ==> #[trigger] keys[e2]@ == seq![
                descending(freq[e2]),
                ranks@[from[e2] as int] as i128,
                ranks@[to[e2] as int] as i128,
            ],
        decreases ne - e,
    {
        let d: i128 = 0 - (freq[e] as i128);
        keys.push(vec![d, ranks[from[e]] as i128, ranks[to[e]] as i128]);
        e = e + 1;
    }
    let perm = sort_by_keys(&keys);
    let ghost ks = keys@.map_values(|k: Vec<i128>| k@);
    let mut edges: Vec<HeuristicEdge> = Vec::new();
    let mut j: usize = 0;
    while j < ne
        invariant
            ne == from.len(),
            to.len() == ne,
            freq.len() == ne,
            meas.len() == ne,
            names == t.activity_names@,
            steps == t.steps@,
            n == names.len(),
            is_permutation(perm@, ne as nat),
            forall|e2: int| 0 <= e2 < ne ==> {
                &&& #[trigger] from[e2] < n
                &&& to[e2] < n
                &&& accepted(steps, n as int, *p, from[e2] as int, to[e2] as int)
                &&& freq[e2] == cleaned(steps, n as int, *p, from[e2] as int, to[e2] as int)
                &&& meas[e2].num == measure(steps, n as int, *p, from[e2] as int, to[e2] as int).0
                &&& meas[e2].den == measure(steps, n as int, *p, from[e2] as int, to[e2] as int).1
            },
            j <= ne,
            edges.len() == j,
            forall|h: int| 0 <= h < j ==> #[trigger] edge_of(steps, names, *p, from[perm[h] as int] as int, to[perm[h] as int] as int, edges[h]),
        decreases ne - j,
    {
        let c = perm[j];
        let x = from[c];
        let y = to[c];
        edges.push(HeuristicEdge {
            from: t.activity_names[x].clone(),
            to: t.activity_names[y].clone(),
            frequency: freq[c],
            dependency: meas[c],
        });
        j = j + 1;
    }
    proof {
        assert forall|j2: int| 0 <= j2 < edges.len() implies some_edge(steps, names, *p, #[trigger] edges[j2]) by {
            let c = perm[j2] as int;
            assert(edge_of(steps, names, *p, from[c] as int, to[c] as int, edges[j2]));
        }
        assert forall|a: int, b: int|
            0 <= a < names.len() && 0 <= b < names.len() && accepted(steps, n as int, *p, a, b) implies #[trigger] listed_edge(steps, names, *p, a, b, edges@) by {
            let c = choose|c: int| 0 <= c < ne && from[c] == a && #[trigger] to[c] == b;
            assert(occurs(perm@, c));
            let h = choose|h: int| 0 <= h < perm.len() && perm[h] == c;
            assert(edge_of(steps, names, *p, a, b, edges[h]));
        }
        assert forall|i: int, j2: int| 0 <= i < j2 < edges.len() implies edge_before(#[trigger] edges[i], #[trigger] edges[j2]) by {
            let ci = perm[i] as int;
            let cj = perm[j2] as int;
            assert(key_le(ks[ci], ks[cj]));
            assert(edge_of(steps, names, *p, from[ci] as int, to[ci] as int, edges[i]));
            assert(edge_of(steps, names, *p, from[cj] as int, to[cj] as int, edges[j2]));
            lemma_key_three(
                descending(freq[ci]), ranks@[from[ci] as int] as i128, ranks@[to[ci] as int] as i128,
                descending(freq[cj]), ranks@[from[cj] as int] as i128, ranks@[to[cj] as int] as i128,
            );
            lemma_key_three(
                descending(freq[cj]), ranks@[from[cj] as int] as i128, ranks@[to[cj] as int] as i128,
                descending(freq[ci]), ranks@[from[ci] as int] as i128, ranks@[to[ci] as int] as i128,
            );
            lemma_rank_pair(names, ranks@, from[ci] as int, from[cj] as int);
            lemma_rank_pair(names, ranks@, to[ci] as int, to[cj] as int);
            assert(ci != cj);
            if ci < cj {
                assert(from[ci] != from[cj] || to[ci] != to[cj]);
            } else {
                assert(from[cj] != from[ci] || to[cj] != to[ci]);
            }
        }
    }
    edges
}

/// Discover the heuristics dependency graph of `object_type` under the
/// thresholds `params`. Objects without events take no part.
pub fn heuristics(log: &EventLog, object_type: &str, params: &HeuristicsParams) -> (r: HeuristicsNet)
    requires
        log.wf(),
        params.wf(),
        log.objects.len() * log.events.len() <= usize::MAX,
    ensures
        exists|t: Traces| #[trigger] t.describes(*log, object_type@) && net_of(t, object_type@, *params, r),
{
    let t = build(log, object_type);
    let ghost steps = t.steps@;
    let n = t.activity_names.len();
    proof {
        assert forall|s: int, k: int| 0 <= s < t.steps.len() && 0 <= k < t.steps[s].len() implies #[trigger] t.steps[s]@[k].activity < t.activity_names.len() by {
            assert(t.step_ok(*log, s, k));
        }
        lemma_members_len(*log, object_type@, log.objects.len() as int);
        assert(t.object_ids@ == log.members(object_type@));
        lemma_total_steps_bound(*log, object_type@, t, t.steps.len() as int);
        assert(t.steps.len() * log.events.len() <= log.objects.len() * log.events.len()) by (nonlinear_arith)
            requires
                t.steps.len() <= log.objects.len();
    }
    let (counts, _objects, starts, ends) = crate::dfg::node_counts(&t, n);
    let (sm, am, total) = tally(&t, n);
    proof {
        lemma_succ_bound(steps, 0, 0, steps.len() as int);
    }
    let c = cleaned_matrix(&sm, n, params, Ghost(steps));
    let (from, to, freq, meas, covered) = accept_list(&sm, &c, &am, &counts, n, params, Ghost(steps));
    let ranks = name_ranks(&t.activity_names);
    proof {
        assert(ranks_of(t.activity_names@, ranks@));
    }
    let activities = net_activities(&t, &ranks, params, &counts, &starts, &ends);
    let edges = net_edges(&t, &ranks, params, &from, &to, &freq, &meas);
    let ns = t.steps.len();
    let mut with_events: usize = 0;
    let mut s: usize = 0;
    while s < ns
        invariant
            ns == t.steps.len(),
            steps == t.steps@,
            s <= ns,
            with_events == busy_slots(steps, s as int),
            with_events <= s,
        decreases ns - s,
    {
        if t.steps[s].len() > 0 {
            with_events = with_events + 1;
        }
        s = s + 1;
    }
    HeuristicsNet {
        object_type: object_type.to_owned(),
        objects: ns,
        with_events,
        activities,
        edges,
        covered_successions: covered,
        total_successions: total,
    }
}

/// Successions of `row` among its first `k` steps, per pair.
pub open spec fn row_succ_at(row: Seq<Step>, k: int) -> spec_fn(int, int) -> int {
    |a: int, b: int| row_succ(row, a, b, k) as int
}

/// Successions over the first `s` slots, per pair.
pub open spec fn succ_at(steps: Seq<Vec<Step>>, s: int) -> spec_fn(int, int) -> int {
    |a: int, b: int| succ_upto(steps, a, b, s) as int
}

/// The successions a row's first `k` steps hold, over all pairs of
/// activities below `n`, number `k - 1`.
proof fn lemma_row_grid(row: Seq<Step>, n: int, k: int)
    requires
        0 <= k <= row.len(),
        forall|j: int| 0 <= j < row.len() ==> 0 <= #[trigger] row[j].activity < n,
    ensures
        grid_sum(row_succ_at(row, k), n, n) == if k > 0 { k - 1 } else { 0 },
    decreases k,
{
    if k <= 1 {
        assert forall|a: int, b: int| #[trigger] row_succ_at(row, k)(a, b) <= zero_at()(a, b) by {}
        assert forall|a: int, b: int| #[trigger] zero_at()(a, b) <= row_succ_at(row, k)(a, b) by {}
        lemma_grid_le(row_succ_at(row, k), zero_at(), n, n);
        lemma_grid_le(zero_at(), row_succ_at(row, k), n, n);
        lemma_grid_zero(n, n);
    } else {
        lemma_row_grid(row, n, k - 1);
        let x = row[k - 2].activity as int;
        let y = row[k - 1].activity as int;
        let pt = |i: int, j: int| if i == x && j == y { 1int } else { 0int };
        assert forall|a: int, b: int| #[trigger] row_succ_at(row, k)(a, b) == row_succ_at(row, k - 1)(a, b) + pt(a, b) by {}
        lemma_grid_add(row_succ_at(row, k - 1), pt, row_succ_at(row, k), n, n);
        lemma_grid_point(pt, x, y, n, n);
    }
}

/// All direct successions over the first `s` slots, summed over the pairs
/// of activities below `n`, are all the successions.
proof fn lemma_succ_grid(steps: Seq<Vec<Step>>, n: int, s: int)
    requires
        0 <= s <= steps.len(),
        forall|s2: int, k: int| 0 <= s2 < steps.len() && 0 <= k < steps[s2].len() ==> 0 <= #[trigger] steps[s2]@[k].activity < n,
    ensures
        grid_sum(succ_at(steps, s), n, n) == succ_total(steps, s),
    decreases s,
{
    if s == 0 {
        assert forall|a: int, b: int| #[trigger] succ_at(steps, 0)(a, b) <= zero_at()(a, b) by {}
        assert forall|a: int, b: int| #[trigger] zero_at()(a, b) <= succ_at(steps, 0)(a, b) by {}
        lemma_grid_le(succ_at(steps, 0), zero_at(), n, n);
        lemma_grid_le(zero_at(), succ_at(steps, 0), n, n);
        lemma_grid_zero(n, n);
    } else {
        lemma_succ_grid(steps, n, s - 1);
        let row = steps[s - 1]@;
        let len = steps[s - 1].len() as int;
        assert forall|j: int| 0 <= j < row.len() implies 0 <= #[trigger] row[j].activity < n by {
            assert(steps[s - 1]@[j].activity < n);
        }
        lemma_row_grid(row, n, len);
        assert forall|a: int, b: int| #[trigger] succ_at(steps, s)(a, b) == succ_at(steps, s - 1)(a, b) + row_succ_at(row, len)(a, b) by {}
        lemma_grid_add(succ_at(steps, s - 1), row_succ_at(row, len), succ_at(steps, s), n, n);
    }
}

/// Successions explained by kept edges, per pair.
pub open spec fn covered_at(steps: Seq<Vec<Step>>, n: int, p: HeuristicsParams) -> spec_fn(int, int) -> int {
    |a: int, b: int| if accepted(steps, n, p, a, b) { cleaned(steps, n, p, a, b) as int } else { 0int }
}

proof fn lemma_cov_grid(steps: Seq<Vec<Step>>, n: int, p: HeuristicsParams, m: int)
    ensures
        cov_rows(steps, n, p, m) == grid_sum(covered_at(steps, n, p), m, n),
    decreases m,
{
    if m > 0 {
        lemma_cov_grid(steps, n, p, m - 1);
        lemma_cov_row(steps, n, p, m - 1, n);
    }
}

proof fn lemma_cov_row(steps: Seq<Vec<Step>>, n: int, p: HeuristicsParams, a: int, k: int)
    ensures
        cov_row(steps, n, p, a, k) == row_sum(covered_at(steps, n, p), a, k),
    decreases k,
{
    if k > 0 {
        lemma_cov_row(steps, n, p, a, k - 1);
    }
}

/// Coverage is at most one: the successions the kept edges explain never
/// outnumber the observed successions.
pub proof fn law_covered_within_total(log: EventLog, ty: Seq<char>, p: HeuristicsParams, t: Traces, r: HeuristicsNet)
    requires
        t.describes(log, ty),
        net_of(t, ty, p, r),
    ensures
        r.covered_successions <= r.total_successions,
{
    let steps = t.steps@;
    let n = t.activity_names.len() as int;
    assert forall|s2: int, k: int| 0 <= s2 < steps.len() && 0 <= k < steps[s2].len() implies 0 <= #[trigger] steps[s2]@[k].activity < n by {
        assert(t.step_ok(log, s2, k));
    }
    lemma_cov_grid(steps, n, p, n);
    lemma_succ_grid(steps, n, steps.len() as int);
    assert forall|a: int, b: int| #[trigger] covered_at(steps, n, p)(a, b) <= succ_at(steps, steps.len() as int)(a, b) by {}
    lemma_grid_le(covered_at(steps, n, p), succ_at(steps, steps.len() as int), n, n);
}

/// `succ_max(x, k)` is the largest count of a succession into or out of
/// `x` among activities below `k`, and some such succession reaches it.
proof fn lemma_succ_max(steps: Seq<Vec<Step>>, x: int, k: int)
    requires
        k >= 0,
    ensures
        forall|y: int| 0 <= y < k ==> #[trigger] succ(steps, x, y) <= succ_max(steps, x, k) && succ(steps, y, x) <= succ_max(steps, x, k),
        k > 0 ==> exists|y: int|
            #![trigger succ(steps, x, y)]
            #![trigger succ(steps, y, x)]
            0 <= y < k && (succ(steps, x, y) == succ_max(steps, x, k) || succ(steps, y, x) == succ_max(steps, x, k)),
    decreases k,
{
    if k > 0 {
        lemma_succ_max(steps, x, k - 1);
        let y = k - 1;
        assert(succ(steps, x, y) <= succ_max(steps, x, k) && succ(steps, y, x) <= succ_max(steps, x, k));
        if k - 1 > 0 {
            let w = choose|w: int|
                #![trigger succ(steps, x, w)]
                #![trigger succ(steps, w, x)]
                0 <= w < k - 1 && (succ(steps, x, w) == succ_max(steps, x, k - 1) || succ(steps, w, x) == succ_max(steps, x, k - 1));
            assert(succ(steps, x, w) == succ_max(steps, x, k) || succ(steps, w, x) == succ_max(steps, x, k) || succ(steps, x, y) == succ_max(steps, x, k) || succ(steps, y, x) == succ_max(steps, x, k));
        }
    }
}

/// Pre-cleaning drops a succession only when it is noise: a succession
/// from `a` to `b` keeps its full count whenever that count reaches the
/// noise fraction of the strongest succession of either endpoint (so of
/// the weaker one), and otherwise becomes zero; it is zero only when it
/// falls below that fraction of both. The strongest succession of an
/// activity is the largest count of a succession into or out of it.
pub proof fn law_pre_cleaning_floor(steps: Seq<Vec<Step>>, n: int, p: HeuristicsParams, a: int, b: int)
    requires
        p.wf(),
        0 <= a < n,
        0 <= b < n,
    ensures
        cleaned(steps, n, p, a, b) == succ(steps, a, b) || cleaned(steps, n, p, a, b) == 0,
        p.dfg_noise_threshold.num <= 0 ==> cleaned(steps, n, p, a, b) == succ(steps, a, b),
        succ(steps, a, b) * p.dfg_noise_threshold.den >= p.dfg_noise_threshold.num * succ_max(steps, a, n)
            ==> cleaned(steps, n, p, a, b) == succ(steps, a, b),
        succ(steps, a, b) * p.dfg_noise_threshold.den >= p.dfg_noise_threshold.num * succ_max(steps, b, n)
            ==> cleaned(steps, n, p, a, b) == succ(steps, a, b),
        cleaned(steps, n, p, a, b) == 0 && succ(steps, a, b) > 0 ==> succ(steps, a, b) * p.dfg_noise_threshold.den
            < p.dfg_noise_threshold.num * succ_max(steps, a, n) && succ(steps, a, b) * p.dfg_noise_threshold.den
            < p.dfg_noise_threshold.num * succ_max(steps, b, n),
        forall|y: int| 0 <= y < n ==> #[trigger] succ(steps, a, y) <= succ_max(steps, a, n) && succ(steps, y, a) <= succ_max(steps, a, n),
        exists|y: int|
            #![trigger succ(steps, a, y)]
            #![trigger succ(steps, y, a)]
            0 <= y < n && (succ(steps, a, y) == succ_max(steps, a, n) || succ(steps, y, a) == succ_max(steps, a, n)),
{
    lemma_succ_max(steps, a, n);
    lemma_succ_max(steps, b, n);
    let t = p.dfg_noise_threshold;
    let f = succ(steps, a, b) as int;
    let ma = succ_max(steps, a, n) as int;
    let mb = succ_max(steps, b, n) as int;
    let w = if ma <= mb { ma } else { mb };
    let num = t.num as int;
    let den = t.den as int;
    assert(num >= 0 ==> num * w <= num * ma && num * w <= num * mb) by (nonlinear_arith)
        requires
            w <= ma,
            w <= mb;
}

} // verus!
