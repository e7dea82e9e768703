//! The grouping step of the partial-order cut.
//!
//! Given the pairwise category of every two activities, the activities are
//! grouped so that every two groups are uniformly ordered one way, ordered
//! the other way, or concurrent; the order between groups is transitive;
//! and every group first in the order holds a start activity, every group
//! last in it an end activity. Grouping starts from singletons and merges
//! the first pair that breaks one of these rules until none does.
use vstd::prelude::*;
use crate::closure::{closure, lemma_path_congruent, matrix_edge, path_below};
use crate::heuristics::{Ratio, at_least, reaches};

verus! {

/// How two activities relate.
#[derive(Clone, Copy, Debug, PartialEq, Eq, Structural)]
pub enum Cat {
    /// The first completes before the second starts, never the other way.
    Lt,
    /// The second before the first.
    Gt,
    /// Interleaving.
    Conc,
    /// Alternatives, or causally cyclic: they must share a group.
    Unrelated,
}

/// `cats` is an `n × n` matrix.
pub open spec fn cat_square(cats: Seq<Vec<Cat>>, n: int) -> bool {
    cats.len() == n && forall|a: int| 0 <= a < n ==> #[trigger] cats[a].len() == n
}

/// The category of `a` before `b`.
pub open spec fn cat(cats: Seq<Vec<Cat>>, a: int, b: int) -> Cat {
    cats[a]@[b]
}

/// `groups` partitions the activities below `n`: no group is empty, and
/// every activity stands in exactly one place.
pub open spec fn partition(groups: Seq<Vec<usize>>, n: int) -> bool {
    &&& forall|i: int| 0 <= i < groups.len() ==> #[trigger] groups[i].len() > 0
    &&& forall|i: int, k: int| 0 <= i < groups.len() && 0 <= k < groups[i].len() ==> #[trigger] groups[i]@[k] < n
    &&& forall|x: int| 0 <= x < n ==> #[trigger] placed(groups, x)
    &&& forall|i1: int, k1: int, i2: int, k2: int|
        0 <= i1 < groups.len() && 0 <= k1 < groups[i1].len() && 0 <= i2 < groups.len() && 0 <= k2 < groups[i2].len()
            && #[trigger] groups[i1]@[k1] == #[trigger] groups[i2]@[k2] ==> i1 == i2 && k1 == k2
}

/// Activity `x` stands in some group.
pub open spec fn placed(groups: Seq<Vec<usize>>, x: int) -> bool {
    exists|i: int, k: int| 0 <= i < groups.len() && 0 <= k < groups[i].len() && groups[i]@[k] == x
}

/// The category between groups `i` and `j`, read off their first members.
pub open spec fn group_cat(cats: Seq<Vec<Cat>>, groups: Seq<Vec<usize>>, i: int, j: int) -> Cat {
    cat(cats, groups[i]@[0] as int, groups[j]@[0] as int)
}

/// Every cross pair of groups `i` and `j` relates, all in one way.
pub open spec fn uniform_pair(cats: Seq<Vec<Cat>>, groups: Seq<Vec<usize>>, i: int, j: int) -> bool {
    forall|k1: int, k2: int|
        0 <= k1 < groups[i].len() && 0 <= k2 < groups[j].len() ==> {
            let c = #[trigger] cat(cats, groups[i]@[k1] as int, groups[j]@[k2] as int);
            c != Cat::Unrelated && c == group_cat(cats, groups, i, j)
        }
}

/// Every two groups relate uniformly.
pub open spec fn uniform(cats: Seq<Vec<Cat>>, groups: Seq<Vec<usize>>) -> bool {
    forall|i: int, j: int| 0 <= i < j < groups.len() ==> #[trigger] uniform_pair(cats, groups, i, j)
}

/// The order between groups is transitive.
pub open spec fn transitive(cats: Seq<Vec<Cat>>, groups: Seq<Vec<usize>>) -> bool {
    forall|i: int, j: int, k: int|
        0 <= i < groups.len() && 0 <= j < groups.len() && 0 <= k < groups.len() && i != j && j != k && i != k
            && #[trigger] group_cat(cats, groups, i, j) == Cat::Lt && #[trigger] group_cat(cats, groups, j, k) == Cat::Lt
            ==> group_cat(cats, groups, i, k) == Cat::Lt
}

/// No group is ordered before group `i`.
pub open spec fn minimal(cats: Seq<Vec<Cat>>, groups: Seq<Vec<usize>>, i: int) -> bool {
    forall|j: int| 0 <= j < groups.len() && j != i ==> #[trigger] group_cat(cats, groups, j, i) != Cat::Lt
}

/// No group is ordered after group `i`.
pub open spec fn maximal(cats: Seq<Vec<Cat>>, groups: Seq<Vec<usize>>, i: int) -> bool {
    forall|j: int| 0 <= j < groups.len() && j != i ==> #[trigger] group_cat(cats, groups, i, j) != Cat::Lt
}

/// Group `i` holds an activity flagged in `flags`.
pub open spec fn holds_flagged(groups: Seq<Vec<usize>>, flags: Seq<bool>, i: int) -> bool {
    exists|k: int| 0 <= k < groups[i].len() && flags[groups[i]@[k] as int]
}

/// With two groups or more, first groups hold a start and last groups an
/// end.
pub open spec fn guarded(cats: Seq<Vec<Cat>>, groups: Seq<Vec<usize>>, starts: Seq<bool>, ends: Seq<bool>) -> bool {
    groups.len() > 1 ==> forall|i: int| 0 <= i < groups.len() ==> #[trigger] guard_ok(cats, groups, starts, ends, i)
}

/// Group `i`, if first in the order, holds a start; if last, an end.
pub open spec fn guard_ok(cats: Seq<Vec<Cat>>, groups: Seq<Vec<usize>>, starts: Seq<bool>, ends: Seq<bool>, i: int) -> bool {
    &&& minimal(cats, groups, i) ==> holds_flagged(groups, starts, i)
    &&& maximal(cats, groups, i) ==> holds_flagged(groups, ends, i)
}

/// Groups `i < j` of `g0` became `g1`: group `j` appended to group `i`
/// and removed, every other group kept in order.
pub open spec fn merges_to(g0: Seq<Vec<usize>>, g1: Seq<Vec<usize>>, i: int, j: int) -> bool {
    &&& 0 <= i < j < g0.len()
    &&& g1.len() == g0.len() - 1
    &&& g1[i]@ == g0[i]@ + g0[j]@
    &&& forall|a: int| 0 <= a < g1.len() && a != i ==> #[trigger] g1[a]@ == (if a < j { g0[a]@ } else { g0[a + 1]@ })
}

/// Groups `a`, `m`, `c` are distinct, `a` before `m` before `c`, and not
/// `a` before `c`.
pub open spec fn chain_break(cats: Seq<Vec<Cat>>, gs: Seq<Vec<usize>>, a: int, m: int, c: int) -> bool {
    &&& 0 <= m < gs.len()
    &&& a != m && m != c && a != c
    &&& group_cat(cats, gs, a, m) == Cat::Lt
    &&& group_cat(cats, gs, m, c) == Cat::Lt
    &&& group_cat(cats, gs, a, c) != Cat::Lt
}

/// `(a, m, c)` is the first triple, in scan order, that breaks
/// transitivity: every earlier first group, every earlier middle group
/// for `a`, and every earlier last group for `a`, `m` keeps the order
/// transitive.
pub open spec fn first_break(cats: Seq<Vec<Cat>>, gs: Seq<Vec<usize>>, a: int, m: int, c: int) -> bool {
    &&& 0 <= a < gs.len() && 0 <= c < gs.len()
    &&& chain_break(cats, gs, a, m, c)
    &&& forall|a2: int, m2: int, c2: int|
        0 <= a2 < a && 0 <= m2 < gs.len() && 0 <= c2 < gs.len() && a2 != m2 && m2 != c2 && a2 != c2
            && #[trigger] group_cat(cats, gs, a2, m2) == Cat::Lt && #[trigger] group_cat(cats, gs, m2, c2) == Cat::Lt
            ==> group_cat(cats, gs, a2, c2) == Cat::Lt
    &&& forall|m2: int, c2: int|
        0 <= m2 < m && 0 <= c2 < gs.len() && a != m2 && m2 != c2 && a != c2
            && #[trigger] group_cat(cats, gs, a, m2) == Cat::Lt && #[trigger] group_cat(cats, gs, m2, c2) == Cat::Lt
            ==> group_cat(cats, gs, a, c2) == Cat::Lt
    &&& forall|c2: int|
        0 <= c2 < c && m != c2 && a != c2 && #[trigger] group_cat(cats, gs, m, c2) == Cat::Lt
            ==> group_cat(cats, gs, a, c2) == Cat::Lt
}

/// Merging groups `i < j` is the merge the grouping takes next on `gs`:
/// while some pair relates non-uniformly, the first such pair in scan
/// order; else, while the order is not transitive, the outer two groups of
/// the first breaking triple; else the first group failing the start/end
/// guard together with its partner.
pub open spec fn forced(cats: Seq<Vec<Cat>>, starts: Seq<bool>, ends: Seq<bool>, gs: Seq<Vec<usize>>, i: int, j: int) -> bool {
    if !uniform(cats, gs) {
        &&& 0 <= i < j < gs.len()
        &&& !uniform_pair(cats, gs, i, j)
        &&& forall|i2: int, j2: int| 0 <= i2 < i && i2 < j2 < gs.len() ==> #[trigger] uniform_pair(cats, gs, i2, j2)
        &&& forall|j2: int| i < j2 < j ==> #[trigger] uniform_pair(cats, gs, i, j2)
    } else if !transitive(cats, gs) {
        exists|a: int, m: int, c: int|
            #[trigger] first_break(cats, gs, a, m, c) && (a < c ==> i == a && j == c) && (c < a ==> i == c && j == a)
    } else {
        gs.len() > 1 && exists|a: int, p: int|
            #[trigger] first_unguarded(cats, gs, starts, ends, a) && #[trigger] guard_partner(cats, gs, a, p)
                && i == (if a < p { a } else { p }) && j == (if a < p { p } else { a })
    }
}

/// Step `s` of history `h` is the merge the grouping takes there.
pub open spec fn forced_step(cats: Seq<Vec<Cat>>, starts: Seq<bool>, ends: Seq<bool>, h: Seq<Seq<Vec<usize>>>, s: int) -> bool {
    exists|i: int, j: int| #[trigger] merges_to(h[s], h[s + 1], i, j) && forced(cats, starts, ends, h[s], i, j)
}

/// Every activity below `n` alone in its group, in order.
pub open spec fn singletons(gs: Seq<Vec<usize>>, n: int) -> bool {
    gs.len() == n && forall|i: int| 0 <= i < n ==> #[trigger] gs[i]@ == seq![i as usize]
}

/// `groups` is reached from the singletons by taking, step by step, the
/// merge the grouping takes next.
pub open spec fn merged_by_force(cats: Seq<Vec<Cat>>, starts: Seq<bool>, ends: Seq<bool>, n: int, groups: Seq<Vec<usize>>) -> bool {
    exists|h: Seq<Seq<Vec<usize>>>|
        #![trigger h.last(), h[0]]
        h.len() >= 1 && singletons(h[0], n) && h.last() == groups && forall|s: int|
            0 <= s < h.len() - 1 ==> #[trigger] forced_step(cats, starts, ends, h, s)
}

/// The place of the merged groups' entry `(a, k)` before the merge of
/// group `j` into group `i`, where group `i` had `li` entries.
pub open spec fn merged_from(i: int, j: int, li: int, a: int, k: int) -> (int, int) {
    if a == i && k >= li {
        (j, k - li)
    } else if a >= j {
        (a + 1, k)
    } else {
        (a, k)
    }
}

/// Move group `j` to the end of group `i`.
fn merge_groups(groups: &mut Vec<Vec<usize>>, i: usize, j: usize, n: Ghost<int>)
    requires
        i < j < old(groups).len(),
        partition(old(groups)@, n@),
    ensures
        partition(final(groups)@, n@),
        final(groups).len() == old(groups).len() - 1,
        merges_to(old(groups)@, final(groups)@, i as int, j as int),
{
    let ghost g0 = groups@;
    let ghost li = g0[i as int].len() as int;
    let absorbed = groups.remove(j);
    assert(absorbed@ == g0[j as int]@);
    let mut gi: Vec<usize> = Vec::new();
    std::mem::swap(&mut gi, &mut groups[i]);
    assert(gi@ == g0[i as int]@);
    let mut k: usize = 0;
    while k < absorbed.len()
        invariant
            gi@ == g0[i as int]@ + absorbed@.take(k as int),
            k <= absorbed.len(),
        decreases absorbed.len() - k,
    {
        gi.push(absorbed[k]);
        k = k + 1;
        assert(absorbed@.take(k as int) == absorbed@.take(k - 1).push(absorbed[k - 1]));
    }
    assert(absorbed@.take(absorbed.len() as int) == absorbed@);
    groups.set(i, gi);
    proof {
        let g1 = groups@;
        let n = n@;
        assert forall|a: int, kk: int| 0 <= a < g1.len() && 0 <= kk < g1[a].len() implies {
            let o = merged_from(i as int, j as int, li, a, kk);
            &&& 0 <= o.0 < g0.len()
            &&& 0 <= o.1 < g0[o.0].len()
            &&& #[trigger] g1[a]@[kk] == g0[o.0]@[o.1]
        } by {
            if a == i {
                if kk >= li {
                    assert(g1[a]@[kk] == g0[j as int]@[kk - li]);
                }
            } else if a >= j {
                assert(g1[a] == g0[a + 1]);
            } else {
                assert(g1[a] == g0[a]);
            }
        }
        assert(g1[i as int]@ == g0[i as int]@ + g0[j as int]@);
        assert forall|a: int| 0 <= a < g1.len() && a != i implies #[trigger] g1[a]@ == (if a < j { g0[a]@ } else { g0[a + 1]@ }) by {
            if a >= j {
                assert(g1[a] == g0[a + 1]);
            } else {
                assert(g1[a] == g0[a]);
            }
        }
        assert forall|a: int| 0 <= a < g1.len() implies #[trigger] g1[a].len() > 0 by {
            if a == i {
            } else if a >= j {
                assert(g1[a] == g0[a + 1]);
            } else {
                assert(g1[a] == g0[a]);
            }
        }
        assert forall|a: int, kk: int| 0 <= a < g1.len() && 0 <= kk < g1[a].len() implies #[trigger] g1[a]@[kk] < n by {
            let o = merged_from(i as int, j as int, li, a, kk);
            assert(g1[a]@[kk] == g0[o.0]@[o.1]);
        }
        assert forall|x: int| 0 <= x < n implies #[trigger] placed(g1, x) by {
            assert(placed(g0, x));
            let (a, kk) = choose|a: int, kk: int| 0 <= a < g0.len() && 0 <= kk < g0[a].len() && g0[a]@[kk] == x;
            if a == j {
                assert(g1[i as int]@[li + kk] == x);
            } else if a > j {
                assert(g1[a - 1] == g0[a]);
                assert(g1[a - 1]@[kk] == x);
            } else if a == i {
                assert(g1[a]@[kk] == x);
            } else {
                assert(g1[a] == g0[a]);
                assert(g1[a]@[kk] == x);
            }
        }
        assert forall|i1: int, k1: int, i2: int, k2: int|
            0 <= i1 < g1.len() && 0 <= k1 < g1[i1].len() && 0 <= i2 < g1.len() && 0 <= k2 < g1[i2].len()
                && #[trigger] g1[i1]@[k1] == #[trigger] g1[i2]@[k2] implies i1 == i2 && k1 == k2 by {
            let o1 = merged_from(i as int, j as int, li, i1, k1);
            let o2 = merged_from(i as int, j as int, li, i2, k2);
            assert(g0[o1.0]@[o1.1] == g0[o2.0]@[o2.1]);
        }
    }
}

/// The first pair of groups, in scan order, that does not relate
/// uniformly.
fn uniform_scan(groups: &Vec<Vec<usize>>, cats: &Vec<Vec<Cat>>, n: Ghost<int>) -> (r: Option<(usize, usize)>)
    requires
        partition(groups@, n@),
        cat_square(cats@, n@),
    ensures
        match r {
            Some((i, j)) => i < j < groups.len() && !uniform_pair(cats@, groups@, i as int, j as int),
            None => uniform(cats@, groups@),
        },
        r matches Some((i, j)) ==> (forall|i2: int, j2: int|
            0 <= i2 < i && i2 < j2 < groups.len() ==> #[trigger] uniform_pair(cats@, groups@, i2, j2)) && (forall|j2: int|
            i < j2 < j ==> #[trigger] uniform_pair(cats@, groups@, i as int, j2)),
{
    let g = groups.len();
    let mut i: usize = 0;
    while i < g
        invariant
            g == groups.len(),
            partition(groups@, n@),
            cat_square(cats@, n@),
            i <= g,
            forall|i2: int, j2: int| 0 <= i2 < i && i2 < j2 < g ==> #[trigger] uniform_pair(cats@, groups@, i2, j2),
        decreases g - i,
    {
        let mut j: usize = i + 1;
        while j < g
            invariant
                g == groups.len(),
                partition(groups@, n@),
                cat_square(cats@, n@),
                i < g,
                i < j <= g,
                forall|i2: int, j2: int| 0 <= i2 < i && i2 < j2 < g ==> #[trigger] uniform_pair(cats@, groups@, i2, j2),
                forall|j2: int| i < j2 < j ==> #[trigger] uniform_pair(cats@, groups@, i as int, j2),
            decreases g - j,
        {
            let gi = &groups[i];
            let gj = &groups[j];
            assert(groups@[i as int].len() > 0 && groups@[j as int].len() > 0);
            assert(gi@[0] < n@ && gj@[0] < n@);
            assert(cats@[gi@[0] as int].len() == n@);
            let first = cats[gi[0]][gj[0]];
            let mut k1: usize = 0;
            while k1 < gi.len()
                invariant
                    partition(groups@, n@),
                    cat_square(cats@, n@),
                    i < j < g,
                    g == groups.len(),
                    gi == &groups[i as int],
                    gj == &groups[j as int],
                    first == group_cat(cats@, groups@, i as int, j as int),
                    forall|i2: int, j2: int| 0 <= i2 < i && i2 < j2 < g ==> #[trigger] uniform_pair(cats@, groups@, i2, j2),
                    forall|j2: int| i < j2 < j ==> #[trigger] uniform_pair(cats@, groups@, i as int, j2),
                    k1 <= gi.len(),
                    forall|a: int, b: int| 0 <= a < k1 && 0 <= b < gj.len() ==> {
                        let c = #[trigger] cat(cats@, gi@[a] as int, gj@[b] as int);
                        c != Cat::Unrelated && c == first
                    },
                decreases gi.len() - k1,
            {
                let mut k2: usize = 0;
                while k2 < gj.len()
                    invariant
                        partition(groups@, n@),
                        cat_square(cats@, n@),
                        i < j < g,
                        g == groups.len(),
                        gi == &groups[i as int],
                        gj == &groups[j as int],
                        first == group_cat(cats@, groups@, i as int, j as int),
                        forall|i2: int, j2: int| 0 <= i2 < i && i2 < j2 < g ==> #[trigger] uniform_pair(cats@, groups@, i2, j2),
                        forall|j2: int| i < j2 < j ==> #[trigger] uniform_pair(cats@, groups@, i as int, j2),
                        k1 < gi.len(),
                        k2 <= gj.len(),
                        forall|a: int, b: int| 0 <= a < k1 && 0 <= b < gj.len() ==> {
                            let c = #[trigger] cat(cats@, gi@[a] as int, gj@[b] as int);
                            c != Cat::Unrelated && c == first
                        },
                        forall|b: int| 0 <= b < k2 ==> {
                            let c = #[trigger] cat(cats@, gi@[k1 as int] as int, gj@[b] as int);
                            c != Cat::Unrelated && c == first
                        },
                    decreases gj.len() - k2,
                {
                    let x = gi[k1];
                    let y = gj[k2];
                    assert(x < n@ && y < n@);
                    assert(cats@[x as int].len() == n@);
                    let c = cats[x][y];
                    if c == Cat::Unrelated || c != first {
                        assert(cat(cats@, groups@[i as int]@[k1 as int] as int, groups@[j as int]@[k2 as int] as int) == c);
                        return Some((i, j));
                    }
                    k2 = k2 + 1;
                }
                k1 = k1 + 1;
            }
            j = j + 1;
        }
        i = i + 1;
    }
    None
}

fn group_cat_of(groups: &Vec<Vec<usize>>, cats: &Vec<Vec<Cat>>, i: usize, j: usize, n: Ghost<int>) -> (c: Cat)
    requires
        partition(groups@, n@),
        cat_square(cats@, n@),
        i < groups.len(),
        j < groups.len(),
    ensures
        c == group_cat(cats@, groups@, i as int, j as int),
{
    assert(groups@[i as int].len() > 0 && groups@[j as int].len() > 0);
    let a = groups[i][0];
    let b = groups[j][0];
    assert(cats@[a as int].len() == n@);
    cats[a][b]
}

/// The first triple, in scan order, where `i` before `j` before `k` but
/// not `i` before `k`; it names the pair `i`, `k` in increasing order.
fn transitive_scan(groups: &Vec<Vec<usize>>, cats: &Vec<Vec<Cat>>, n: Ghost<int>) -> (r: Option<(usize, usize)>)
    requires
        partition(groups@, n@),
        cat_square(cats@, n@),
    ensures
        match r {
            Some((i, j)) => i < j < groups.len() && exists|m: int|
                #![trigger chain_break(cats@, groups@, i as int, m, j as int)]
                #![trigger chain_break(cats@, groups@, j as int, m, i as int)]
                chain_break(cats@, groups@, i as int, m, j as int) || chain_break(cats@, groups@, j as int, m, i as int),
            None => transitive(cats@, groups@),
        },
        r matches Some((lo, hi)) ==> exists|a: int, m: int, c: int|
            #[trigger] first_break(cats@, groups@, a, m, c) && (a < c ==> lo == a && hi == c) && (c < a ==> lo == c && hi == a),
{
    let g = groups.len();
    let mut i: usize = 0;
    while i < g
        invariant
            g == groups.len(),
            partition(groups@, n@),
            cat_square(cats@, n@),
            i <= g,
            forall|i2: int, j2: int, k2: int|
                0 <= i2 < i && 0 <= j2 < g && 0 <= k2 < g && i2 != j2 && j2 != k2 && i2 != k2
                    && #[trigger] group_cat(cats@, groups@, i2, j2) == Cat::Lt && #[trigger] group_cat(cats@, groups@, j2, k2) == Cat::Lt
                    ==> group_cat(cats@, groups@, i2, k2) == Cat::Lt,
        decreases g - i,
    {
        let mut j: usize = 0;
        while j < g
            invariant
                g == groups.len(),
                partition(groups@, n@),
                cat_square(cats@, n@),
                i < g,
                j <= g,
                forall|i2: int, j2: int, k2: int|
                    0 <= i2 < i && 0 <= j2 < g && 0 <= k2 < g && i2 != j2 && j2 != k2 && i2 != k2
                        && #[trigger] group_cat(cats@, groups@, i2, j2) == Cat::Lt && #[trigger] group_cat(cats@, groups@, j2, k2) == Cat::Lt
                        ==> group_cat(cats@, groups@, i2, k2) == Cat::Lt,
                forall|j2: int, k2: int|
                    0 <= j2 < j && 0 <= k2 < g && i != j2 && j2 != k2 && i != k2
                        && #[trigger] group_cat(cats@, groups@, i as int, j2) == Cat::Lt && #[trigger] group_cat(cats@, groups@, j2, k2) == Cat::Lt
                        ==> group_cat(cats@, groups@, i as int, k2) == Cat::Lt,
            decreases g - j,
        {
            if i != j && group_cat_of(groups, cats, i, j, n) == Cat::Lt {
                let mut k: usize = 0;
                while k < g
                    invariant
                        g == groups.len(),
                        partition(groups@, n@),
                        cat_square(cats@, n@),
                        i < g,
                        j < g,
                        i != j,
                        group_cat(cats@, groups@, i as int, j as int) == Cat::Lt,
                        forall|i2: int, j2: int, k2: int|
                            0 <= i2 < i && 0 <= j2 < g && 0 <= k2 < g && i2 != j2 && j2 != k2 && i2 != k2
                                && #[trigger] group_cat(cats@, groups@, i2, j2) == Cat::Lt && #[trigger] group_cat(cats@, groups@, j2, k2) == Cat::Lt
                                ==> group_cat(cats@, groups@, i2, k2) == Cat::Lt,
                        forall|j2: int, k2: int|
                            0 <= j2 < j && 0 <= k2 < g && i != j2 && j2 != k2 && i != k2
                                && #[trigger] group_cat(cats@, groups@, i as int, j2) == Cat::Lt && #[trigger] group_cat(cats@, groups@, j2, k2) == Cat::Lt
                                ==> group_cat(cats@, groups@, i as int, k2) == Cat::Lt,
                        k <= g,
                        forall|k2: int|
                            0 <= k2 < k && j != k2 && i != k2 && #[trigger] group_cat(cats@, groups@, j as int, k2) == Cat::Lt
                                ==> group_cat(cats@, groups@, i as int, k2) == Cat::Lt,
                    decreases g - k,
                {
                    if k != i && k != j && group_cat_of(groups, cats, j, k, n) == Cat::Lt {
                        if group_cat_of(groups, cats, i, k, n) != Cat::Lt {
                            assert(chain_break(cats@, groups@, i as int, j as int, k as int));
                            assert(first_break(cats@, groups@, i as int, j as int, k as int));
                            if i < k {
                                return Some((i, k));
                            } else {
                                assert(chain_break(cats@, groups@, i as int, j as int, k as int));
                                return Some((k, i));
                            }
                        }
                    }
                    k = k + 1;
                }
            }
            j = j + 1;
        }
        i = i + 1;
    }
    None
}

/// Group `i` holds a flagged activity.
fn has_flagged(group: &Vec<usize>, flags: &Vec<bool>, n: Ghost<int>) -> (r: bool)
    requires
        flags.len() == n@,
        forall|k: int| 0 <= k < group.len() ==> #[trigger] group@[k] < n@,
    ensures
        r == exists|k: int| 0 <= k < group.len() && flags@[group@[k] as int],
{
    let mut k: usize = 0;
    while k < group.len()
        invariant
            flags.len() == n@,
            forall|k2: int| 0 <= k2 < group.len() ==> #[trigger] group@[k2] < n@,
            k <= group.len(),
            forall|k2: int| 0 <= k2 < k ==> !flags@[#[trigger] group@[k2] as int],
        decreases group.len() - k,
    {
        if flags[group[k]] {
            return true;
        }
        k = k + 1;
    }
    false
}

/// Group `j` is another group ordered either way against group `i`.
pub open spec fn ordered_with(cats: Seq<Vec<Cat>>, groups: Seq<Vec<usize>>, i: int, j: int) -> bool {
    j != i && (group_cat(cats, groups, i, j) == Cat::Lt || group_cat(cats, groups, i, j) == Cat::Gt)
}

/// Group `i` is the first that fails the start/end guard.
pub open spec fn first_unguarded(cats: Seq<Vec<Cat>>, groups: Seq<Vec<usize>>, starts: Seq<bool>, ends: Seq<bool>, i: int) -> bool {
    &&& 0 <= i < groups.len()
    &&& !guard_ok(cats, groups, starts, ends, i)
    &&& forall|i2: int| 0 <= i2 < i ==> #[trigger] guard_ok(cats, groups, starts, ends, i2)
}

/// Group `p` is the partner group `i` merges with: the first group
/// ordered either way against it, or, when there is none, the first other
/// group.
pub open spec fn guard_partner(cats: Seq<Vec<Cat>>, groups: Seq<Vec<usize>>, i: int, p: int) -> bool {
    &&& 0 <= p < groups.len()
    &&& p != i
    &&& if exists|j: int| 0 <= j < groups.len() && #[trigger] ordered_with(cats, groups, i, j) {
        ordered_with(cats, groups, i, p) && forall|j: int| 0 <= j < p ==> !#[trigger] ordered_with(cats, groups, i, j)
    } else {
        p == if i == 0 { 1int } else { 0int }
    }
}

/// The first group, in scan order, first in the order without a start or
/// last without an end, with the first group ordered either way against
/// it (or else the first other group).
fn guard_scan(groups: &Vec<Vec<usize>>, cats: &Vec<Vec<Cat>>, starts: &Vec<bool>, ends: &Vec<bool>, n: Ghost<int>) -> (r: Option<(usize, usize)>)
    requires
        partition(groups@, n@),
        cat_square(cats@, n@),
        starts.len() == n@,
        ends.len() == n@,
        groups.len() > 1,
    ensures
        match r {
            Some((i, j)) => i < j < groups.len() && (!guard_ok(cats@, groups@, starts@, ends@, i as int) || !guard_ok(cats@, groups@, starts@, ends@, j as int)),
            None => guarded(cats@, groups@, starts@, ends@),
        },
        r matches Some((lo, hi)) ==> exists|i: int, p: int|
            #[trigger] first_unguarded(cats@, groups@, starts@, ends@, i) && #[trigger] guard_partner(cats@, groups@, i, p)
                && lo == (if i < p { i } else { p }) && hi == (if i < p { p } else { i }),
{
    let g = groups.len();
    let mut i: usize = 0;
    while i < g
        invariant
            g == groups.len(),
            g > 1,
            partition(groups@, n@),
            cat_square(cats@, n@),
            starts.len() == n@,
            ends.len() == n@,
            i <= g,
            forall|i2: int| 0 <= i2 < i ==> #[trigger] guard_ok(cats@, groups@, starts@, ends@, i2),
        decreases g - i,
    {
        let mut minimal_i = true;
        let mut maximal_i = true;
        let mut j: usize = 0;
        while j < g
            invariant
                g == groups.len(),
                partition(groups@, n@),
                cat_square(cats@, n@),
                i < g,
                j <= g,
                starts.len() == n@,
                ends.len() == n@,
                forall|i2: int| 0 <= i2 < i ==> #[trigger] guard_ok(cats@, groups@, starts@, ends@, i2),
                minimal_i == forall|j2: int| 0 <= j2 < j && j2 != i ==> #[trigger] group_cat(cats@, groups@, j2, i as int) != Cat::Lt,
                maximal_i == forall|j2: int| 0 <= j2 < j && j2 != i ==> #[trigger] group_cat(cats@, groups@, i as int, j2) != Cat::Lt,
            decreases g - j,
        {
            if j != i {
                if group_cat_of(groups, cats, j, i, n) == Cat::Lt {
                    minimal_i = false;
                }
                if group_cat_of(groups, cats, i, j, n) == Cat::Lt {
                    maximal_i = false;
                }
            }
            j = j + 1;
        }
        let hs = has_flagged(&groups[i], starts, n);
        let he = has_flagged(&groups[i], ends, n);
        proof {
            assert(hs == holds_flagged(groups@, starts@, i as int));
            assert(he == holds_flagged(groups@, ends@, i as int));
        }
        let lacks_start = minimal_i && !hs;
        let lacks_end = maximal_i && !he;
        if lacks_start || lacks_end {
            let mut partner: usize = if i == 0 { 1 } else { 0 };
            let mut found = false;
            let mut j: usize = 0;
            while j < g && !found
                invariant
                    g == groups.len(),
                    partition(groups@, n@),
                    cat_square(cats@, n@),
                    i < g,
                    g > 1,
                    j <= g,
                    partner < g,
                    partner != i,
                    found ==> ordered_with(cats@, groups@, i as int, partner as int) && forall|j2: int|
                        0 <= j2 < partner ==> !#[trigger] ordered_with(cats@, groups@, i as int, j2),
                    !found ==> partner == (if i == 0 { 1usize } else { 0usize }) && forall|j2: int|
                        0 <= j2 < j ==> !#[trigger] ordered_with(cats@, groups@, i as int, j2),
                decreases g - j,
            {
                if j != i {
                    let c = group_cat_of(groups, cats, i, j, n);
                    if c == Cat::Lt || c == Cat::Gt {
                        partner = j;
                        found = true;
                    }
                }
                j = j + 1;
            }
            proof {
                assert(guard_partner(cats@, groups@, i as int, partner as int));
                assert(minimal(cats@, groups@, i as int) == minimal_i);
                assert(maximal(cats@, groups@, i as int) == maximal_i);
                assert(!guard_ok(cats@, groups@, starts@, ends@, i as int));
                assert(first_unguarded(cats@, groups@, starts@, ends@, i as int));
            }
            let lo = if i < partner { i } else { partner };
            let hi = if i < partner { partner } else { i };
            return Some((lo, hi));
        }
        proof {
            assert(minimal(cats@, groups@, i as int) == minimal_i);
            assert(maximal(cats@, groups@, i as int) == maximal_i);
            assert(guard_ok(cats@, groups@, starts@, ends@, i as int));
        }
        i = i + 1;
    }
    None
}

/// Group the `n` activities for a partial-order cut: from singletons,
/// merge the first pair of groups that relates non-uniformly, then the
/// first that breaks transitivity, then the first first-or-last group
/// lacking a start or end, until none does.
pub fn po_groups(n: usize, cats: &Vec<Vec<Cat>>, starts: &Vec<bool>, ends: &Vec<bool>) -> (groups: Vec<Vec<usize>>)
    requires
        cat_square(cats@, n as int),
        starts.len() == n,
        ends.len() == n,
    ensures
        partition(groups@, n as int),
        uniform(cats@, groups@),
        transitive(cats@, groups@),
        guarded(cats@, groups@, starts@, ends@),
        merged_by_force(cats@, starts@, ends@, n as int, groups@),
{
    let mut groups: Vec<Vec<usize>> = Vec::new();
    let mut x: usize = 0;
    while x < n
        invariant
            x <= n,
            groups.len() == x,
            forall|i: int| 0 <= i < x ==> #[trigger] groups[i]@ == seq![i as usize],
        decreases n - x,
    {
        groups.push(vec![x]);
        x = x + 1;
    }
    proof {
        assert forall|y: int| 0 <= y < n implies #[trigger] placed(groups@, y) by {
            assert(groups[y]@[0] == y);
        }
    }
    let ghost nn = n as int;
    let ghost mut h: Seq<Seq<Vec<usize>>> = seq![groups@];
    loop
        invariant
            partition(groups@, nn),
            cat_square(cats@, nn),
            starts.len() == nn,
            ends.len() == nn,
            nn == n,
            h.len() >= 1,
            singletons(h[0], nn),
            h.last() == groups@,
            forall|s: int| 0 <= s < h.len() - 1 ==> #[trigger] forced_step(cats@, starts@, ends@, h, s),
        decreases groups.len(),
    {
        let mut merge = uniform_scan(&groups, cats, Ghost(nn));
        if merge.is_none() {
            merge = transitive_scan(&groups, cats, Ghost(nn));
        }
        if merge.is_none() && groups.len() > 1 {
            merge = guard_scan(&groups, cats, starts, ends, Ghost(nn));
        }
        match merge {
            Some((i, j)) => {
                let ghost g0 = groups@;
                proof {
                    assert(forced(cats@, starts@, ends@, g0, i as int, j as int));
                }
                merge_groups(&mut groups, i, j, Ghost(nn));
                proof {
                    let h0 = h;
                    h = h.push(groups@);
                    assert forall|s: int| 0 <= s < h.len() - 1 implies #[trigger] forced_step(cats@, starts@, ends@, h, s) by {
                        assert(h[s] == h0[s]);
                        if s < h0.len() - 1 {
                            assert(forced_step(cats@, starts@, ends@, h0, s));
                            assert(h[s + 1] == h0[s + 1]);
                            let (a, b) = choose|a: int, b: int| #[trigger] merges_to(h0[s], h0[s + 1], a, b) && forced(cats@, starts@, ends@, h0[s], a, b);
                            assert(merges_to(h[s], h[s + 1], a, b));
                        } else {
                            assert(h[s] == g0);
                            assert(h[s + 1] == groups@);
                            assert(merges_to(h[s], h[s + 1], i as int, j as int));
                        }
                    }
                    assert(h[0] == h0[0]);
                }
            },
            None => {
                proof {
                    assert(merged_by_force(cats@, starts@, ends@, nn, groups@));
                }
                return groups;
            },
        }
    }
}

/// Directly-follows counts `f` record `a` followed by `b`.
pub open spec fn has_edge(f: Seq<Vec<usize>>, a: int, b: int) -> bool {
    f[a]@[b] > 0
}

/// `a → b` clearly dominates `b → a`: both occur, and the weaker falls
/// below the fraction `t` of the stronger.
pub open spec fn dominant(f: Seq<Vec<usize>>, t: Ratio, a: int, b: int) -> bool {
    has_edge(f, a, b) && has_edge(f, b, a) && !at_least(f[b]@[a] as int, f[a]@[b] as int, t)
}

/// Every directly-follows edge.
pub open spec fn all_edges(f: Seq<Vec<usize>>) -> spec_fn(int, int) -> bool {
    |a: int, b: int| has_edge(f, a, b)
}

/// The causal edges: one-directional, or dominant under the threshold.
pub open spec fn causal_edges(f: Seq<Vec<usize>>, t: Ratio) -> spec_fn(int, int) -> bool {
    |a: int, b: int| has_edge(f, a, b) && (!has_edge(f, b, a) || dominant(f, t, a, b))
}

/// The category of `a` before `b` among `n` activities: concurrency from
/// edges both ways that neither dominates; otherwise the order that full
/// reachability shows one way, or, where it shows both, that causal
/// reachability shows one way; else unrelated.
pub open spec fn category(f: Seq<Vec<usize>>, t: Ratio, n: int, a: int, b: int) -> Cat {
    if a == b {
        Cat::Unrelated
    } else if has_edge(f, a, b) && has_edge(f, b, a) && !dominant(f, t, a, b) && !dominant(f, t, b, a) {
        Cat::Conc
    } else {
        let fw = path_below(all_edges(f), a, b, n);
        let bw = path_below(all_edges(f), b, a, n);
        if fw && !bw {
            Cat::Lt
        } else if !fw && bw {
            Cat::Gt
        } else if !fw && !bw {
            Cat::Unrelated
        } else {
            let cf = path_below(causal_edges(f, t), a, b, n);
            let cb = path_below(causal_edges(f, t), b, a, n);
            if cf && !cb {
                Cat::Lt
            } else if !cf && cb {
                Cat::Gt
            } else {
                Cat::Unrelated
            }
        }
    }
}

/// The `n × n` matrix of `f`'s edges (causal ones only when `causal`).
fn edge_matrix(f: &Vec<Vec<usize>>, n: usize, t: Ratio, causal: bool) -> (m: Vec<Vec<bool>>)
    requires
        f.len() == n,
        forall|a: int| 0 <= a < n ==> #[trigger] f[a].len() == n,
        t.den > 0,
    ensures
        crate::closure::square(m@, n as int),
        forall|a: int, b: int| 0 <= a < n && 0 <= b < n ==> #[trigger] m[a]@[b] == if causal {
            causal_edges(f@, t)(a, b)
        } else {
            all_edges(f@)(a, b)
        },
{
    let mut m: Vec<Vec<bool>> = Vec::new();
    let mut a: usize = 0;
    while a < n
        invariant
            f.len() == n,
            forall|x: int| 0 <= x < n ==> #[trigger] f[x].len() == n,
            t.den > 0,
            a <= n,
            m.len() == a,
            forall|x: int| 0 <= x < a ==> #[trigger] m[x].len() == n,
            forall|x: int, y: int| 0 <= x < a && 0 <= y < n ==> #[trigger] m[x]@[y] == if causal {
                causal_edges(f@, t)(x, y)
            } else {
                all_edges(f@)(x, y)
            },
        decreases n - a,
    {
        let mut row: Vec<bool> = Vec::new();
        let mut b: usize = 0;
        while b < n
            invariant
                f.len() == n,
                forall|x: int| 0 <= x < n ==> #[trigger] f[x].len() == n,
                t.den > 0,
                a < n,
                b <= n,
                row.len() == b,
                forall|y: int| 0 <= y < b ==> #[trigger] row[y] == if causal {
                    causal_edges(f@, t)(a as int, y)
                } else {
                    all_edges(f@)(a as int, y)
                },
            decreases n - b,
        {
            assert(f[a as int].len() == n && f[b as int].len() == n);
            let fw = f[a][b];
            let bw = f[b][a];
            let v = if causal {
                fw > 0 && (bw == 0 || !reaches(bw as i128, fw as i128, t))
            } else {
                fw > 0
            };
            row.push(v);
            b = b + 1;
        }
        m.push(row);
        a = a + 1;
    }
    m
}

/// Pairwise categories of `n` activities from their directly-follows
/// counts, with dominance read at threshold `noise`.
pub fn categories(f: &Vec<Vec<usize>>, n: usize, noise: Ratio) -> (cats: Vec<Vec<Cat>>)
    requires
        f.len() == n,
        forall|a: int| 0 <= a < n ==> #[trigger] f[a].len() == n,
        noise.den > 0,
    ensures
        cat_square(cats@, n as int),
        forall|a: int, b: int| 0 <= a < n && 0 <= b < n ==> #[trigger] cats[a]@[b] == category(f@, noise, n as int, a, b),
{
    let em = edge_matrix(f, n, noise, false);
    let cm = edge_matrix(f, n, noise, true);
    let full = closure(&em, n);
    let causal = closure(&cm, n);
    proof {
        assert forall|i: int, j: int| 0 <= i < n && 0 <= j < n implies #[trigger] full[i]@[j] == path_below(all_edges(f@), i, j, n as int) by {
            assert forall|a: int, b: int| 0 <= a < n && 0 <= b < n implies #[trigger] matrix_edge(em@)(a, b) == all_edges(f@)(a, b) by {
                assert(em[a]@[b] == all_edges(f@)(a, b));
            }
            lemma_path_congruent(matrix_edge(em@), all_edges(f@), n as int, i, j, n as int);
        }
        assert forall|i: int, j: int| 0 <= i < n && 0 <= j < n implies #[trigger] causal[i]@[j] == path_below(causal_edges(f@, noise), i, j, n as int) by {
            assert forall|a: int, b: int| 0 <= a < n && 0 <= b < n implies #[trigger] matrix_edge(cm@)(a, b) == causal_edges(f@, noise)(a, b) by {
                assert(cm[a]@[b] == causal_edges(f@, noise)(a, b));
            }
            lemma_path_congruent(matrix_edge(cm@), causal_edges(f@, noise), n as int, i, j, n as int);
        }
    }
    let mut cats: Vec<Vec<Cat>> = Vec::new();
    let mut a: usize = 0;
    while a < n
        invariant
            f.len() == n,
            forall|x: int| 0 <= x < n ==> #[trigger] f[x].len() == n,
            noise.den > 0,
            crate::closure::square(full@, n as int),
            crate::closure::square(causal@, n as int),
            forall|i: int, j: int| 0 <= i < n && 0 <= j < n ==> #[trigger] full[i]@[j] == path_below(all_edges(f@), i, j, n as int),
            forall|i: int, j: int| 0 <= i < n && 0 <= j < n ==> #[trigger] causal[i]@[j] == path_below(causal_edges(f@, noise), i, j, n as int),
            a <= n,
            cats.len() == a,
            forall|x: int| 0 <= x < a ==> #[trigger] cats[x].len() == n,
            forall|x: int, y: int| 0 <= x < a && 0 <= y < n ==> #[trigger] cats[x]@[y] == category(f@, noise, n as int, x, y),
        decreases n - a,
    {
        let mut row: Vec<Cat> = Vec::new();
        let mut b: usize = 0;
        while b < n
            invariant
                f.len() == n,
                forall|x: int| 0 <= x < n ==> #[trigger] f[x].len() == n,
                noise.den > 0,
                crate::closure::square(full@, n as int),
                crate::closure::square(causal@, n as int),
                forall|i: int, j: int| 0 <= i < n && 0 <= j < n ==> #[trigger] full[i]@[j] == path_below(all_edges(f@), i, j, n as int),
                forall|i: int, j: int| 0 <= i < n && 0 <= j < n ==> #[trigger] causal[i]@[j] == path_below(causal_edges(f@, noise), i, j, n as int),
                a < n,
                b <= n,
                row.len() == b,
                forall|y: int| 0 <= y < b ==> #[trigger] row[y] == category(f@, noise, n as int, a as int, y),
            decreases n - b,
        {
            assert(f[a as int].len() == n && f[b as int].len() == n);
            assert(full[a as int].len() == n && full[b as int].len() == n);
            assert(causal[a as int].len() == n && causal[b as int].len() == n);
            let c = if a == b {
                Cat::Unrelated
            } else {
                let fw = f[a][b];
                let bw = f[b][a];
                let dom_ab = fw > 0 && bw > 0 && !reaches(bw as i128, fw as i128, noise);
                let dom_ba = fw > 0 && bw > 0 && !reaches(fw as i128, bw as i128, noise);
                if fw > 0 && bw > 0 && !dom_ab && !dom_ba {
                    Cat::Conc
                } else {
                    let rf = full[a][b];
                    let rb = full[b][a];
                    if rf && !rb {
                        Cat::Lt
                    } else if !rf && rb {
                        Cat::Gt
                    } else if !rf && !rb {
                        Cat::Unrelated
                    } else {
                        let cf = causal[a][b];
                        let cb = causal[b][a];
                        if cf && !cb {
                            Cat::Lt
                        } else if !cf && cb {
                            Cat::Gt
                        } else {
                            Cat::Unrelated
                        }
                    }
                }
            };
            row.push(c);
            b = b + 1;
        }
        cats.push(row);
        a = a + 1;
    }
    cats
}

} // verus!
