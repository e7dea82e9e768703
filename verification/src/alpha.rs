//! The alpha algorithm: per-type Petri net discovery (the educational tier).
//!
//! Footprint relations over one object type's traces, maximal `(A, B)`
//! causal pairs, one place per pair. Its textbook limits are reported as
//! warnings instead of hidden: a self-looping activity cannot be modeled (it
//! is independent of nothing, not even itself, so it joins no place and
//! fires freely), and the pair enumeration is refused beyond a size cutoff.
use vstd::prelude::*;
use crate::trace::{Step, Traces, build};
use crate::log::EventLog;
use crate::petri::name_in;
use crate::noise::{decimal, decimal_text};
use crate::text::{name_ranks, ranks_of, texts};
use crate::petri::{
    Place, PetriNet, flagged_ids, id_set, increasing, below, middle_places, named_sorted, place_id, place_lt, place_of,
    sorted_names, lemma_sorted_names_sets, has_place, from_some_pair,
};

verus! {

/// `s` lists ids below `n` in increasing order, pairwise independent under
/// `ind` (each also independent of itself).
pub open spec fn indep_set(ind: Seq<Vec<bool>>, n: int, s: Seq<usize>) -> bool {
    &&& forall|k: int| 0 <= k < s.len() ==> #[trigger] s[k] < n
    &&& forall|k1: int, k2: int| 0 <= k1 < k2 < s.len() ==> #[trigger] s[k1] < #[trigger] s[k2]
    &&& forall|k1: int, k2: int| 0 <= k1 < s.len() && 0 <= k2 < s.len() ==> #[trigger] ind[s[k1] as int]@[s[k2] as int]
}

/// `x` extends `current` by one or more ids, the first at least `from`,
/// and is an independent set.
pub open spec fn extends_set(ind: Seq<Vec<bool>>, n: int, current: Seq<usize>, from: int, x: Seq<usize>) -> bool {
    &&& x.len() > current.len()
    &&& x.take(current.len() as int) == current
    &&& x[current.len() as int] >= from
    &&& indep_set(ind, n, x)
}

/// `a` and `b` agree on their first `k` ids, and then `a` ends first or
/// has the smaller id at `k`.
pub open spec fn lex_split(a: Seq<usize>, b: Seq<usize>, k: int) -> bool {
    &&& 0 <= k <= a.len()
    &&& k < b.len()
    &&& a.take(k) == b.take(k)
    &&& (k == a.len() || a[k] < b[k])
}

/// `a` comes strictly before `b` in lexicographic order.
pub open spec fn lex_before(a: Seq<usize>, b: Seq<usize>) -> bool {
    exists|k: int| #[trigger] lex_split(a, b, k)
}

/// No list twice.
pub open spec fn no_repeats(out: Seq<Vec<usize>>) -> bool {
    forall|i: int, j: int| 0 <= i < j < out.len() ==> #[trigger] out[i]@ != #[trigger] out[j]@
}

/// Some entry of `out` is `x`.
pub open spec fn lists(out: Seq<Vec<usize>>, x: Seq<usize>) -> bool {
    exists|i: int| 0 <= i < out.len() && #[trigger] out[i]@ == x
}

/// `ind` is an `n × n` matrix.
pub open spec fn square_n(ind: Seq<Vec<bool>>, n: int) -> bool {
    ind.len() == n && forall|i: int| 0 <= i < n ==> #[trigger] ind[i].len() == n
}

/// `ind` has at least `n` rows of at least `n` entries.
pub open spec fn covers_n(ind: Seq<Vec<bool>>, n: int) -> bool {
    ind.len() >= n && forall|i: int| 0 <= i < n ==> #[trigger] ind[i].len() >= n
}

/// `next` is independent of itself and of the first `k` members of `cur`.
pub open spec fn compatible(ind: Seq<Vec<bool>>, cur: Seq<usize>, next: int, k: int) -> bool
    decreases k,
{
    if k <= 0 {
        ind[next]@[next]
    } else {
        compatible(ind, cur, next, k - 1) && ind[cur[k - 1] as int]@[next] && ind[next]@[cur[k - 1] as int]
    }
}

proof fn lemma_compatible(ind: Seq<Vec<bool>>, cur: Seq<usize>, next: int, k: int)
    requires
        0 <= k <= cur.len(),
    ensures
        compatible(ind, cur, next, k) == (ind[next]@[next] && forall|k2: int|
            0 <= k2 < k ==> #[trigger] ind[cur[k2] as int]@[next] && ind[next]@[cur[k2] as int]),
    decreases k,
{
    if k > 0 {
        lemma_compatible(ind, cur, next, k - 1);
        if compatible(ind, cur, next, k) {
            assert forall|k2: int| 0 <= k2 < k implies #[trigger] ind[cur[k2] as int]@[next] && ind[next]@[cur[k2] as int] by {
                if k2 < k - 1 {
                    assert(ind[cur[k2] as int]@[next]);
                }
            }
        } else if ind[next]@[next] && forall|k2: int| 0 <= k2 < k ==> #[trigger] ind[cur[k2] as int]@[next] && ind[next]@[cur[k2] as int] {
            assert(ind[cur[k - 1] as int]@[next]);
            assert forall|k2: int| 0 <= k2 < k - 1 implies #[trigger] ind[cur[k2] as int]@[next] && ind[next]@[cur[k2] as int] by {
                assert(ind[cur[k2] as int]@[next]);
            }
        }
    }
}

/// Append to `out`, in depth-first order, every independent set that
/// extends `current` by ids from `from` on.
pub fn extend_independent(
    from: usize,
    n: usize,
    independent: &Vec<Vec<bool>>,
    current: &mut Vec<usize>,
    out: &mut Vec<Vec<usize>>,
)
    requires
        covers_n(independent@, n as int),
        indep_set(independent@, n as int, old(current)@),
        forall|k: int| 0 <= k < old(current).len() ==> #[trigger] old(current)[k] < from,
        from <= n,
    ensures
        final(current)@ == old(current)@,
        final(out).len() >= old(out).len(),
        final(out)@.take(old(out).len() as int) == old(out)@,
        forall|i: int|
            old(out).len() <= i < final(out).len() ==> extends_set(independent@, n as int, old(current)@, from as int, #[trigger] final(out)[i]@),
        forall|x: Seq<usize>| #[trigger] extends_set(independent@, n as int, old(current)@, from as int, x) ==> exists|i: int|
            old(out).len() <= i < final(out).len() && #[trigger] final(out)[i]@ == x,
        forall|i: int, j: int| old(out).len() <= i < j < final(out).len() ==> #[trigger] final(out)[i]@ != #[trigger] final(out)[j]@,
        forall|i: int, j: int|
            old(out).len() <= i < j < final(out).len() ==> lex_before(#[trigger] final(out)[i]@, #[trigger] final(out)[j]@),
    decreases n - from,
{
    let ghost cur = current@;
    let ghost out0 = out@;
    let ghost m = cur.len() as int;
    let ghost ind = independent@;
    let mut next = from;
    while next < n
        invariant
            covers_n(ind, n as int),
            ind == independent@,
            m == cur.len(),
            indep_set(ind, n as int, cur),
            forall|k: int| 0 <= k < cur.len() ==> #[trigger] cur[k] < from,
            from <= next <= n,
            current@ == cur,
            out@.take(out0.len() as int) == out0,
            out0.len() <= out.len(),
            forall|i: int|
                out0.len() <= i < out.len() ==> extends_set(ind, n as int, cur, from as int, #[trigger] out[i]@) && out[i]@[m] < next,
            forall|x: Seq<usize>| #[trigger] extends_set(ind, n as int, cur, from as int, x) && x[m] < next ==> exists|i: int|
                out0.len() <= i < out.len() && #[trigger] out[i]@ == x,
            forall|i: int, j: int| out0.len() <= i < j < out.len() ==> #[trigger] out[i]@ != #[trigger] out[j]@,
            forall|i: int, j: int| out0.len() <= i < j < out.len() ==> lex_before(#[trigger] out[i]@, #[trigger] out[j]@),
        decreases n - next,
    {
        assert(ind[next as int].len() >= n);
        let mut fits = independent[next][next];
        let mut k: usize = 0;
        while k < current.len()
            invariant
                covers_n(ind, n as int),
                ind == independent@,
                next < n,
                current@ == cur,
                indep_set(ind, n as int, cur),
                0 <= k <= cur.len(),
                fits == compatible(ind, cur, next as int, k as int),
            decreases cur.len() - k,
        {
            let a = current[k];
            assert(ind[a as int].len() >= n);
            assert(ind[next as int].len() >= n);
            fits = fits && independent[a][next] && independent[next][a];
            k = k + 1;
        }
        proof {
            lemma_compatible(ind, cur, next as int, m);
        }
        if fits {
            let ghost out1 = out@;
            current.push(next);
            let ghost cur1 = current@;
            proof {
                assert(cur1 == cur.push(next));
                assert(forall|k2: int| 0 <= k2 < m ==> #[trigger] ind[cur[k2] as int]@[next as int] && ind[next as int]@[cur[k2] as int]);
                assert forall|k1: int, k2: int| 0 <= k1 < cur1.len() && 0 <= k2 < cur1.len() implies #[trigger] ind[cur1[k1] as int]@[cur1[k2] as int] by {
                    if k1 < m && k2 < m {
                        assert(cur1[k1] == cur[k1] && cur1[k2] == cur[k2]);
                    } else if k1 < m {
                        assert(cur1[k1] == cur[k1]);
                        assert(cur1[k2] == next);
                        assert(ind[cur[k1] as int]@[next as int]);
                    } else if k2 < m {
                        assert(cur1[k2] == cur[k2]);
                        assert(cur1[k1] == next);
                        assert(ind[cur[k2] as int]@[next as int]);
                        assert(ind[next as int]@[cur[k2] as int]);
                    } else {
                        assert(cur1[k1] == next && cur1[k2] == next);
                    }
                }
                assert forall|k1: int, k2: int| 0 <= k1 < k2 < cur1.len() implies #[trigger] cur1[k1] < #[trigger] cur1[k2] by {
                    if k2 < m {
                        assert(cur1[k1] == cur[k1] && cur1[k2] == cur[k2]);
                    } else {
                        assert(cur1[k1] == cur[k1]);
                    }
                }
                assert(indep_set(ind, n as int, cur1));
            }
            let copy = current.clone();
            out.push(copy);
            let ghost out2 = out@;
            extend_independent(next + 1, n, independent, current, out);
            let ghost out3 = out@;
            current.pop();
            proof {
                assert(current@ =~= cur);
                assert(copy@ == cur1);
                assert(out2 == out1.push(copy));
                assert(out3.take(out2.len() as int) == out2);
                assert(out@.take(out0.len() as int) =~= out0) by {
                    assert(out3.take(out2.len() as int).take(out0.len() as int) =~= out3.take(out0.len() as int));
                    assert(out2.take(out0.len() as int) =~= out1.take(out0.len() as int));
                }
                // the new entries: cur1, then the extensions of cur1
                assert forall|i: int|
                    out0.len() <= i < out.len() implies extends_set(ind, n as int, cur, from as int, #[trigger] out[i]@) && out[i]@[m] < next + 1 by {
                    if i < out1.len() {
                        assert(out[i] == out3.take(out2.len() as int)[i]);
                        assert(out[i] == out1[i]);
                    } else if i == out1.len() {
                        assert(out[i] == out3.take(out2.len() as int)[i]);
                        assert(out[i]@ == cur1);
                        assert(cur1.take(m) =~= cur);
                    } else {
                        let x = out[i]@;
                        assert(extends_set(ind, n as int, cur1, next + 1, x));
                        assert(x.take(m + 1) == cur1);
                        assert(x.take(m) =~= x.take(m + 1).take(m));
                        assert(x[m] == cur1[m]);
                    }
                }
                assert forall|x: Seq<usize>| #[trigger] extends_set(ind, n as int, cur, from as int, x) && x[m] < next + 1 implies exists|i: int|
                    out0.len() <= i < out.len() && #[trigger] out[i]@ == x by {
                    if x[m] < next {
                        let i = choose|i: int| out0.len() <= i < out1.len() && #[trigger] out1[i]@ == x;
                        assert(out[i] == out3.take(out2.len() as int)[i]);
                        assert(out[i] == out1[i]);
                    } else if x.len() == m + 1 {
                        assert(out[out1.len() as int] == out3.take(out2.len() as int)[out1.len() as int]);
                        assert(x =~= cur1);
                    } else {
                        assert(x.take(m + 1) =~= cur1) by {
                            assert(x.take(m + 1) =~= x.take(m).push(x[m]));
                        }
                        assert(x[m + 1] > x[m]);
                        assert(extends_set(ind, n as int, cur1, next + 1, x));
                    }
                }
                assert forall|i: int, j: int| out0.len() <= i < j < out.len() implies #[trigger] out[i]@ != #[trigger] out[j]@ by {
                    if j < out1.len() {
                        assert(out[i] == out1[i] && out[j] == out1[j]) by {
                            assert(out[i] == out3.take(out2.len() as int)[i]);
                            assert(out[j] == out3.take(out2.len() as int)[j]);
                        }
                    } else if i < out1.len() {
                        assert(out[i] == out3.take(out2.len() as int)[i]);
                        assert(out[i]@[m] < next);
                        if j == out1.len() {
                            assert(out[j] == out3.take(out2.len() as int)[j]);
                            assert(out[j]@[m] == next);
                        } else {
                            assert(extends_set(ind, n as int, cur1, next + 1, out[j]@));
                            assert(out[j]@.take(m + 1) == cur1);
                            assert(out[j]@[m] == out[j]@.take(m + 1)[m]);
                        }
                    } else if i == out1.len() {
                        assert(out[i] == out3.take(out2.len() as int)[i]);
                        assert(extends_set(ind, n as int, cur1, next + 1, out[j]@));
                    }
                }
                assert forall|i: int, j: int| out0.len() <= i < j < out.len() implies lex_before(#[trigger] out[i]@, #[trigger] out[j]@) by {
                    if j < out1.len() {
                        assert(out[i] == out1[i] && out[j] == out1[j]) by {
                            assert(out[i] == out3.take(out2.len() as int)[i]);
                            assert(out[j] == out3.take(out2.len() as int)[j]);
                        }
                    } else if i < out1.len() {
                        assert(out[i] == out3.take(out2.len() as int)[i]);
                        let x = out[i]@;
                        let y = out[j]@;
                        assert(x.take(m) == cur && x[m] < next);
                        if j == out1.len() {
                            assert(out[j] == out3.take(out2.len() as int)[j]);
                            assert(y == cur1);
                            assert(y.take(m) =~= cur);
                        } else {
                            assert(extends_set(ind, n as int, cur1, next + 1, y));
                            assert(y.take(m + 1) == cur1);
                            assert(y.take(m) =~= y.take(m + 1).take(m));
                            assert(y[m] == y.take(m + 1)[m]);
                        }
                        assert(lex_split(x, y, m as int));
                    } else if i == out1.len() {
                        assert(out[i] == out3.take(out2.len() as int)[i]);
                        let x = out[i]@;
                        let y = out[j]@;
                        assert(x == cur1);
                        assert(extends_set(ind, n as int, cur1, next + 1, y));
                        assert(x.take(m + 1) =~= cur1);
                        assert(lex_split(x, y, m + 1));
                    }
                }
            }
        } else {
            proof {
                assert forall|x: Seq<usize>| #[trigger] extends_set(ind, n as int, cur, from as int, x) && x[m] < next + 1 implies exists|i: int|
                    out0.len() <= i < out.len() && #[trigger] out[i]@ == x by {
                    if x[m] == next {
                        assert(ind[x[m] as int]@[x[m] as int]);
                        assert forall|k2: int| 0 <= k2 < m implies #[trigger] ind[cur[k2] as int]@[next as int] && ind[next as int]@[cur[k2] as int] by {
                            assert(x.take(m)[k2] == x[k2]);
                            assert(ind[x[k2] as int]@[x[m] as int]);
                            assert(ind[x[m] as int]@[x[k2] as int]);
                        }
                    }
                }
            }
        }
        next = next + 1;
    }
}

/// All non-empty independent sets of ids below `n`, each once.
pub fn independent_subsets(n: usize, independent: &Vec<Vec<bool>>) -> (out: Vec<Vec<usize>>)
    requires
        covers_n(independent@, n as int),
    ensures
        forall|i: int| 0 <= i < out.len() ==> (#[trigger] out[i]@).len() > 0 && indep_set(independent@, n as int, out[i]@),
        forall|x: Seq<usize>| x.len() > 0 && #[trigger] indep_set(independent@, n as int, x) ==> lists(out@, x),
        no_repeats(out@),
        forall|i: int, j: int| 0 <= i < j < out.len() ==> lex_before(#[trigger] out[i]@, #[trigger] out[j]@),
{
    let mut out: Vec<Vec<usize>> = Vec::new();
    let mut current: Vec<usize> = Vec::new();
    proof {
        assert(indep_set(independent@, n as int, current@));
    }
    extend_independent(0, n, independent, &mut current, &mut out);
    proof {
        assert forall|i: int| 0 <= i < out.len() implies (#[trigger] out[i]@).len() > 0 && indep_set(independent@, n as int, out[i]@) by {
            assert(extends_set(independent@, n as int, Seq::empty(), 0, out[i]@));
        }
        assert forall|x: Seq<usize>| x.len() > 0 && #[trigger] indep_set(independent@, n as int, x) implies lists(out@, x) by {
            assert(x.take(0) =~= Seq::<usize>::empty());
            assert(x[0] < n);
            assert(extends_set(independent@, n as int, Seq::empty(), 0, x));
        }
    }
    out
}

/// `(a, b)` is a causal pair: two non-empty independent sets with every
/// `a`-member causally before every `b`-member.
pub open spec fn causal_pair(causal: Seq<Vec<bool>>, ind: Seq<Vec<bool>>, n: int, a: Seq<usize>, b: Seq<usize>) -> bool {
    &&& a.len() > 0
    &&& b.len() > 0
    &&& indep_set(ind, n, a)
    &&& indep_set(ind, n, b)
    &&& forall|i: int, j: int| 0 <= i < a.len() && 0 <= j < b.len() ==> #[trigger] causal[a[i] as int]@[b[j] as int]
}

/// Every member of `a` is in `b`.
pub open spec fn covered(a: Seq<usize>, b: Seq<usize>) -> bool {
    forall|k: int| 0 <= k < a.len() ==> b.contains(#[trigger] a[k])
}

/// `(a2, b2)` strictly contains `(a, b)`.
pub open spec fn dominated(a: Seq<usize>, b: Seq<usize>, a2: Seq<usize>, b2: Seq<usize>) -> bool {
    covered(a, a2) && covered(b, b2) && (a.len() < a2.len() || b.len() < b2.len())
}

/// `(a, b)` is a causal pair contained in no other.
pub open spec fn maximal_pair(causal: Seq<Vec<bool>>, ind: Seq<Vec<bool>>, n: int, a: Seq<usize>, b: Seq<usize>) -> bool {
    &&& causal_pair(causal, ind, n, a, b)
    &&& forall|a2: Seq<usize>, b2: Seq<usize>| #[trigger] causal_pair(causal, ind, n, a2, b2) ==> !dominated(a, b, a2, b2)
}

/// Does `b` hold every member of `a`?
fn covers(a: &Vec<usize>, b: &Vec<usize>) -> (r: bool)
    ensures
        r == covered(a@, b@),
{
    let mut k: usize = 0;
    while k < a.len()
        invariant
            0 <= k <= a.len(),
            forall|k2: int| 0 <= k2 < k ==> b@.contains(#[trigger] a@[k2]),
        decreases a.len() - k,
    {
        let mut found = false;
        let mut j: usize = 0;
        while j < b.len()
            invariant
                k < a.len(),
                0 <= j <= b.len(),
                found == exists|j2: int| 0 <= j2 < j && b@[j2] == a@[k as int],
            decreases b.len() - j,
        {
            if b[j] == a[k] {
                found = true;
            }
            j = j + 1;
        }
        if !found {
            assert(!b@.contains(a@[k as int]));
            return false;
        }
        k = k + 1;
    }
    true
}

/// Per id `b < n`: does every member of `a` cause `b`?
fn caused_by_all(n: usize, causal: &Vec<Vec<bool>>, a: &Vec<usize>) -> (common: Vec<bool>)
    requires
        square_n(causal@, n as int),
        forall|k: int| 0 <= k < a.len() ==> #[trigger] a[k] < n,
    ensures
        common.len() == n,
        forall|b: int| 0 <= b < n ==> #[trigger] common[b] == forall|k: int| 0 <= k < a.len() ==> #[trigger] causal@[a@[k] as int]@[b],
{
    let ghost cau = causal@;
    let ghost av = a@;
    let mut common: Vec<bool> = Vec::new();
    for b in 0..n
        invariant
            square_n(cau, n as int),
            cau == causal@,
            a@ == av,
            forall|k: int| 0 <= k < av.len() ==> #[trigger] av[k] < n,
            common.len() == b,
            forall|b2: int| 0 <= b2 < b ==> #[trigger] common[b2] == forall|k: int| 0 <= k < av.len() ==> #[trigger] cau[av[k] as int]@[b2],
    {
        let mut all = true;
        for k in 0..a.len()
            invariant
                square_n(cau, n as int),
                cau == causal@,
                a@ == av,
                forall|k3: int| 0 <= k3 < av.len() ==> #[trigger] av[k3] < n,
                b < n,
                all == forall|k2: int| 0 <= k2 < k ==> #[trigger] cau[av[k2] as int]@[b as int],
        {
            assert(av[k as int] < n);
            assert(cau[av[k as int] as int].len() == n);
            all = all && causal[a[k]][b];
        }
        common.push(all);
    }
    common
}

/// `independent`, with every id outside `keep` independent of nothing.
fn restrict(n: usize, independent: &Vec<Vec<bool>>, keep: &Vec<bool>) -> (sub: Vec<Vec<bool>>)
    requires
        square_n(independent@, n as int),
        keep.len() == n,
    ensures
        square_n(sub@, n as int),
        forall|x: int, y: int| 0 <= x < n && 0 <= y < n ==> #[trigger] sub[x]@[y] == (independent@[x]@[y] && keep[x] && keep[y]),
{
    let ghost ind = independent@;
    let mut sub: Vec<Vec<bool>> = Vec::new();
    for x in 0..n
        invariant
            square_n(ind, n as int),
            ind == independent@,
            keep.len() == n,
            sub.len() == x,
            forall|x2: int| 0 <= x2 < x ==> #[trigger] sub[x2].len() == n,
            forall|x2: int, y: int| 0 <= x2 < x && 0 <= y < n ==> #[trigger] sub[x2]@[y] == (ind[x2]@[y] && keep[x2] && keep[y]),
    {
        let mut row: Vec<bool> = Vec::new();
        assert(ind[x as int].len() == n);
        for y in 0..n
            invariant
                square_n(ind, n as int),
                ind == independent@,
                keep.len() == n,
                x < n,
                ind[x as int].len() == n,
                row.len() == y,
                forall|y2: int| 0 <= y2 < y ==> #[trigger] row[y2] == (ind[x as int]@[y2] && keep[x as int] && keep[y2]),
        {
            row.push(independent[x][y] && keep[x] && keep[y]);
        }
        sub.push(row);
    }
    sub
}

/// What the pair enumeration holds after the first `ia` sets of `a_sets`:
/// every pair is causal with its first set among them, each of their causal
/// pairs is listed, and no pair twice.
pub open spec fn pairs_so_far(
    cau: Seq<Vec<bool>>,
    ind: Seq<Vec<bool>>,
    n: int,
    a_sets: Seq<Vec<usize>>,
    ia: int,
    pairs: Seq<(Vec<usize>, Vec<usize>)>,
) -> bool {
    &&& forall|i: int| 0 <= i < pairs.len() ==> causal_pair(cau, ind, n, (#[trigger] pairs[i]).0@, pairs[i].1@)
    &&& forall|i: int| 0 <= i < pairs.len() ==> exists|h: int| 0 <= h < ia && (#[trigger] pairs[i]).0@ == a_sets[h]@
    &&& forall|h: int, b: Seq<usize>| 0 <= h < ia && #[trigger] causal_pair(cau, ind, n, a_sets[h]@, b) ==> exists|i: int|
        0 <= i < pairs.len() && (#[trigger] pairs[i]).0@ == a_sets[h]@ && pairs[i].1@ == b
    &&& forall|i: int, j: int| 0 <= i < j < pairs.len() ==> (#[trigger] pairs[i]).0@ != (#[trigger] pairs[j]).0@ || pairs[i].1@ != pairs[j].1@
}

/// One round of the pair enumeration: appending `(a_sets[ia], b)` for every
/// independent set `b` of the ids that all of `a_sets[ia]` causes.
#[verifier::rlimit(30)]
proof fn lemma_pairs_round(
    cau: Seq<Vec<bool>>,
    ind: Seq<Vec<bool>>,
    n: int,
    a_sets: Seq<Vec<usize>>,
    ia: int,
    pairs0: Seq<(Vec<usize>, Vec<usize>)>,
    pairs: Seq<(Vec<usize>, Vec<usize>)>,
    sub: Seq<Vec<bool>>,
    common: Seq<bool>,
    b_sets: Seq<Vec<usize>>,
)
    requires
        0 <= ia < a_sets.len(),
        square_n(cau, n),
        square_n(ind, n),
        no_repeats(a_sets),
        a_sets[ia]@.len() > 0 && indep_set(ind, n, a_sets[ia]@),
        pairs_so_far(cau, ind, n, a_sets, ia, pairs0),
        forall|x2: int, y: int| 0 <= x2 < n && 0 <= y < n ==> #[trigger] sub[x2]@[y] == (ind[x2]@[y] && common[x2] && common[y]),
        forall|b2: int| 0 <= b2 < n ==> #[trigger] common[b2] == forall|k: int| 0 <= k < a_sets[ia]@.len() ==> #[trigger] cau[a_sets[ia]@[k] as int]@[b2],
        forall|i: int| 0 <= i < b_sets.len() ==> (#[trigger] b_sets[i]@).len() > 0 && indep_set(sub, n, b_sets[i]@),
        forall|x: Seq<usize>| x.len() > 0 && #[trigger] indep_set(sub, n, x) ==> lists(b_sets, x),
        no_repeats(b_sets),
        pairs.take(pairs0.len() as int) == pairs0,
        pairs.len() == pairs0.len() + b_sets.len(),
        forall|i: int| pairs0.len() <= i < pairs.len() ==> (#[trigger] pairs[i]).0@ == a_sets[ia]@ && pairs[i].1@ == b_sets[i - pairs0.len()]@,
    ensures
        pairs_so_far(cau, ind, n, a_sets, ia + 1, pairs),
{
    let p0 = pairs0.len() as int;
    let av = a_sets[ia]@;
    assert forall|i: int| 0 <= i < pairs.len() implies causal_pair(cau, ind, n, (#[trigger] pairs[i]).0@, pairs[i].1@) by {
        if i < p0 {
            assert(pairs[i] == pairs.take(p0)[i]);
        } else {
            let b = pairs[i].1@;
            assert(indep_set(sub, n, b_sets[i - p0]@));
            assert forall|k1: int, k2: int| 0 <= k1 < b.len() && 0 <= k2 < b.len() implies #[trigger] ind[b[k1] as int]@[b[k2] as int] by {
                assert(sub[b[k1] as int]@[b[k2] as int]);
            }
            assert forall|i2: int, j: int| 0 <= i2 < av.len() && 0 <= j < b.len() implies #[trigger] cau[av[i2] as int]@[b[j] as int] by {
                assert(sub[b[j] as int]@[b[j] as int]);
                assert(common[b[j] as int]);
            }
        }
    }
    assert forall|i: int| 0 <= i < pairs.len() implies exists|h: int| 0 <= h < ia + 1 && (#[trigger] pairs[i]).0@ == a_sets[h]@ by {
        if i < p0 {
            assert(pairs[i] == pairs.take(p0)[i]);
            let h = choose|h: int| 0 <= h < ia && (#[trigger] pairs0[i]).0@ == a_sets[h]@;
            assert(pairs[i].0@ == a_sets[h]@);
        } else {
            assert(pairs[i].0@ == a_sets[ia]@);
        }
    }
    assert forall|h: int, b: Seq<usize>| 0 <= h < ia + 1 && #[trigger] causal_pair(cau, ind, n, a_sets[h]@, b) implies exists|i: int|
        0 <= i < pairs.len() && (#[trigger] pairs[i]).0@ == a_sets[h]@ && pairs[i].1@ == b by {
        if h < ia {
            let i = choose|i: int| 0 <= i < pairs0.len() && (#[trigger] pairs0[i]).0@ == a_sets[h]@ && pairs0[i].1@ == b;
            assert(pairs[i] == pairs.take(p0)[i]);
        } else {
            assert forall|k1: int, k2: int| 0 <= k1 < b.len() && 0 <= k2 < b.len() implies #[trigger] sub[b[k1] as int]@[b[k2] as int] by {
                assert(ind[b[k1] as int]@[b[k2] as int]);
                assert forall|k: int| 0 <= k < av.len() implies #[trigger] cau[av[k] as int]@[b[k1] as int] by {
                    assert(cau[av[k] as int]@[b[k1] as int]);
                }
                assert forall|k: int| 0 <= k < av.len() implies #[trigger] cau[av[k] as int]@[b[k2] as int] by {
                    assert(cau[av[k] as int]@[b[k2] as int]);
                }
                assert(b[k1] < n && b[k2] < n);
            }
            assert(indep_set(sub, n, b));
            assert(lists(b_sets, b));
            let ib = choose|ib: int| 0 <= ib < b_sets.len() && #[trigger] b_sets[ib]@ == b;
            assert(pairs[p0 + ib].1@ == b);
        }
    }
    assert forall|i: int, j: int| 0 <= i < j < pairs.len() implies (#[trigger] pairs[i]).0@ != (#[trigger] pairs[j]).0@ || pairs[i].1@ != pairs[j].1@ by {
        if j < p0 {
            assert(pairs[i] == pairs.take(p0)[i]);
            assert(pairs[j] == pairs.take(p0)[j]);
        } else if i < p0 {
            assert(pairs[i] == pairs.take(p0)[i]);
            let h = choose|h: int| 0 <= h < ia && (#[trigger] pairs0[i]).0@ == a_sets[h]@;
            assert(a_sets[h]@ != a_sets[ia]@);
        } else {
            assert(b_sets[i - p0]@ != b_sets[j - p0]@);
        }
    }
}

/// Every causal pair, each once: the sets of the alpha algorithm's `X`.
fn causal_pairs(n: usize, causal: &Vec<Vec<bool>>, independent: &Vec<Vec<bool>>) -> (pairs: Vec<(Vec<usize>, Vec<usize>)>)
    requires
        square_n(causal@, n as int),
        square_n(independent@, n as int),
    ensures
        forall|i: int| 0 <= i < pairs.len() ==> causal_pair(causal@, independent@, n as int, (#[trigger] pairs[i]).0@, pairs[i].1@),
        forall|a: Seq<usize>, b: Seq<usize>| #[trigger] causal_pair(causal@, independent@, n as int, a, b) ==> exists|i: int|
            0 <= i < pairs.len() && (#[trigger] pairs[i]).0@ == a && pairs[i].1@ == b,
        forall|i: int, j: int| 0 <= i < j < pairs.len() ==> (#[trigger] pairs[i]).0@ != (#[trigger] pairs[j]).0@ || pairs[i].1@ != pairs[j].1@,
{
    let ghost ind = independent@;
    let ghost cau = causal@;
    let a_sets = independent_subsets(n, independent);
    let mut pairs: Vec<(Vec<usize>, Vec<usize>)> = Vec::new();
    let mut ia: usize = 0;
    while ia < a_sets.len()
        invariant
            0 <= ia <= a_sets.len(),
            square_n(cau, n as int),
            square_n(ind, n as int),
            cau == causal@,
            ind == independent@,
            forall|i: int| 0 <= i < a_sets.len() ==> (#[trigger] a_sets[i]@).len() > 0 && indep_set(ind, n as int, a_sets[i]@),
            forall|x: Seq<usize>| x.len() > 0 && #[trigger] indep_set(ind, n as int, x) ==> lists(a_sets@, x),
            no_repeats(a_sets@),
            pairs_so_far(cau, ind, n as int, a_sets@, ia as int, pairs@),
        decreases a_sets.len() - ia,
    {
        let a = &a_sets[ia];
        let ghost av = a@;
        proof {
            assert(av.len() > 0 && indep_set(ind, n as int, av));
        }
        let common = caused_by_all(n, causal, a);
        let sub = restrict(n, independent, &common);
        let b_sets = independent_subsets(n, &sub);
        let ghost pairs0 = pairs@;
        let mut ib: usize = 0;
        while ib < b_sets.len()
            invariant
                0 <= ib <= b_sets.len(),
                a@ == av,
                pairs@.take(pairs0.len() as int) == pairs0,
                pairs.len() == pairs0.len() + ib,
                forall|i: int| pairs0.len() <= i < pairs.len() ==> (#[trigger] pairs[i]).0@ == av && pairs[i].1@ == b_sets[i - pairs0.len()]@,
            decreases b_sets.len() - ib,
        {
            let pair = (a.clone(), b_sets[ib].clone());
            let ghost before = pairs@;
            pairs.push(pair);
            proof {
                assert(pairs@.take(pairs0.len() as int) =~= before.take(pairs0.len() as int));
            }
            ib = ib + 1;
        }
        proof {
            lemma_pairs_round(cau, ind, n as int, a_sets@, ia as int, pairs0, pairs@, sub@, common@, b_sets@);
        }
        ia = ia + 1;
    }
    proof {
        assert forall|a: Seq<usize>, b: Seq<usize>| #[trigger] causal_pair(cau, ind, n as int, a, b) implies exists|i: int|
            0 <= i < pairs.len() && (#[trigger] pairs[i]).0@ == a && pairs[i].1@ == b by {
            assert(lists(a_sets@, a));
            let h = choose|h: int| 0 <= h < a_sets.len() && #[trigger] a_sets@[h]@ == a;
            assert(causal_pair(cau, ind, n as int, a_sets@[h]@, b));
        }
    }
    pairs
}

/// The maximal causal pairs (the alpha algorithm's `Y`), each once.
#[verifier::rlimit(60)]
pub fn maximal_pairs(n: usize, causal: &Vec<Vec<bool>>, independent: &Vec<Vec<bool>>) -> (r: Vec<(Vec<usize>, Vec<usize>)>)
    requires
        square_n(causal@, n as int),
        square_n(independent@, n as int),
    ensures
        forall|i: int| 0 <= i < r.len() ==> maximal_pair(causal@, independent@, n as int, (#[trigger] r[i]).0@, r[i].1@),
        forall|a: Seq<usize>, b: Seq<usize>| #[trigger] maximal_pair(causal@, independent@, n as int, a, b) ==> exists|i: int|
            0 <= i < r.len() && (#[trigger] r[i]).0@ == a && r[i].1@ == b,
        forall|i: int, j: int| 0 <= i < j < r.len() ==> (#[trigger] r[i]).0@ != (#[trigger] r[j]).0@ || r[i].1@ != r[j].1@,
{
    let ghost cau = causal@;
    let ghost ind = independent@;
    let pairs = causal_pairs(n, causal, independent);
    let mut r: Vec<(Vec<usize>, Vec<usize>)> = Vec::new();
    let ghost mut from: Seq<int> = Seq::empty();
    for i in 0..pairs.len()
        invariant
            cau == causal@,
            ind == independent@,
            forall|i2: int| 0 <= i2 < pairs.len() ==> causal_pair(cau, ind, n as int, (#[trigger] pairs[i2]).0@, pairs[i2].1@),
            forall|a: Seq<usize>, b: Seq<usize>| #[trigger] causal_pair(cau, ind, n as int, a, b) ==> exists|i2: int|
                0 <= i2 < pairs.len() && (#[trigger] pairs[i2]).0@ == a && pairs[i2].1@ == b,
            forall|i2: int, j: int| 0 <= i2 < j < pairs.len() ==> (#[trigger] pairs[i2]).0@ != (#[trigger] pairs[j]).0@ || pairs[i2].1@ != pairs[j].1@,
            from.len() == r.len(),
            forall|k: int| 0 <= k < r.len() ==> 0 <= #[trigger] from[k] < i && r[k].0@ == pairs[from[k]].0@ && r[k].1@ == pairs[from[k]].1@,
            forall|k1: int, k2: int| 0 <= k1 < k2 < r.len() ==> #[trigger] from[k1] < #[trigger] from[k2],
            forall|k: int| 0 <= k < r.len() ==> maximal_pair(cau, ind, n as int, (#[trigger] r[k]).0@, r[k].1@),
            forall|i2: int| 0 <= i2 < i && maximal_pair(cau, ind, n as int, (#[trigger] pairs[i2]).0@, pairs[i2].1@) ==> exists|k: int|
                0 <= k < r.len() && #[trigger] from[k] == i2,
    {
        let mut beaten = false;
        let mut j: usize = 0;
        while j < pairs.len()
            invariant
                0 <= j <= pairs.len(),
                i < pairs.len(),
                beaten == exists|j2: int| 0 <= j2 < j && dominated(pairs[i as int].0@, pairs[i as int].1@, (#[trigger] pairs[j2]).0@, pairs[j2].1@),
            decreases pairs.len() - j,
        {
            let (a, b) = (&pairs[i].0, &pairs[i].1);
            let (a2, b2) = (&pairs[j].0, &pairs[j].1);
            if covers(a, a2) && covers(b, b2) && (a.len() < a2.len() || b.len() < b2.len()) {
                beaten = true;
            }
            j = j + 1;
        }
        proof {
            let a = pairs[i as int].0@;
            let b = pairs[i as int].1@;
            if beaten {
                let j2 = choose|j2: int| 0 <= j2 < pairs.len() && dominated(a, b, (#[trigger] pairs[j2]).0@, pairs[j2].1@);
                assert(causal_pair(cau, ind, n as int, pairs[j2].0@, pairs[j2].1@));
            } else {
                assert forall|a2: Seq<usize>, b2: Seq<usize>| #[trigger] causal_pair(cau, ind, n as int, a2, b2) implies !dominated(a, b, a2, b2) by {
                    let j2 = choose|j2: int| 0 <= j2 < pairs.len() && (#[trigger] pairs[j2]).0@ == a2 && pairs[j2].1@ == b2;
                }
            }
        }
        if !beaten {
            let ghost r0 = r@;
            let pair = (pairs[i].0.clone(), pairs[i].1.clone());
            r.push(pair);
            let ghost from0 = from;
            proof {
                from = from.push(i as int);
                assert forall|k: int| 0 <= k < r.len() implies maximal_pair(cau, ind, n as int, (#[trigger] r[k]).0@, r[k].1@) by {
                    if k < r0.len() {
                        assert(r[k] == r0[k]);
                    }
                }
                assert forall|i2: int| 0 <= i2 < i + 1 && maximal_pair(cau, ind, n as int, (#[trigger] pairs[i2]).0@, pairs[i2].1@) implies exists|k: int|
                    0 <= k < r.len() && #[trigger] from[k] == i2 by {
                    if i2 == i {
                        assert(from[r.len() - 1] == i2);
                    } else {
                        let k = choose|k: int| 0 <= k < r0.len() && #[trigger] from0[k] == i2;
                        assert(from[k] == from0[k]);
                    }
                }
            }
        }
    }
    proof {
        assert forall|a: Seq<usize>, b: Seq<usize>| #[trigger] maximal_pair(cau, ind, n as int, a, b) implies exists|i: int|
            0 <= i < r.len() && (#[trigger] r[i]).0@ == a && r[i].1@ == b by {
            let i2 = choose|i2: int| 0 <= i2 < pairs.len() && (#[trigger] pairs[i2]).0@ == a && pairs[i2].1@ == b;
            assert(maximal_pair(cau, ind, n as int, pairs[i2].0@, pairs[i2].1@));
            let k = choose|k: int| 0 <= k < r.len() && #[trigger] from[k] == i2;
            assert(r[k].0@ == a);
        }
        assert forall|k1: int, k2: int| 0 <= k1 < k2 < r.len() implies (#[trigger] r[k1]).0@ != (#[trigger] r[k2]).0@ || r[k1].1@ != r[k2].1@ by {
            assert(from[k1] < from[k2]);
        }
    }
    r
}

/// Some trace steps from activity `a` directly to activity `b`, at
/// position `k` of slot `s` with `(s, k)` before `(s_end, k_end)`.
pub open spec fn df_before(steps: Seq<Vec<Step>>, s_end: int, k_end: int, a: int, b: int) -> bool {
    exists|s: int, k: int|
        0 <= s < steps.len() && 0 <= k && k + 1 < steps[s].len() && (s < s_end || (s == s_end && k < k_end))
            && #[trigger] steps[s]@[k].activity == a && steps[s]@[k + 1].activity == b
}

/// Some trace steps from activity `a` directly to activity `b`.
pub open spec fn df_ids(steps: Seq<Vec<Step>>, a: int, b: int) -> bool {
    df_before(steps, steps.len() as int, 0, a, b)
}

/// Some trace starts (`first`) or ends (`!first`) with activity `a`, among
/// the first `s_end` slots.
pub open spec fn edge_before(steps: Seq<Vec<Step>>, s_end: int, a: int, first: bool) -> bool {
    if first {
        exists|s: int| 0 <= s < s_end && s < steps.len() && steps[s].len() > 0 && #[trigger] steps[s]@.first().activity == a
    } else {
        exists|s: int| 0 <= s < s_end && s < steps.len() && steps[s].len() > 0 && #[trigger] steps[s]@.last().activity == a
    }
}

/// The footprint of traces `t`: directly-follows, start and end activities.
pub fn footprint(t: &Traces) -> (r: (Vec<Vec<bool>>, Vec<bool>, Vec<bool>))
    requires
        forall|s: int, k: int| 0 <= s < t.steps.len() && 0 <= k < t.steps[s].len() ==> #[trigger] t.steps[s]@[k].activity < t.activity_names.len(),
    ensures
        square_n(r.0@, t.activity_names.len() as int),
        r.1.len() == t.activity_names.len(),
        r.2.len() == t.activity_names.len(),
        forall|a: int, b: int|
            0 <= a < t.activity_names.len() && 0 <= b < t.activity_names.len() ==> #[trigger] r.0@[a]@[b] == df_ids(t.steps@, a, b),
        forall|a: int| 0 <= a < t.activity_names.len() ==> #[trigger] r.1@[a] == edge_before(t.steps@, t.steps.len() as int, a, true),
        forall|a: int| 0 <= a < t.activity_names.len() ==> #[trigger] r.2@[a] == edge_before(t.steps@, t.steps.len() as int, a, false),
{
    let n = t.activity_names.len();
    let ghost steps = t.steps@;
    let mut follows: Vec<Vec<bool>> = Vec::new();
    for a in 0..n
        invariant
            follows.len() == a,
            forall|a2: int| 0 <= a2 < a ==> #[trigger] follows[a2].len() == n,
            forall|a2: int, b: int| 0 <= a2 < a && 0 <= b < n ==> !#[trigger] follows[a2]@[b],
    {
        let mut row: Vec<bool> = Vec::new();
        for b in 0..n
            invariant
                row.len() == b,
                forall|b2: int| 0 <= b2 < b ==> !#[trigger] row[b2],
        {
            row.push(false);
        }
        follows.push(row);
    }
    let mut starts: Vec<bool> = Vec::new();
    let mut ends: Vec<bool> = Vec::new();
    for a in 0..n
        invariant
            starts.len() == a,
            ends.len() == a,
            forall|a2: int| 0 <= a2 < a ==> !#[trigger] starts[a2],
            forall|a2: int| 0 <= a2 < a ==> !#[trigger] ends[a2],
    {
        starts.push(false);
        ends.push(false);
    }
    let ns = t.steps.len();
    for s in 0..ns
        invariant
            ns == t.steps.len(),
            steps == t.steps@,
            n == t.activity_names.len(),
            forall|s2: int, k: int| 0 <= s2 < steps.len() && 0 <= k < steps[s2].len() ==> #[trigger] steps[s2]@[k].activity < n,
            square_n(follows@, n as int),
            starts.len() == n,
            ends.len() == n,
            forall|a: int, b: int| 0 <= a < n && 0 <= b < n ==> #[trigger] follows@[a]@[b] == df_before(steps, s as int, 0, a, b),
            forall|a: int| 0 <= a < n ==> #[trigger] starts@[a] == edge_before(steps, s as int, a, true),
            forall|a: int| 0 <= a < n ==> #[trigger] ends@[a] == edge_before(steps, s as int, a, false),
    {
        let row = &t.steps[s];
        let len = row.len();
        if len > 0 {
            let first = row[0].activity;
            let last = row[len - 1].activity;
            starts.set(first, true);
            ends.set(last, true);
        }
        proof {
            assert forall|a: int| 0 <= a < n implies #[trigger] starts@[a] == edge_before(steps, s + 1, a, true) by {
                if edge_before(steps, s + 1, a, true) && !edge_before(steps, s as int, a, true) {
                    assert(steps[s as int]@.first().activity == a);
                }
                if len > 0 && a == row@[0].activity {
                    assert(steps[s as int]@.first().activity == a);
                    assert(edge_before(steps, s + 1, a, true));
                }
            }
            assert forall|a: int| 0 <= a < n implies #[trigger] ends@[a] == edge_before(steps, s + 1, a, false) by {
                if edge_before(steps, s + 1, a, false) && !edge_before(steps, s as int, a, false) {
                    assert(steps[s as int]@.last().activity == a);
                }
                if len > 0 && a == row@[len - 1].activity {
                    assert(steps[s as int]@.last().activity == a);
                    assert(edge_before(steps, s + 1, a, false));
                }
            }
        }
        let bound = if len > 0 { len - 1 } else { 0 };
        let mut k: usize = 0;
        while k < bound
            invariant
                len > 0 ==> bound == len - 1,
                len == 0 ==> bound == 0,
                k <= bound,
                ns == t.steps.len(),
                steps == t.steps@,
                n == t.activity_names.len(),
                s < ns,
                row == &t.steps[s as int],
                len == row.len(),
                forall|s2: int, k2: int| 0 <= s2 < steps.len() && 0 <= k2 < steps[s2].len() ==> #[trigger] steps[s2]@[k2].activity < n,
                square_n(follows@, n as int),
                forall|a: int, b: int| 0 <= a < n && 0 <= b < n ==> #[trigger] follows@[a]@[b] == df_before(steps, s as int, k as int, a, b),
            decreases bound - k,
        {
            let a = row[k].activity;
            let b = row[k + 1].activity;
            let ghost f0 = follows@;
            let mut r: Vec<bool> = Vec::new();
            std::mem::swap(&mut r, &mut follows[a]);
            assert(r@ == f0[a as int]@);
            assert(f0[a as int].len() == n);
            r.set(b, true);
            follows.set(a, r);
            proof {
                assert forall|i: int| 0 <= i < n implies #[trigger] follows@[i].len() == n by {
                    if i != a {
                        assert(follows@[i] == f0[i]);
                    }
                }
                assert forall|x: int, y: int| 0 <= x < n && 0 <= y < n implies #[trigger] follows@[x]@[y] == df_before(steps, s as int, k + 1, x, y) by {
                    if x != a {
                        assert(follows@[x] == f0[x]);
                    }
                    if x == a && y == b {
                        assert(steps[s as int]@[k as int].activity == a);
                    } else {
                        assert(follows@[x]@[y] == f0[x]@[y]);
                        if df_before(steps, s as int, k + 1, x, y) {
                            let (s2, k2) = choose|s2: int, k2: int|
                                0 <= s2 < steps.len() && 0 <= k2 && k2 + 1 < steps[s2].len() && (s2 < s || (s2 == s && k2 < k + 1))
                                    && #[trigger] steps[s2]@[k2].activity == x && steps[s2]@[k2 + 1].activity == y;
                            if s2 == s && k2 == k {
                                assert(false);
                            }
                        }
                    }
                }
            }
            k = k + 1;
        }
        proof {
            assert forall|x: int, y: int| 0 <= x < n && 0 <= y < n implies #[trigger] follows@[x]@[y] == df_before(steps, s + 1, 0, x, y) by {
                if df_before(steps, s + 1, 0, x, y) {
                    let (s2, k2) = choose|s2: int, k2: int|
                        0 <= s2 < steps.len() && 0 <= k2 && k2 + 1 < steps[s2].len() && (s2 < s + 1 || (s2 == s + 1 && k2 < 0))
                            && #[trigger] steps[s2]@[k2].activity == x && steps[s2]@[k2 + 1].activity == y;
                    if s2 == s {
                        assert(df_before(steps, s as int, k as int, x, y));
                    }
                }
                if df_before(steps, s as int, k as int, x, y) {
                    let (s2, k2) = choose|s2: int, k2: int|
                        0 <= s2 < steps.len() && 0 <= k2 && k2 + 1 < steps[s2].len() && (s2 < s || (s2 == s && k2 < k))
                            && #[trigger] steps[s2]@[k2].activity == x && steps[s2]@[k2 + 1].activity == y;
                    assert(df_before(steps, s + 1, 0, x, y));
                }
            }
        }
    }
    (follows, starts, ends)
}


/// The pair enumeration is exponential in the number of activities: it is
/// refused beyond this many.
pub const MAX_ACTIVITIES: usize = 20;

/// The warning for a self-loop on activity `name`.
pub open spec fn self_loop_text(name: Seq<char>) -> Seq<char> {
    "self-loop on '"@ + name + "' cannot be modeled by the alpha algorithm; use the inductive miner"@
}

/// The warning for `n` activities beyond the cutoff `limit`.
pub open spec fn cutoff_text(n: nat, limit: nat) -> Seq<char> {
    decimal(n) + " activities exceed the alpha pair-enumeration cutoff ("@ + decimal(limit) + "); returning transitions only"@
}

/// The warning for a self-loop on activity `name`.
fn self_loop_warning(name: &String) -> (r: String)
    ensures
        r@ == self_loop_text(name@),
{
    let mut r = String::from_str("self-loop on '");
    r.append(name.as_str());
    r.append("' cannot be modeled by the alpha algorithm; use the inductive miner");
    r
}

/// The warning for `n` activities beyond the cutoff `limit`.
fn cutoff_warning(n: usize, limit: usize) -> (r: String)
    ensures
        r@ == cutoff_text(n as nat, limit as nat),
{
    let mut r = decimal_text(n);
    r.append(" activities exceed the alpha pair-enumeration cutoff (");
    let l = decimal_text(limit);
    r.append(l.as_str());
    r.append("); returning transitions only");
    r
}

/// The self-loop warnings of the first `k` activities, in id order.
pub open spec fn loop_warnings(steps: Seq<Vec<Step>>, names: Seq<String>, k: int) -> Seq<Seq<char>>
    decreases k,
{
    if k <= 0 {
        Seq::empty()
    } else if df_ids(steps, k - 1, k - 1) {
        loop_warnings(steps, names, k - 1).push(self_loop_text(names[k - 1]@))
    } else {
        loop_warnings(steps, names, k - 1)
    }
}

/// `cau` and `ind` are the causal and independence relations of the
/// directly-follows relation of `steps` over `n` activities.
pub open spec fn relations_of(steps: Seq<Vec<Step>>, n: int, cau: Seq<Vec<bool>>, ind: Seq<Vec<bool>>) -> bool {
    &&& square_n(cau, n)
    &&& square_n(ind, n)
    &&& forall|a: int, b: int| 0 <= a < n && 0 <= b < n ==> #[trigger] cau[a]@[b] == (df_ids(steps, a, b) && !df_ids(steps, b, a))
    &&& forall|a: int, b: int| 0 <= a < n && 0 <= b < n ==> #[trigger] ind[a]@[b] == (!df_ids(steps, a, b) && !df_ids(steps, b, a))
}

/// The activities some trace starts (`first`) or ends (`!first`) with.
pub open spec fn edge_ids(steps: Seq<Vec<Step>>, first: bool) -> Set<int> {
    Set::new(|a: int| edge_before(steps, steps.len() as int, a, first))
}

/// Place `p` stands for a maximal pair.
pub open spec fn pair_place(names: Seq<String>, cau: Seq<Vec<bool>>, ind: Seq<Vec<bool>>, p: Place) -> bool {
    exists|a: Seq<usize>, b: Seq<usize>| maximal_pair(cau, ind, names.len() as int, a, b) && #[trigger] place_of(names, a, b, p)
}

/// Some place strictly between the first and the last stands for `(a, b)`.
pub open spec fn placed(names: Seq<String>, a: Seq<usize>, b: Seq<usize>, places: Seq<Place>) -> bool {
    exists|j: int| 1 <= j < places.len() - 1 && #[trigger] place_of(names, a, b, places[j])
}

/// The places of the net: the source place (before the start activities),
/// one place per maximal pair, numbered in place order, and the sink place
/// (after the end activities).
pub open spec fn places_ok(steps: Seq<Vec<Step>>, names: Seq<String>, cau: Seq<Vec<bool>>, ind: Seq<Vec<bool>>, places: Seq<Place>) -> bool {
    let m = places.len() - 1;
    &&& places.len() >= 2
    &&& places[0].id@ == "source"@
    &&& places[0].inputs.len() == 0
    &&& sorted_names(names, edge_ids(steps, true), texts(places[0].outputs@))
    &&& places[m].id@ == "sink"@
    &&& places[m].outputs.len() == 0
    &&& sorted_names(names, edge_ids(steps, false), texts(places[m].inputs@))
    &&& forall|j: int| 1 <= j < m ==> (#[trigger] places[j]).id@ == place_id(j as nat)
    &&& forall|j: int| 1 <= j < m ==> pair_place(names, cau, ind, #[trigger] places[j])
    &&& forall|a: Seq<usize>, b: Seq<usize>| #[trigger] maximal_pair(cau, ind, names.len() as int, a, b) ==> placed(names, a, b, places)
    &&& forall|i: int, j: int| 1 <= i < j < m ==> place_lt(#[trigger] places[i], #[trigger] places[j])
}

/// `r` is the alpha net of the traces `t` of type `ty`.
pub open spec fn net_of(t: Traces, ty: Seq<char>, r: PetriNet) -> bool {
    let names = t.activity_names@;
    let n = names.len();
    let steps = t.steps@;
    &&& r.object_type@ == ty
    &&& sorted_names(names, Set::full(), texts(r.transitions@))
    &&& texts(r.warnings@) == if n > MAX_ACTIVITIES {
        loop_warnings(steps, names, n as int).push(cutoff_text(n, MAX_ACTIVITIES as nat))
    } else {
        loop_warnings(steps, names, n as int)
    }
    &&& n > MAX_ACTIVITIES ==> r.places.len() == 0
    &&& n <= MAX_ACTIVITIES ==> exists|cau: Seq<Vec<bool>>, ind: Seq<Vec<bool>>|
        relations_of(steps, n as int, cau, ind) && #[trigger] places_ok(steps, names, cau, ind, r.places@)
}

/// The causal and independence relations of a directly-follows matrix.
fn relations(n: usize, follows: &Vec<Vec<bool>>) -> (r: (Vec<Vec<bool>>, Vec<Vec<bool>>))
    requires
        square_n(follows@, n as int),
    ensures
        square_n(r.0@, n as int),
        square_n(r.1@, n as int),
        forall|a: int, b: int| 0 <= a < n && 0 <= b < n ==> #[trigger] r.0@[a]@[b] == (follows@[a]@[b] && !follows@[b]@[a]),
        forall|a: int, b: int| 0 <= a < n && 0 <= b < n ==> #[trigger] r.1@[a]@[b] == (!follows@[a]@[b] && !follows@[b]@[a]),
{
    let mut causal: Vec<Vec<bool>> = Vec::new();
    let mut independent: Vec<Vec<bool>> = Vec::new();
    let mut a: usize = 0;
    while a < n
        invariant
            square_n(follows@, n as int),
            a <= n,
            causal.len() == a,
            independent.len() == a,
            forall|x: int| 0 <= x < a ==> #[trigger] causal[x].len() == n,
            forall|x: int| 0 <= x < a ==> #[trigger] independent[x].len() == n,
            forall|x: int, y: int| 0 <= x < a && 0 <= y < n ==> #[trigger] causal@[x]@[y] == (follows@[x]@[y] && !follows@[y]@[x]),
            forall|x: int, y: int| 0 <= x < a && 0 <= y < n ==> #[trigger] independent@[x]@[y] == (!follows@[x]@[y] && !follows@[y]@[x]),
        decreases n - a,
    {
        let mut crow: Vec<bool> = Vec::new();
        let mut irow: Vec<bool> = Vec::new();
        let mut b: usize = 0;
        assert(follows@[a as int].len() == n);
        while b < n
            invariant
                square_n(follows@, n as int),
                a < n,
                b <= n,
                follows@[a as int].len() == n,
                crow.len() == b,
                irow.len() == b,
                forall|y: int| 0 <= y < b ==> #[trigger] crow@[y] == (follows@[a as int]@[y] && !follows@[y]@[a as int]),
                forall|y: int| 0 <= y < b ==> #[trigger] irow@[y] == (!follows@[a as int]@[y] && !follows@[y]@[a as int]),
            decreases n - b,
        {
            assert(follows@[b as int].len() == n);
            let ab = follows[a][b];
            let ba = follows[b][a];
            crow.push(ab && !ba);
            irow.push(!ab && !ba);
            b = b + 1;
        }
        causal.push(crow);
        independent.push(irow);
        a = a + 1;
    }
    (causal, independent)
}

/// The places between source and sink keep their ids and order when the
/// sink is appended.
proof fn lemma_net_order(mids: Seq<Place>, places: Seq<Place>, sink: Place)
    requires
        forall|j: int| 1 <= j < mids.len() ==> (#[trigger] mids[j]).id@ == place_id(j as nat),
        forall|i: int, j: int| 1 <= i < j < mids.len() ==> place_lt(#[trigger] mids[i], #[trigger] mids[j]),
        places == mids.push(sink),
    ensures
        forall|j: int| 1 <= j < places.len() - 1 ==> (#[trigger] places[j]).id@ == place_id(j as nat),
        forall|i: int, j: int| 1 <= i < j < places.len() - 1 ==> place_lt(#[trigger] places[i], #[trigger] places[j]),
{
    assert forall|j: int| 1 <= j < places.len() - 1 implies (#[trigger] places[j]).id@ == place_id(j as nat) by {
        assert(places[j] == mids[j]);
    }
    assert forall|i: int, j: int| 1 <= i < j < places.len() - 1 implies place_lt(#[trigger] places[i], #[trigger] places[j]) by {
        assert(places[i] == mids[i]);
        assert(places[j] == mids[j]);
    }
}

/// Every place between source and sink stands for a maximal pair.
proof fn lemma_net_sound(
    names: Seq<String>,
    cau: Seq<Vec<bool>>,
    ind: Seq<Vec<bool>>,
    maximal: Seq<(Vec<usize>, Vec<usize>)>,
    mids: Seq<Place>,
    places: Seq<Place>,
    sink: Place,
)
    requires
        forall|i: int| 0 <= i < maximal.len() ==> maximal_pair(cau, ind, names.len() as int, (#[trigger] maximal[i]).0@, maximal[i].1@),
        forall|j: int| 1 <= j < mids.len() ==> from_some_pair(names, maximal, #[trigger] mids[j]),
        places == mids.push(sink),
    ensures
        forall|j: int| 1 <= j < places.len() - 1 ==> pair_place(names, cau, ind, #[trigger] places[j]),
{
    assert forall|j: int| 1 <= j < places.len() - 1 implies pair_place(names, cau, ind, #[trigger] places[j]) by {
        assert(places[j] == mids[j]);
        assert(from_some_pair(names, maximal, mids[j]));
        let i = choose|i: int| 0 <= i < maximal.len() && #[trigger] place_of(names, maximal[i].0@, maximal[i].1@, mids[j]);
        assert(maximal_pair(cau, ind, names.len() as int, maximal[i].0@, maximal[i].1@));
    }
}

/// Every maximal pair has a place between source and sink.
proof fn lemma_net_complete(
    names: Seq<String>,
    cau: Seq<Vec<bool>>,
    ind: Seq<Vec<bool>>,
    maximal: Seq<(Vec<usize>, Vec<usize>)>,
    mids: Seq<Place>,
    places: Seq<Place>,
    sink: Place,
)
    requires
        forall|a: Seq<usize>, b: Seq<usize>| #[trigger] maximal_pair(cau, ind, names.len() as int, a, b) ==> exists|i: int|
            0 <= i < maximal.len() && (#[trigger] maximal[i]).0@ == a && maximal[i].1@ == b,
        forall|i: int| 0 <= i < maximal.len() ==> has_place(names, #[trigger] maximal[i], mids),
        places == mids.push(sink),
    ensures
        forall|a: Seq<usize>, b: Seq<usize>| #[trigger] maximal_pair(cau, ind, names.len() as int, a, b) ==> placed(names, a, b, places),
{
    assert forall|a: Seq<usize>, b: Seq<usize>| #[trigger] maximal_pair(cau, ind, names.len() as int, a, b) implies placed(names, a, b, places) by {
        let i = choose|i: int| 0 <= i < maximal.len() && (#[trigger] maximal[i]).0@ == a && maximal[i].1@ == b;
        assert(has_place(names, maximal[i], mids));
        let j = choose|j: int| 1 <= j < mids.len() && #[trigger] place_of(names, maximal[i].0@, maximal[i].1@, mids[j]);
        assert(places[j] == mids[j]);
    }
}

/// Discover a Petri net for `object_type` with the alpha algorithm.
pub fn alpha(log: &EventLog, object_type: &str) -> (r: PetriNet)
    requires
        log.wf(),
    ensures
        exists|t: Traces| #[trigger] t.describes(*log, object_type@) && net_of(t, object_type@, r),
{
    let t = build(log, object_type);
    let n = t.activity_names.len();
    let ghost names = t.activity_names@;
    let ghost steps = t.steps@;
    proof {
        assert forall|s: int, k: int| 0 <= s < t.steps.len() && 0 <= k < t.steps[s].len() implies #[trigger] t.steps[s]@[k].activity < t.activity_names.len() by {
            assert(t.step_ok(*log, s, k));
        }
    }
    let (follows, starts, ends) = footprint(&t);
    let ranks = name_ranks(&t.activity_names);
    proof {
        assert(ranks_of(names, ranks@));
    }
    let mut all: Vec<usize> = Vec::new();
    let mut a: usize = 0;
    while a < n
        invariant
            a <= n,
            all.len() == a,
            forall|k: int| 0 <= k < a ==> #[trigger] all[k] == k,
        decreases n - a,
    {
        all.push(a);
        a = a + 1;
    }
    let (_order, transitions) = named_sorted(&t.activity_names, &ranks, &all);
    proof {
        assert forall|x: int| 0 <= x < names.len() implies (Set::<int>::full().contains(x) <==> id_set(all@).contains(x)) by {
            assert(all@[x] as int == x);
        }
        lemma_sorted_names_sets(names, Set::full(), id_set(all@), texts(transitions@));
    }
    let mut warnings: Vec<String> = Vec::new();
    let mut a: usize = 0;
    while a < n
        invariant
            a <= n,
            n == t.activity_names.len(),
            names == t.activity_names@,
            square_n(follows@, n as int),
            forall|x: int, y: int| 0 <= x < n && 0 <= y < n ==> #[trigger] follows@[x]@[y] == df_ids(steps, x, y),
            texts(warnings@) == loop_warnings(steps, names, a as int),
        decreases n - a,
    {
        assert(follows@[a as int].len() == n);
        let ghost w0 = warnings@;
        if follows[a][a] {
            let w = self_loop_warning(&t.activity_names[a]);
            warnings.push(w);
            assert(texts(warnings@) =~= texts(w0).push(w@));
        }
        a = a + 1;
    }
    if n > MAX_ACTIVITIES {
        let w = cutoff_warning(n, MAX_ACTIVITIES);
        let ghost w0 = warnings@;
        warnings.push(w);
        assert(texts(warnings@) =~= texts(w0).push(w@));
        let r = PetriNet { object_type: object_type.to_owned(), transitions, places: Vec::new(), warnings };
        assert(net_of(t, object_type@, r));
        return r;
    }
    let (causal, independent) = relations(n, &follows);
    let maximal = maximal_pairs(n, &causal, &independent);
    proof {
        assert forall|i: int| 0 <= i < maximal.len() implies increasing((#[trigger] maximal[i]).0@) && increasing(maximal[i].1@)
            && below(maximal[i].0@, n as int) && below(maximal[i].1@, n as int) by {
            assert(maximal_pair(causal@, independent@, n as int, maximal[i].0@, maximal[i].1@));
        }
    }
    let start_ids = flagged_ids(&starts);
    let (_s, source_out) = named_sorted(&t.activity_names, &ranks, &start_ids);
    let end_ids = flagged_ids(&ends);
    let (_e, sink_in) = named_sorted(&t.activity_names, &ranks, &end_ids);
    let source = Place { id: "source".to_owned(), inputs: Vec::new(), outputs: source_out };
    let sink = Place { id: "sink".to_owned(), inputs: sink_in, outputs: Vec::new() };
    let mut places = middle_places(&t.activity_names, &ranks, &maximal, source);
    let ghost mids = places@;
    places.push(sink);
    let r = PetriNet { object_type: object_type.to_owned(), transitions, places, warnings };
    proof {
        lemma_net_order(mids, r.places@, sink);
        lemma_net_sound(names, causal@, independent@, maximal@, mids, r.places@, sink);
        lemma_net_complete(names, causal@, independent@, maximal@, mids, r.places@, sink);
        assert(relations_of(steps, n as int, causal@, independent@));
        assert forall|x: int| 0 <= x < names.len() implies (edge_ids(steps, true).contains(x) <==> id_set(start_ids@).contains(x)) by {
            if id_set(start_ids@).contains(x) {
                let k = choose|k: int| 0 <= k < start_ids.len() && #[trigger] start_ids@[k] as int == x;
            }
        }
        assert forall|x: int| 0 <= x < names.len() implies (edge_ids(steps, false).contains(x) <==> id_set(end_ids@).contains(x)) by {
            if id_set(end_ids@).contains(x) {
                let k = choose|k: int| 0 <= k < end_ids.len() && #[trigger] end_ids@[k] as int == x;
            }
        }
        lemma_sorted_names_sets(names, edge_ids(steps, true), id_set(start_ids@), texts(source.outputs@));
        lemma_sorted_names_sets(names, edge_ids(steps, false), id_set(end_ids@), texts(sink.inputs@));
        assert(r.places@[0] == source);
        assert(r.places@[r.places.len() - 1] == sink);
        assert(places_ok(steps, names, causal@, independent@, r.places@));
    }
    r
}

/// A self-looping activity joins no place: in the alpha net of any traces,
/// an activity that directly follows itself is neither an input nor an
/// output of any place between source and sink, so its transition fires
/// freely.
#[verifier::rlimit(40)]
pub proof fn law_self_loop_joins_no_place(log: EventLog, ty: Seq<char>, t: Traces, r: PetriNet, x: int, j: int)
    requires
        t.describes(log, ty),
        net_of(t, ty, r),
        0 <= x < t.activity_names.len(),
        df_ids(t.steps@, x, x),
        1 <= j < r.places.len() - 1,
    ensures
        !texts(r.places[j].inputs@).contains(t.activity_names[x]@),
        !texts(r.places[j].outputs@).contains(t.activity_names[x]@),
{
    let names = t.activity_names@;
    let n = names.len() as int;
    let steps = t.steps@;
    let (cau, ind) = choose|cau: Seq<Vec<bool>>, ind: Seq<Vec<bool>>|
        relations_of(steps, n, cau, ind) && #[trigger] places_ok(steps, names, cau, ind, r.places@);
    let p = r.places[j];
    assert(pair_place(names, cau, ind, r.places@[j]));
    let (a, b) = choose|a: Seq<usize>, b: Seq<usize>| maximal_pair(cau, ind, n, a, b) && #[trigger] place_of(names, a, b, p);
    assert(!ind[x]@[x]);
    assert forall|side: Seq<usize>| indep_set(ind, n, side) implies !name_in(names, id_set(side), names[x]@) by {
        if name_in(names, id_set(side), names[x]@) {
            let y = choose|y: int| 0 <= y < names.len() && id_set(side).contains(y) && #[trigger] names[y]@ == names[x]@;
            assert(y == x);
            let k = choose|k: int| 0 <= k < side.len() && #[trigger] side[k] as int == y;
            assert(ind[side[k] as int]@[side[k] as int]);
        }
    }
    if texts(p.inputs@).contains(names[x]@) {
        let q = choose|q: int| 0 <= q < texts(p.inputs@).len() && texts(p.inputs@)[q] == names[x]@;
        assert(name_in(names, id_set(a), texts(p.inputs@)[q]));
    }
    if texts(p.outputs@).contains(names[x]@) {
        let q = choose|q: int| 0 <= q < texts(p.outputs@).len() && texts(p.outputs@)[q] == names[x]@;
        assert(name_in(names, id_set(b), texts(p.outputs@)[q]));
    }
}

} // verus!
