//! Transitive closure of a relation over `0..n` (Warshall).
use vstd::prelude::*;

verus! {

/// `i` reaches `j` by one or more edges whose inner nodes are all below `k`.
pub open spec fn path_below(edge: spec_fn(int, int) -> bool, i: int, j: int, k: int) -> bool
    decreases k,
{
    if k <= 0 {
        edge(i, j)
    } else {
        path_below(edge, i, j, k - 1) || (path_below(edge, i, k - 1, k - 1) && path_below(edge, k - 1, j, k - 1))
    }
}

/// Step `q` of the walk `p` is an edge.
pub open spec fn step(edge: spec_fn(int, int) -> bool, p: Seq<int>, q: int) -> bool {
    edge(p[q], p[q + 1])
}

/// `p` is a walk of one or more edges through the nodes `0..n`.
pub open spec fn is_walk(edge: spec_fn(int, int) -> bool, p: Seq<int>, n: int) -> bool {
    &&& p.len() >= 2
    &&& forall|q: int| 0 <= q < p.len() ==> 0 <= #[trigger] p[q] < n
    &&& forall|q: int| 0 <= q < p.len() - 1 ==> #[trigger] step(edge, p, q)
}

/// Some walk of one or more edges through `0..n` leads from `i` to `j`.
pub open spec fn reaches(edge: spec_fn(int, int) -> bool, i: int, j: int, n: int) -> bool {
    exists|p: Seq<int>| #[trigger] is_walk(edge, p, n) && p[0] == i && p.last() == j
}

proof fn lemma_below_walk(edge: spec_fn(int, int) -> bool, i: int, j: int, k: int, n: int) -> (p: Seq<int>)
    requires
        0 <= i < n,
        0 <= j < n,
        k <= n,
        path_below(edge, i, j, k),
    ensures
        is_walk(edge, p, n),
        p[0] == i,
        p.last() == j,
    decreases k,
{
    if k <= 0 {
        let p = seq![i, j];
        assert(step(edge, p, 0));
        p
    } else if path_below(edge, i, j, k - 1) {
        lemma_below_walk(edge, i, j, k - 1, n)
    } else {
        let p1 = lemma_below_walk(edge, i, k - 1, k - 1, n);
        let p2 = lemma_below_walk(edge, k - 1, j, k - 1, n);
        let p = p1 + p2.drop_first();
        let m = p1.len() as int;
        assert forall|q: int| 0 <= q < p.len() implies 0 <= #[trigger] p[q] < n by {
            if q >= m {
                assert(p[q] == p2[q - m + 1]);
            }
        }
        assert forall|q: int| 0 <= q < p.len() - 1 implies #[trigger] step(edge, p, q) by {
            if q < m - 1 {
                assert(step(edge, p1, q));
            } else if q == m - 1 {
                assert(step(edge, p2, 0));
                assert(p[q] == p1.last() && p[q + 1] == p2[1]);
            } else {
                assert(step(edge, p2, q - m + 1));
                assert(p[q] == p2[q - m + 1] && p[q + 1] == p2[q - m + 2]);
            }
        }
        assert(p.last() == p2.last());
        p
    }
}

proof fn lemma_walk_below(edge: spec_fn(int, int) -> bool, p: Seq<int>, k: int, n: int)
    requires
        is_walk(edge, p, n),
        0 <= k,
        forall|q: int| 0 < q < p.len() - 1 ==> #[trigger] p[q] < k,
    ensures
        path_below(edge, p[0], p.last(), k),
    decreases k, p.len(),
{
    if k == 0 {
        if p.len() > 2 {
            assert(p[1] < 0);
        }
        assert(step(edge, p, 0));
    } else if exists|m: int| 0 < m < p.len() - 1 && p[m] == k - 1 {
        let m = choose|m: int| 0 < m < p.len() - 1 && p[m] == k - 1;
        let pre = p.take(m + 1);
        let suf = p.skip(m);
        assert forall|q: int| 0 <= q < pre.len() - 1 implies #[trigger] step(edge, pre, q) by {
            assert(step(edge, p, q));
        }
        assert forall|q: int| 0 <= q < suf.len() - 1 implies #[trigger] step(edge, suf, q) by {
            assert(step(edge, p, q + m));
        }
        assert forall|q: int| 0 <= q < pre.len() implies 0 <= #[trigger] pre[q] < n by {
            assert(pre[q] == p[q]);
        }
        assert forall|q: int| 0 <= q < suf.len() implies 0 <= #[trigger] suf[q] < n by {
            assert(suf[q] == p[q + m]);
        }
        assert forall|q: int| 0 < q < pre.len() - 1 implies #[trigger] pre[q] < k by {
            assert(pre[q] == p[q]);
        }
        assert forall|q: int| 0 < q < suf.len() - 1 implies #[trigger] suf[q] < k by {
            assert(suf[q] == p[q + m]);
        }
        lemma_walk_below(edge, pre, k, n);
        lemma_walk_below(edge, suf, k, n);
        assert(pre[0] == p[0] && pre.last() == k - 1);
        assert(suf[0] == k - 1 && suf.last() == p.last());
    } else {
        lemma_walk_below(edge, p, k - 1, n);
    }
}

/// The Warshall recursion at `n` is reachability by walks through `0..n`.
pub proof fn lemma_path_below_reaches(edge: spec_fn(int, int) -> bool, i: int, j: int, n: int)
    requires
        0 <= i < n,
        0 <= j < n,
    ensures
        path_below(edge, i, j, n) == reaches(edge, i, j, n),
{
    if path_below(edge, i, j, n) {
        let p = lemma_below_walk(edge, i, j, n, n);
        assert(is_walk(edge, p, n));
    }
    if reaches(edge, i, j, n) {
        let p = choose|p: Seq<int>| #[trigger] is_walk(edge, p, n) && p[0] == i && p.last() == j;
        lemma_walk_below(edge, p, n, n);
    }
}

/// The edges of an adjacency matrix.
pub open spec fn matrix_edge(m: Seq<Vec<bool>>) -> spec_fn(int, int) -> bool {
    |i: int, j: int| m[i]@[j]
}

/// `m` is an `n × n` matrix.
pub open spec fn square(m: Seq<Vec<bool>>, n: int) -> bool {
    m.len() == n && forall|i: int| 0 <= i < n ==> #[trigger] m[i].len() == n
}

/// Reachability by one or more edges of `edges` (an `n × n` matrix).
pub fn closure(edges: &Vec<Vec<bool>>, n: usize) -> (reach: Vec<Vec<bool>>)
    requires
        square(edges@, n as int),
    ensures
        square(reach@, n as int),
        forall|i: int, j: int|
            0 <= i < n && 0 <= j < n ==> #[trigger] reach[i]@[j] == path_below(matrix_edge(edges@), i, j, n as int),
        forall|i: int, j: int|
            0 <= i < n && 0 <= j < n ==> #[trigger] reach[i]@[j] == reaches(matrix_edge(edges@), i, j, n as int),
{
    let ghost e = matrix_edge(edges@);
    let mut reach: Vec<Vec<bool>> = Vec::new();
    for i in 0..n
        invariant
            square(edges@, n as int),
            e == matrix_edge(edges@),
            reach.len() == i,
            forall|i2: int| 0 <= i2 < i ==> #[trigger] reach[i2].len() == n,
            forall|i2: int, j: int| 0 <= i2 < i && 0 <= j < n ==> #[trigger] reach[i2]@[j] == path_below(e, i2, j, 0),
    {
        let mut row: Vec<bool> = Vec::new();
        for j in 0..n
            invariant
                square(edges@, n as int),
                i < n,
                e == matrix_edge(edges@),
                row.len() == j,
                forall|j2: int| 0 <= j2 < j ==> #[trigger] row[j2] == path_below(e, i as int, j2, 0),
        {
            assert(edges[i as int].len() == n);
            row.push(edges[i][j]);
        }
        reach.push(row);
    }
    for k in 0..n
        invariant
            square(reach@, n as int),
            forall|i: int, j: int| 0 <= i < n && 0 <= j < n ==> #[trigger] reach[i]@[j] == path_below(e, i, j, k as int),
    {
        let mut next: Vec<Vec<bool>> = Vec::new();
        assert(reach[k as int].len() == n);
        for i in 0..n
            invariant
                square(reach@, n as int),
                k < n,
                forall|i2: int, j: int| 0 <= i2 < n && 0 <= j < n ==> #[trigger] reach[i2]@[j] == path_below(e, i2, j, k as int),
                next.len() == i,
                forall|i2: int| 0 <= i2 < i ==> #[trigger] next[i2].len() == n,
                forall|i2: int, j: int| 0 <= i2 < i && 0 <= j < n ==> #[trigger] next[i2]@[j] == path_below(e, i2, j, k + 1),
        {
            assert(reach[i as int].len() == n);
            let ik = reach[i][k];
            let mut row: Vec<bool> = Vec::new();
            for j in 0..n
                invariant
                    square(reach@, n as int),
                    k < n,
                    i < n,
                    ik == reach[i as int]@[k as int],
                    forall|i2: int, j2: int| 0 <= i2 < n && 0 <= j2 < n ==> #[trigger] reach[i2]@[j2] == path_below(e, i2, j2, k as int),
                    row.len() == j,
                    forall|j2: int| 0 <= j2 < j ==> #[trigger] row[j2] == path_below(e, i as int, j2, k + 1),
            {
                assert(reach[i as int].len() == n);
                assert(reach[k as int].len() == n);
                let v = reach[i][j] || (ik && reach[k][j]);
                row.push(v);
            }
            next.push(row);
        }
        reach = next;
    }
    proof {
        assert forall|i: int, j: int| 0 <= i < n && 0 <= j < n implies #[trigger] reach[i]@[j] == reaches(e, i, j, n as int) by {
            lemma_path_below_reaches(e, i, j, n as int);
        }
    }
    reach
}

/// Paths only visit nodes below `n`, so relations agreeing there have the
/// same paths.
pub proof fn lemma_path_congruent(e1: spec_fn(int, int) -> bool, e2: spec_fn(int, int) -> bool, n: int, i: int, j: int, k: int)
    requires
        forall|a: int, b: int| 0 <= a < n && 0 <= b < n ==> #[trigger] e1(a, b) == e2(a, b),
        0 <= i < n,
        0 <= j < n,
        0 <= k <= n,
    ensures
        path_below(e1, i, j, k) == path_below(e2, i, j, k),
    decreases k,
{
    if k > 0 {
        lemma_path_congruent(e1, e2, n, i, j, k - 1);
        lemma_path_congruent(e1, e2, n, i, k - 1, k - 1);
        lemma_path_congruent(e1, e2, n, k - 1, j, k - 1);
    }
}

/// A relation closed under swapping its arguments.
pub open spec fn symmetric(e: spec_fn(int, int) -> bool) -> bool {
    forall|a: int, b: int| #[trigger] e(a, b) == e(b, a)
}

/// Paths of a symmetric relation run both ways.
pub proof fn lemma_path_symmetric(e: spec_fn(int, int) -> bool, i: int, j: int, k: int)
    requires
        symmetric(e),
        path_below(e, i, j, k),
    ensures
        path_below(e, j, i, k),
    decreases k,
{
    if k > 0 {
        if path_below(e, i, j, k - 1) {
            lemma_path_symmetric(e, i, j, k - 1);
        } else {
            lemma_path_symmetric(e, i, k - 1, k - 1);
            lemma_path_symmetric(e, k - 1, j, k - 1);
        }
    } else {
        assert(e(i, j) == e(j, i));
    }
}

/// A path ending at `k - 1` needs no inner node `k - 1`.
proof fn lemma_path_to_last(e: spec_fn(int, int) -> bool, i: int, k: int)
    requires
        k > 0,
    ensures
        path_below(e, i, k - 1, k) == path_below(e, i, k - 1, k - 1),
        path_below(e, k - 1, i, k) == path_below(e, k - 1, i, k - 1),
{
}

/// Two paths through a node below `k` join into one.
pub proof fn lemma_path_join(e: spec_fn(int, int) -> bool, i: int, j: int, l: int, k: int)
    requires
        0 <= j < k,
        path_below(e, i, j, k),
        path_below(e, j, l, k),
    ensures
        path_below(e, i, l, k),
    decreases k,
{
    let m = k - 1;
    if j == m {
        lemma_path_to_last(e, i, k);
        lemma_path_to_last(e, l, k);
    } else {
        let a1 = path_below(e, i, j, m);
        let b1 = path_below(e, j, l, m);
        if a1 && b1 {
            lemma_path_join(e, i, j, l, m);
        } else if a1 {
            assert(path_below(e, j, m, m) && path_below(e, m, l, m));
            lemma_path_join(e, i, j, m, m);
        } else if b1 {
            assert(path_below(e, i, m, m) && path_below(e, m, j, m));
            lemma_path_join(e, m, j, l, m);
        }
    }
}

/// Either of two activities links them.
pub open spec fn sym_edge(m: Seq<Vec<bool>>) -> spec_fn(int, int) -> bool {
    |a: int, b: int| m[a]@[b] || m[b]@[a]
}

/// `a` and `b` are one activity or joined by links, either way, among
/// the `n` activities.
pub open spec fn connected(m: Seq<Vec<bool>>, n: int, a: int, b: int) -> bool {
    a == b || path_below(sym_edge(m), a, b, n)
}

/// No activity before `x` is connected to it: `x` opens a component.
pub open spec fn opens(m: Seq<Vec<bool>>, n: int, x: int) -> bool {
    forall|y: int| 0 <= y < x ==> !#[trigger] connected(m, n, y, x)
}

/// Components opened among the first `k` activities.
pub open spec fn count_opens(m: Seq<Vec<bool>>, n: int, k: int) -> nat
    decreases k,
{
    if k <= 0 {
        0
    } else {
        count_opens(m, n, k - 1) + if opens(m, n, k - 1) { 1nat } else { 0nat }
    }
}

proof fn lemma_connected_equiv(m: Seq<Vec<bool>>, n: int, a: int, b: int, c: int)
    requires
        0 <= a < n,
        0 <= b < n,
        0 <= c < n,
    ensures
        connected(m, n, a, b) ==> connected(m, n, b, a),
        connected(m, n, a, b) && connected(m, n, b, c) ==> connected(m, n, a, c),
{
    let e = sym_edge(m);
    assert(symmetric(e)) by {
        assert forall|x: int, y: int| #[trigger] e(x, y) == e(y, x) by {}
    }
    if connected(m, n, a, b) && a != b {
        lemma_path_symmetric(e, a, b, n);
    }
    if connected(m, n, a, b) && connected(m, n, b, c) && a != b && b != c && a != c {
        lemma_path_join(e, a, b, c, n);
    }
}

/// The connected components of the links `linked` among `n` activities,
/// numbered in the order of their first activity; and their number.
pub fn components(linked: &Vec<Vec<bool>>, n: usize) -> (r: (Vec<usize>, usize))
    requires
        square(linked@, n as int),
    ensures
        r.0.len() == n,
        r.1 == count_opens(linked@, n as int, n as int),
        forall|a: int, b: int| 0 <= a < n && 0 <= b < n ==> (#[trigger] r.0[a] == #[trigger] r.0[b]) == connected(linked@, n as int, a, b),
        forall|a: int| 0 <= a < n ==> #[trigger] r.0[a] < r.1,
        forall|a: int| 0 <= a < n && #[trigger] opens(linked@, n as int, a) ==> r.0[a] == count_opens(linked@, n as int, a),
{
    let ghost lm = linked@;
    let ghost nn = n as int;
    let mut sym: Vec<Vec<bool>> = Vec::new();
    let mut a: usize = 0;
    while a < n
        invariant
            square(linked@, n as int),
            a <= n,
            sym.len() == a,
            forall|x: int| 0 <= x < a ==> #[trigger] sym[x].len() == n,
            forall|x: int, y: int| 0 <= x < a && 0 <= y < n ==> #[trigger] sym[x]@[y] == sym_edge(linked@)(x, y),
        decreases n - a,
    {
        let mut row: Vec<bool> = Vec::new();
        let mut b: usize = 0;
        while b < n
            invariant
                square(linked@, n as int),
                a < n,
                b <= n,
                row.len() == b,
                forall|y: int| 0 <= y < b ==> #[trigger] row[y] == sym_edge(linked@)(a as int, y),
            decreases n - b,
        {
            assert(linked[a as int].len() == n && linked[b as int].len() == n);
            row.push(linked[a][b] || linked[b][a]);
            b = b + 1;
        }
        sym.push(row);
        a = a + 1;
    }
    let reach = closure(&sym, n);
    proof {
        assert forall|i: int, j: int| 0 <= i < n && 0 <= j < n implies #[trigger] reach[i]@[j] == path_below(sym_edge(lm), i, j, nn) by {
            assert forall|x: int, y: int| 0 <= x < n && 0 <= y < n implies #[trigger] matrix_edge(sym@)(x, y) == sym_edge(lm)(x, y) by {
                assert(sym[x]@[y] == sym_edge(lm)(x, y));
            }
            lemma_path_congruent(matrix_edge(sym@), sym_edge(lm), nn, i, j, nn);
        }
    }
    let mut comp: Vec<usize> = Vec::new();
    let mut next: usize = 0;
    let mut a: usize = 0;
    while a < n
        invariant
            lm == linked@,
            nn == n,
            square(reach@, nn),
            forall|i: int, j: int| 0 <= i < n && 0 <= j < n ==> #[trigger] reach[i]@[j] == path_below(sym_edge(lm), i, j, nn),
            a <= n,
            comp.len() == a,
            next == count_opens(lm, nn, a as int),
            next <= a,
            forall|x: int| 0 <= x < a ==> #[trigger] comp[x] < next,
            forall|x: int, y: int| 0 <= x < a && 0 <= y < a ==> (#[trigger] comp[x] == #[trigger] comp[y]) == connected(lm, nn, x, y),
            forall|x: int| 0 <= x < a && #[trigger] opens(lm, nn, x) ==> comp[x] == count_opens(lm, nn, x),
        decreases n - a,
    {
        let mut found: usize = a;
        let mut y: usize = 0;
        while y < a
            invariant
                a < n,
                nn == n,
                square(reach@, nn),
                forall|i: int, j: int| 0 <= i < n && 0 <= j < n ==> #[trigger] reach[i]@[j] == path_below(sym_edge(lm), i, j, nn),
                y <= a,
                found <= a,
                found < a ==> found < y && reach[found as int]@[a as int],
                found == a ==> forall|z: int| 0 <= z < y ==> !#[trigger] reach[z]@[a as int],
            decreases a - y,
        {
            assert(reach[y as int].len() == n);
            if found == a && reach[y][a] {
                found = y;
            }
            y = y + 1;
        }
        let ghost c0 = comp@;
        if found < a {
            assert(connected(lm, nn, found as int, a as int));
            let id = comp[found];
            comp.push(id);
            proof {
                assert(!opens(lm, nn, a as int));
                assert forall|x: int, z: int| 0 <= x < a + 1 && 0 <= z < a + 1 implies (#[trigger] comp[x] == #[trigger] comp[z]) == connected(lm, nn, x, z) by {
                    let f = found as int;
                    lemma_connected_equiv(lm, nn, x, f, a as int);
                    lemma_connected_equiv(lm, nn, z, f, a as int);
                    lemma_connected_equiv(lm, nn, x, a as int, f);
                    lemma_connected_equiv(lm, nn, z, a as int, f);
                    lemma_connected_equiv(lm, nn, f, a as int, x);
                    lemma_connected_equiv(lm, nn, f, a as int, z);
                    lemma_connected_equiv(lm, nn, a as int, x, a as int);
                    lemma_connected_equiv(lm, nn, a as int, z, a as int);
                    if x < a {
                        assert(comp[x] == c0[x]);
                    }
                    if z < a {
                        assert(comp[z] == c0[z]);
                    }
                    assert(comp[a as int] == c0[f]);
                }
            }
        } else {
            proof {
                assert forall|z: int| 0 <= z < a implies !#[trigger] connected(lm, nn, z, a as int) by {
                    assert(!reach[z]@[a as int]);
                }
                assert(opens(lm, nn, a as int));
            }
            comp.push(next);
            proof {
                assert forall|x: int, z: int| 0 <= x < a + 1 && 0 <= z < a + 1 implies (#[trigger] comp[x] == #[trigger] comp[z]) == connected(lm, nn, x, z) by {
                    if x < a {
                        assert(comp[x] == c0[x]);
                    }
                    if z < a {
                        assert(comp[z] == c0[z]);
                    }
                    if x < a && z == a {
                        assert(!connected(lm, nn, x, a as int));
                    }
                    if z < a && x == a {
                        assert(!connected(lm, nn, z, a as int));
                        lemma_connected_equiv(lm, nn, a as int, z, a as int);
                    }
                }
            }
            next = next + 1;
        }
        a = a + 1;
    }
    (comp, next)
}

/// `m1` and `m2` hold the same entries on `0..n × 0..n`.
pub open spec fn agree(m1: Seq<Vec<bool>>, m2: Seq<Vec<bool>>, n: int) -> bool {
    forall|i: int, j: int| 0 <= i < n && 0 <= j < n ==> #[trigger] m1[i]@[j] == #[trigger] m2[i]@[j]
}

/// Agreeing matrices connect the same activities.
pub proof fn lemma_connected_agree(m1: Seq<Vec<bool>>, m2: Seq<Vec<bool>>, n: int, a: int, b: int)
    requires
        agree(m1, m2, n),
        0 <= a < n,
        0 <= b < n,
    ensures
        connected(m1, n, a, b) == connected(m2, n, a, b),
{
    assert forall|x: int, y: int| 0 <= x < n && 0 <= y < n implies #[trigger] sym_edge(m1)(x, y) == sym_edge(m2)(x, y) by {
        assert(m1[x]@[y] == m2[x]@[y]);
        assert(m1[y]@[x] == m2[y]@[x]);
    }
    lemma_path_congruent(sym_edge(m1), sym_edge(m2), n, a, b, n);
}

/// Agreeing matrices open as many components.
pub proof fn lemma_count_opens_agree(m1: Seq<Vec<bool>>, m2: Seq<Vec<bool>>, n: int, k: int)
    requires
        agree(m1, m2, n),
        0 <= k <= n,
    ensures
        count_opens(m1, n, k) == count_opens(m2, n, k),
    decreases k,
{
    if k > 0 {
        lemma_count_opens_agree(m1, m2, n, k - 1);
        if opens(m1, n, k - 1) {
            assert forall|y: int| 0 <= y < k - 1 implies !#[trigger] connected(m2, n, y, k - 1) by {
                lemma_connected_agree(m1, m2, n, y, k - 1);
                assert(!connected(m1, n, y, k - 1));
            }
        }
        if opens(m2, n, k - 1) {
            assert forall|y: int| 0 <= y < k - 1 implies !#[trigger] connected(m1, n, y, k - 1) by {
                lemma_connected_agree(m1, m2, n, y, k - 1);
                assert(!connected(m2, n, y, k - 1));
            }
        }
    }
}

/// At most `k` components open among `k` activities.
pub proof fn lemma_count_opens_bound(m: Seq<Vec<bool>>, n: int, k: int)
    ensures
        count_opens(m, n, k) <= if k > 0 { k } else { 0 },
    decreases k,
{
    if k > 0 {
        lemma_count_opens_bound(m, n, k - 1);
    }
}

} // verus!
