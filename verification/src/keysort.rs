//! Sorting by integer keys.
//!
//! Every report is ordered by a key: counts (descending counts are stored
//! negated) followed by name ranks. Keys compare lexicographically, a proper
//! prefix first — the same rule `Vec`'s `Ord` uses.
use vstd::prelude::*;

verus! {

/// `a` sorts strictly before `b`.
pub open spec fn key_lt(a: Seq<i128>, b: Seq<i128>) -> bool
    decreases a.len(),
{
    if b.len() == 0 {
        false
    } else if a.len() == 0 {
        true
    } else if a[0] < b[0] {
        true
    } else if a[0] > b[0] {
        false
    } else {
        key_lt(a.drop_first(), b.drop_first())
    }
}

pub open spec fn key_le(a: Seq<i128>, b: Seq<i128>) -> bool {
    !key_lt(b, a)
}

pub proof fn lemma_key_lt_irreflexive(a: Seq<i128>)
    ensures
        !key_lt(a, a),
    decreases a.len(),
{
    if a.len() > 0 {
        lemma_key_lt_irreflexive(a.drop_first());
    }
}

pub proof fn lemma_key_lt_transitive(a: Seq<i128>, b: Seq<i128>, c: Seq<i128>)
    requires
        key_lt(a, b),
        key_lt(b, c),
    ensures
        key_lt(a, c),
    decreases a.len(),
{
    if a.len() > 0 && b.len() > 0 && c.len() > 0 {
        if a[0] == b[0] && b[0] == c[0] {
            lemma_key_lt_transitive(a.drop_first(), b.drop_first(), c.drop_first());
        }
    }
}

pub proof fn lemma_key_lt_total(a: Seq<i128>, b: Seq<i128>)
    requires
        a != b,
    ensures
        key_lt(a, b) || key_lt(b, a),
    decreases a.len(),
{
    if a.len() > 0 && b.len() > 0 {
        if a[0] == b[0] {
            if a.drop_first() == b.drop_first() {
                assert(a =~= seq![a[0]] + a.drop_first());
                assert(b =~= seq![b[0]] + b.drop_first());
            }
            lemma_key_lt_total(a.drop_first(), b.drop_first());
        }
    } else if a.len() == 0 && b.len() == 0 {
        assert(a =~= b);
    }
}

/// `key_le` is transitive.
pub proof fn lemma_key_le_transitive(a: Seq<i128>, b: Seq<i128>, c: Seq<i128>)
    requires
        key_le(a, b),
        key_le(b, c),
    ensures
        key_le(a, c),
{
    if key_lt(c, a) {
        if a == b {
        } else {
            lemma_key_lt_total(a, b);
            lemma_key_lt_transitive(c, a, b);
        }
    }
}

pub fn key_less(a: &Vec<i128>, b: &Vec<i128>) -> (r: bool)
    ensures
        r == key_lt(a@, b@),
{
    let mut i: usize = 0;
    assert(a@.skip(0) =~= a@);
    assert(b@.skip(0) =~= b@);
    while i < a.len() && i < b.len()
        invariant
            0 <= i <= a.len(),
            i <= b.len(),
            key_lt(a@, b@) == key_lt(a@.skip(i as int), b@.skip(i as int)),
        decreases a.len() - i,
    {
        assert(a@.skip(i as int).drop_first() =~= a@.skip(i + 1));
        assert(b@.skip(i as int).drop_first() =~= b@.skip(i + 1));
        if a[i] < b[i] {
            return true;
        }
        if a[i] > b[i] {
            return false;
        }
        i = i + 1;
    }
    i < b.len()
}

/// `perm` lists every index below `n` exactly once.
pub open spec fn is_permutation(perm: Seq<usize>, n: nat) -> bool {
    &&& perm.len() == n
    &&& forall|i: int| 0 <= i < perm.len() ==> perm[i] < n
    &&& forall|i: int, j: int| 0 <= i < j < perm.len() ==> perm[i] != perm[j]
    &&& forall|k: int| 0 <= k < n ==> #[trigger] occurs(perm, k)
}

/// `k` is listed in `perm`.
pub open spec fn occurs(perm: Seq<usize>, k: int) -> bool {
    exists|i: int| 0 <= i < perm.len() && perm[i] == k
}

/// `perm` visits the keys in non-decreasing order.
pub open spec fn sorted_by_keys(keys: Seq<Seq<i128>>, perm: Seq<usize>) -> bool {
    forall|i: int, j: int|
        0 <= i < j < perm.len() ==> key_le(#[trigger] keys[perm[i] as int], #[trigger] keys[perm[j] as int])
}

/// The order in which the keys sort: a permutation of their indices.
pub fn sort_by_keys(keys: &Vec<Vec<i128>>) -> (perm: Vec<usize>)
    ensures
        is_permutation(perm@, keys.len() as nat),
        sorted_by_keys(keys@.map_values(|k: Vec<i128>| k@), perm@),
{
    let n = keys.len();
    let ghost ks = keys@.map_values(|k: Vec<i128>| k@);
    let mut perm: Vec<usize> = Vec::new();
    for i in 0..n
        invariant
            n == keys.len(),
            perm.len() == i,
            forall|j: int| 0 <= j < i ==> perm[j] == j,
    {
        perm.push(i);
    }
    assert forall|k: int| 0 <= k < n implies #[trigger] occurs(perm@, k) by {
        assert(perm[k] == k);
    }
    if n == 0 {
        return perm;
    }
    let mut i: usize = 1;
    while i < n
        invariant
            n == keys.len(),
            ks == keys@.map_values(|k: Vec<i128>| k@),
            is_permutation(perm@, n as nat),
            1 <= i <= n,
            forall|a: int, b: int|
                0 <= a < b < i ==> key_le(#[trigger] ks[perm[a] as int], #[trigger] ks[perm[b] as int]),
        decreases n - i,
    {
        // insert perm[i] into the sorted prefix by swapping it down
        let mut j: usize = i;
        while j > 0 && key_less(&keys[perm[j]], &keys[perm[j - 1]])
            invariant
                n == keys.len(),
                ks == keys@.map_values(|k: Vec<i128>| k@),
                0 <= j <= i < n,
                is_permutation(perm@, n as nat),
                // the prefix without position j is sorted
                forall|a: int, b: int|
                    0 <= a < b <= i && a != j && b != j ==> key_le(
                        #[trigger] ks[perm[a] as int],
                        #[trigger] ks[perm[b] as int],
                    ),
                // the moving element sorts before everything after it
                forall|b: int| j < b <= i ==> key_lt(ks[perm[j as int] as int], #[trigger] ks[perm[b] as int]),
            decreases j,
        {
            let ghost old_perm = perm@;
            let x = perm[j];
            let y = perm[j - 1];
            perm.set(j, y);
            perm.set(j - 1, x);
            proof {
                assert(perm@ =~= old_perm.update(j as int, y).update(j - 1, x));
                assert forall|k: int| 0 <= k < n implies #[trigger] occurs(perm@, k) by {
                    assert(occurs(old_perm, k));
                    let p = choose|p: int| 0 <= p < old_perm.len() && old_perm[p] == k;
                    if p == j {
                        assert(perm[j - 1] == k);
                    } else if p == j - 1 {
                        assert(perm[j as int] == k);
                    } else {
                        assert(perm[p] == k);
                    }
                }
                assert forall|a: int, b: int|
                    0 <= a < b <= i && a != j - 1 && b != j - 1 implies key_le(
                    #[trigger] ks[perm[a] as int],
                    #[trigger] ks[perm[b] as int],
                ) by {
                    if a == j {
                        // old perm[j-1] = y sits at j now; y <= old neighbours
                        if b > j {
                            assert(key_le(ks[old_perm[j - 1] as int], ks[old_perm[b] as int]));
                        }
                    } else if b == j {
                        if a < j - 1 {
                            assert(key_le(ks[old_perm[a] as int], ks[old_perm[j - 1] as int]));
                        }
                    }
                }
                assert forall|b: int| j - 1 < b <= i implies key_lt(
                    ks[perm[j - 1] as int],
                    #[trigger] ks[perm[b] as int],
                ) by {
                    if b == j {
                    } else {
                        assert(key_lt(ks[old_perm[j as int] as int], ks[old_perm[b] as int]));
                    }
                }
            }
            j = j - 1;
        }
        proof {
            assert forall|a: int, b: int| 0 <= a < b < i + 1 implies key_le(
                #[trigger] ks[perm[a] as int],
                #[trigger] ks[perm[b] as int],
            ) by {
                let pa = ks[perm[a] as int];
                let pb = ks[perm[b] as int];
                if a == j {
                    if b <= i {
                        lemma_key_lt_asym(pa, pb);
                    }
                } else if b == j {
                    // everything before j is <= perm[j]: it did not swap further
                    if j > 0 {
                        let pj1 = ks[perm[j - 1] as int];
                        assert(!key_lt(pb, pj1));
                        if a < j - 1 {
                            assert(key_le(pa, pj1));
                            lemma_key_le_transitive(pa, pj1, pb);
                        }
                    }
                }
            }
        }
        i = i + 1;
    }
    perm
}

proof fn lemma_key_lt_asym(a: Seq<i128>, b: Seq<i128>)
    requires
        key_lt(a, b),
    ensures
        key_le(a, b),
{
    if key_lt(b, a) {
        lemma_key_lt_transitive(a, b, a);
        lemma_key_lt_irreflexive(a);
    }
}

} // verus!
