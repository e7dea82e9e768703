//! Summaries of a list of durations in seconds: count, sum, the two middle
//! values of the sorted list (equal for an odd count) and the nearest-rank
//! 90th percentile. Medians and means are read off these exactly: the
//! median is the mean of the two middle values, the mean the sum over the
//! count.
use vstd::prelude::*;
use crate::keysort::{is_permutation, key_le, key_lt, occurs, sort_by_keys};

verus! {

/// The summary of a list of seconds.
#[derive(Clone, Copy, Debug)]
pub struct Spread {
    pub count: usize,
    pub sum: i128,
    /// The lower middle value of the sorted list.
    pub low: i64,
    /// The upper middle value of the sorted list.
    pub high: i64,
    /// The nearest-rank 90th percentile.
    pub p90: i64,
}

/// The sum of a list.
pub open spec fn seq_sum(xs: Seq<i64>) -> int
    decreases xs.len(),
{
    if xs.len() == 0 {
        0
    } else {
        seq_sum(xs.drop_last()) + xs.last()
    }
}

/// `perm` lists the positions of `xs` in non-decreasing order of value.
pub open spec fn sorts(xs: Seq<i64>, perm: Seq<usize>) -> bool {
    &&& is_permutation(perm, xs.len() as nat)
    &&& forall|i: int, j: int| 0 <= i < j < perm.len() ==> xs[#[trigger] perm[i] as int] <= xs[#[trigger] perm[j] as int]
}

/// The nearest rank of the 90th percentile among `n` sorted values.
pub open spec fn p90_rank(n: int) -> int {
    (9 * n + 9) / 10 - 1
}

/// `sp` summarizes `xs`; an empty list is all zeros.
pub open spec fn spread_of(xs: Seq<i64>, sp: Spread) -> bool {
    let n = xs.len() as int;
    &&& sp.count == n
    &&& sp.sum == seq_sum(xs)
    &&& n == 0 ==> sp.low == 0 && sp.high == 0 && sp.p90 == 0
    &&& n > 0 ==> exists|perm: Seq<usize>|
        #[trigger] sorts(xs, perm) && sp.low == xs[perm[(n - 1) / 2] as int] && sp.high == xs[perm[n / 2] as int] && sp.p90 == xs[perm[p90_rank(n)]
            as int]
}

proof fn lemma_sum_bound(k: int)
    requires
        0 <= k <= usize::MAX,
    ensures
        k * 0x8000_0000_0000_0000 + 0x8000_0000_0000_0000 <= 0x7fff_ffff_ffff_ffff_ffff_ffff_ffff_ffff + 1,
        k * 0x8000_0000_0000_0000 + 0x8000_0000_0000_0000 == (k + 1) * 0x8000_0000_0000_0000,
{
    assert(k * 0x8000_0000_0000_0000 <= 0xffff_ffff_ffff_ffff * 0x8000_0000_0000_0000) by (nonlinear_arith)
        requires
            0 <= k <= 0xffff_ffff_ffff_ffff;
    assert(k * 0x8000_0000_0000_0000 + 0x8000_0000_0000_0000 == (k + 1) * 0x8000_0000_0000_0000) by (nonlinear_arith);
}

proof fn lemma_p90_rank(n: int)
    requires
        n >= 1,
    ensures
        0 <= p90_rank(n) < n,
{
    assert(0 <= (9 * n + 9) / 10 - 1 < n) by (nonlinear_arith)
        requires
            n >= 1;
}

/// The sum of `xs`, exactly.
pub fn sum_of(xs: &Vec<i64>) -> (r: i128)
    ensures
        r == seq_sum(xs@),
{
    let mut total: i128 = 0;
    let mut k: usize = 0;
    while k < xs.len()
        invariant
            k <= xs.len(),
            total == seq_sum(xs@.take(k as int)),
            -(k * 0x8000_0000_0000_0000) <= total <= k * 0x8000_0000_0000_0000,
        decreases xs.len() - k,
    {
        proof {
            lemma_sum_bound(k as int);
            assert(xs@.take(k + 1).drop_last() =~= xs@.take(k as int));
        }
        total = total + xs[k] as i128;
        k = k + 1;
    }
    assert(xs@.take(xs.len() as int) =~= xs@);
    total
}

/// The summary of `xs`.
pub fn spread(xs: &Vec<i64>) -> (sp: Spread)
    ensures
        spread_of(xs@, sp),
{
    let n = xs.len();
    let sum = sum_of(xs);
    if n == 0 {
        return Spread { count: 0, sum, low: 0, high: 0, p90: 0 };
    }
    let mut keys: Vec<Vec<i128>> = Vec::new();
    let mut k: usize = 0;
    while k < n
        invariant
            n == xs.len(),
            k <= n,
            keys.len() == k,
            forall|h: int| 0 <= h < k ==> #[trigger] keys[h]@ == seq![xs@[h] as i128],
        decreases n - k,
    {
        keys.push(vec![xs[k] as i128]);
        k = k + 1;
    }
    let perm = sort_by_keys(&keys);
    let ghost ks = keys@.map_values(|k: Vec<i128>| k@);
    proof {
        assert forall|i: int, j: int| 0 <= i < j < perm.len() implies xs@[#[trigger] perm[i] as int] <= xs@[#[trigger] perm[j] as int] by {
            let pi = perm[i] as int;
            let pj = perm[j] as int;
            assert(key_le(ks[pi], ks[pj]));
            assert(ks[pi] == seq![xs@[pi] as i128]);
            assert(ks[pj] == seq![xs@[pj] as i128]);
            assert(seq![xs@[pi] as i128].drop_first() =~= Seq::<i128>::empty());
            assert(seq![xs@[pj] as i128].drop_first() =~= Seq::<i128>::empty());
            assert(!key_lt(Seq::<i128>::empty(), Seq::<i128>::empty()));
        }
        assert(sorts(xs@, perm@));
        lemma_p90_rank(n as int);
    }
    let rank = (((n as u128) * 9 + 9) / 10 - 1) as usize;
    assert(rank == p90_rank(n as int));
    let low = xs[perm[(n - 1) / 2]];
    let high = xs[perm[n / 2]];
    let p90 = xs[perm[rank]];
    Spread { count: n, sum, low, high, p90 }
}

} // verus!
