//! Text order: strings compare lexicographically by Unicode code point, and
//! a set of names is ranked by that order so that every later sort can work
//! on integers.
use vstd::prelude::*;
use crate::keysort::key_lt;

verus! {

/// `a` sorts strictly before `b`: lexicographic by code point, a proper
/// prefix first.
pub open spec fn text_lt(a: Seq<char>, b: Seq<char>) -> bool
    decreases a.len(),
{
    if b.len() == 0 {
        false
    } else if a.len() == 0 {
        true
    } else if (a[0] as int) < (b[0] as int) {
        true
    } else if (a[0] as int) > (b[0] as int) {
        false
    } else {
        text_lt(a.drop_first(), b.drop_first())
    }
}

pub proof fn lemma_text_lt_irreflexive(a: Seq<char>)
    ensures
        !text_lt(a, a),
    decreases a.len(),
{
    if a.len() > 0 {
        lemma_text_lt_irreflexive(a.drop_first());
    }
}

pub proof fn lemma_text_lt_transitive(a: Seq<char>, b: Seq<char>, c: Seq<char>)
    requires
        text_lt(a, b),
        text_lt(b, c),
    ensures
        text_lt(a, c),
    decreases a.len(),
{
    if a.len() > 0 && b.len() > 0 && c.len() > 0 {
        if (a[0] as int) == (b[0] as int) && (b[0] as int) == (c[0] as int) {
            lemma_text_lt_transitive(a.drop_first(), b.drop_first(), c.drop_first());
        }
    }
}

pub proof fn lemma_text_lt_total(a: Seq<char>, b: Seq<char>)
    requires
        a != b,
    ensures
        text_lt(a, b) || text_lt(b, a),
    decreases a.len(),
{
    if a.len() > 0 && b.len() > 0 {
        if (a[0] as int) == (b[0] as int) {
            assert(a[0] == b[0]);
            if a.drop_first() == b.drop_first() {
                assert(a =~= seq![a[0]] + a.drop_first());
                assert(b =~= seq![b[0]] + b.drop_first());
            }
            lemma_text_lt_total(a.drop_first(), b.drop_first());
        }
    } else if a.len() == 0 && b.len() == 0 {
        assert(a =~= b);
    }
}

pub proof fn lemma_text_lt_asymmetric(a: Seq<char>, b: Seq<char>)
    requires
        text_lt(a, b),
    ensures
        !text_lt(b, a),
{
    if text_lt(b, a) {
        lemma_text_lt_transitive(a, b, a);
        lemma_text_lt_irreflexive(a);
    }
}

/// `str`'s `<`.
///
/// Claim about std: `str` orders lexicographically by byte value, which
/// (the std documentation notes) orders code points by their position in the
/// code charts; UTF-8 preserves code point order, so the result is
/// `text_lt` on the character sequences.
#[verifier::external_body]
pub fn text_less(a: &str, b: &str) -> (r: bool)
    ensures
        r == text_lt(a@, b@),
{
    a < b
}

/// How many names of `names` sort strictly before `x`, among the first `k`.
pub open spec fn count_before(names: Seq<Seq<char>>, x: Seq<char>, k: int) -> nat
    decreases k,
{
    if k <= 0 {
        0
    } else {
        count_before(names, x, k - 1) + if text_lt(names[k - 1], x) {
            1nat
        } else {
            0nat
        }
    }
}

pub proof fn lemma_count_before_bound(names: Seq<Seq<char>>, x: Seq<char>, k: int)
    requires
        0 <= k,
    ensures
        count_before(names, x, k) <= k,
    decreases k,
{
    if k > 0 {
        lemma_count_before_bound(names, x, k - 1);
    }
}

pub proof fn lemma_count_before_monotone(names: Seq<Seq<char>>, x: Seq<char>, y: Seq<char>, k: int)
    requires
        text_lt(x, y),
        0 <= k <= names.len(),
    ensures
        count_before(names, x, k) <= count_before(names, y, k),
        (exists|i: int| 0 <= i < k && names[i] == x) ==> count_before(names, x, k) < count_before(
            names,
            y,
            k,
        ),
    decreases k,
{
    if k > 0 {
        lemma_count_before_monotone(names, x, y, k - 1);
        if text_lt(names[k - 1], x) {
            lemma_text_lt_transitive(names[k - 1], x, y);
        }
        if names[k - 1] == x {
            lemma_text_lt_irreflexive(x);
        }
        if exists|i: int| 0 <= i < k && names[i] == x {
            let i = choose|i: int| 0 <= i < k && names[i] == x;
            if i < k - 1 {
                assert(exists|i: int| 0 <= i < k - 1 && names[i] == x);
            }
        }
    }
}

/// The names of a string list, as character sequences.
pub open spec fn texts(names: Seq<String>) -> Seq<Seq<char>> {
    names.map_values(|s: String| s@)
}

/// The rank of every name: how many names of the list sort before it.
/// With distinct names, ranks order exactly as the names do.
pub fn name_ranks(names: &Vec<String>) -> (ranks: Vec<usize>)
    ensures
        ranks.len() == names.len(),
        forall|i: int|
            0 <= i < names.len() ==> ranks[i] == count_before(
                texts(names@),
                names[i]@,
                names.len() as int,
            ),
{
    let n = names.len();
    let mut ranks: Vec<usize> = Vec::new();
    for i in 0..n
        invariant
            n == names.len(),
            ranks.len() == i,
            forall|j: int|
                0 <= j < i ==> ranks[j] == count_before(texts(names@), names[j]@, n as int),
    {
        let mut count: usize = 0;
        for k in 0..n
            invariant
                n == names.len(),
                0 <= i < n,
                count == count_before(texts(names@), names[i as int]@, k as int),
        {
            proof {
                lemma_count_before_bound(texts(names@), names[i as int]@, k as int);
            }
            if text_less(names[k].as_str(), names[i].as_str()) {
                count = count + 1;
            }
            assert(texts(names@)[k as int] == names[k as int]@);
        }
        ranks.push(count);
    }
    ranks
}

/// Distinct names rank in name order.
pub proof fn lemma_ranks_order(names: Seq<String>, i: int, j: int)
    requires
        0 <= i < names.len(),
        0 <= j < names.len(),
        text_lt(names[i]@, names[j]@),
    ensures
        count_before(texts(names), names[i]@, names.len() as int) < count_before(
            texts(names),
            names[j]@,
            names.len() as int,
        ),
{
    assert(texts(names)[i] == names[i]@);
    lemma_count_before_monotone(texts(names), names[i]@, names[j]@, names.len() as int);
}


/// Name sequences compare lexicographically by `text_lt`, a proper prefix
/// first — `Vec<String>`'s order.
pub open spec fn texts_lt(a: Seq<Seq<char>>, b: Seq<Seq<char>>) -> bool
    decreases a.len(),
{
    if b.len() == 0 {
        false
    } else if a.len() == 0 {
        true
    } else if text_lt(a[0], b[0]) {
        true
    } else if text_lt(b[0], a[0]) {
        false
    } else {
        texts_lt(a.drop_first(), b.drop_first())
    }
}

/// The names of a list of activity ids.
pub open spec fn name_seq(names: Seq<String>, x: Seq<usize>) -> Seq<Seq<char>> {
    x.map_values(|id: usize| names[id as int]@)
}

/// The rank key of a list of activity ids.
pub open spec fn rank_key(ranks: Seq<usize>, x: Seq<usize>) -> Seq<i128> {
    x.map_values(|id: usize| ranks[id as int] as i128)
}

/// `ranks` ranks the distinct `names`.
pub open spec fn ranks_of(names: Seq<String>, ranks: Seq<usize>) -> bool {
    &&& ranks.len() == names.len()
    &&& forall|i: int, j: int| 0 <= i < j < names.len() ==> names[i]@ != names[j]@
    &&& forall|i: int|
        0 <= i < names.len() ==> #[trigger] ranks[i] == count_before(texts(names), names[i]@, names.len() as int)
}

pub proof fn lemma_rank_pair(names: Seq<String>, ranks: Seq<usize>, a: int, b: int)
    requires
        ranks_of(names, ranks),
        0 <= a < names.len(),
        0 <= b < names.len(),
    ensures
        (ranks[a] < ranks[b]) == text_lt(names[a]@, names[b]@),
        (ranks[a] == ranks[b]) == (a == b),
        (names[a]@ == names[b]@) == (a == b),
{
    if a != b {
        if a < b {
            assert(names[a]@ != names[b]@);
        } else {
            assert(names[b]@ != names[a]@);
        }
        lemma_text_lt_total(names[a]@, names[b]@);
        if text_lt(names[a]@, names[b]@) {
            lemma_ranks_order(names, a, b);
            lemma_text_lt_asymmetric(names[a]@, names[b]@);
        } else {
            lemma_ranks_order(names, b, a);
        }
    } else {
        lemma_text_lt_irreflexive(names[a]@);
    }
}

/// Rank keys of id lists order exactly as their name sequences do.
pub proof fn lemma_rank_key_order(names: Seq<String>, ranks: Seq<usize>, x: Seq<usize>, y: Seq<usize>)
    requires
        ranks_of(names, ranks),
        forall|k: int| 0 <= k < x.len() ==> #[trigger] x[k] < names.len(),
        forall|k: int| 0 <= k < y.len() ==> #[trigger] y[k] < names.len(),
    ensures
        key_lt(rank_key(ranks, x), rank_key(ranks, y)) == texts_lt(name_seq(names, x), name_seq(names, y)),
        (rank_key(ranks, x) == rank_key(ranks, y)) == (x == y),
        (name_seq(names, x) == name_seq(names, y)) == (x == y),
    decreases x.len(),
{
    let rx = rank_key(ranks, x);
    let ry = rank_key(ranks, y);
    let nx = name_seq(names, x);
    let ny = name_seq(names, y);
    if x.len() == 0 || y.len() == 0 {
        if x.len() == 0 && y.len() == 0 {
            assert(x =~= y);
            assert(rx =~= ry);
            assert(nx =~= ny);
        } else if x.len() == 0 {
            assert(rx.len() != ry.len());
            assert(nx.len() != ny.len());
        } else {
            assert(rx.len() != ry.len());
            assert(nx.len() != ny.len());
        }
    } else {
        let a = x[0] as int;
        let b = y[0] as int;
        assert(x[0] < names.len());
        assert(y[0] < names.len());
        lemma_rank_pair(names, ranks, a, b);
        lemma_rank_pair(names, ranks, b, a);
        let x1 = x.drop_first();
        let y1 = y.drop_first();
        assert forall|k: int| 0 <= k < x1.len() implies #[trigger] x1[k] < names.len() by {
            assert(x1[k] == x[k + 1]);
        }
        assert forall|k: int| 0 <= k < y1.len() implies #[trigger] y1[k] < names.len() by {
            assert(y1[k] == y[k + 1]);
        }
        lemma_rank_key_order(names, ranks, x1, y1);
        assert(rx.drop_first() =~= rank_key(ranks, x1));
        assert(ry.drop_first() =~= rank_key(ranks, y1));
        assert(nx.drop_first() =~= name_seq(names, x1));
        assert(ny.drop_first() =~= name_seq(names, y1));
        assert(rx[0] == ranks[a] as i128);
        assert(ry[0] == ranks[b] as i128);
        assert(nx[0] == names[a]@);
        assert(ny[0] == names[b]@);
        if x == y {
            assert(rx == ry);
            assert(nx == ny);
        } else {
            if a == b {
                if x1 == y1 {
                    assert(x =~= seq![x[0]] + x1);
                    assert(y =~= seq![y[0]] + y1);
                }
                if rx == ry {
                    assert(rx.drop_first() == ry.drop_first());
                }
                if nx == ny {
                    assert(nx.drop_first() == ny.drop_first());
                }
            } else {
                if rx == ry {
                    assert(rx[0] == ry[0]);
                }
                if nx == ny {
                    assert(nx[0] == ny[0]);
                }
            }
        }
        if a == b {
            lemma_text_lt_irreflexive(names[a]@);
        }
    }
}

} // verus!
