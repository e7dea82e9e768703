//! Petri nets as the alpha algorithm reports them: transitions and places
//! named by activity, every name list sorted, the places in order.
use vstd::prelude::*;
use crate::keysort::{is_permutation, key_le, key_lt, lemma_key_lt_total, occurs, sort_by_keys, sorted_by_keys};
use crate::text::{name_seq, rank_key, ranks_of, text_lt, texts, texts_lt, lemma_rank_pair, lemma_rank_key_order};
use crate::variants::{names_of, lemma_key_head};
use crate::noise::{decimal, decimal_text};

verus! {

/// No two ids share a rank.
pub open spec fn distinct_ranks(ranks: Seq<usize>) -> bool {
    forall|i: int, j: int| 0 <= i < ranks.len() && 0 <= j < ranks.len() && i != j ==> ranks[i] != ranks[j]
}

/// The ids listed in `a`.
pub open spec fn id_set(a: Seq<usize>) -> Set<int> {
    Set::new(|x: int| exists|k: int| 0 <= k < a.len() && #[trigger] a[k] as int == x)
}

/// `out` lists the names of the ids of `ids` (below `names.len()`), each
/// once, in increasing name order.
pub open spec fn sorted_names(names: Seq<String>, ids: Set<int>, out: Seq<Seq<char>>) -> bool {
    &&& forall|i: int, j: int| 0 <= i < j < out.len() ==> text_lt(#[trigger] out[i], #[trigger] out[j])
    &&& forall|j: int| 0 <= j < out.len() ==> name_in(names, ids, #[trigger] out[j])
    &&& forall|a: int| 0 <= a < names.len() && #[trigger] ids.contains(a) ==> out.contains(names[a]@)
}

/// The ids of `ids`, reordered by increasing rank.
pub fn sort_ids_by_rank(ranks: &Vec<usize>, ids: &Vec<usize>) -> (out: Vec<usize>)
    requires
        distinct_ranks(ranks@),
        forall|k: int| 0 <= k < ids.len() ==> #[trigger] ids[k] < ranks.len(),
        forall|i: int, j: int| 0 <= i < j < ids.len() ==> ids[i] != ids[j],
    ensures
        out.len() == ids.len(),
        forall|j: int| 0 <= j < out.len() ==> ids@.contains(#[trigger] out[j]),
        forall|k: int| 0 <= k < ids.len() ==> out@.contains(#[trigger] ids[k]),
        forall|i: int, j: int| 0 <= i < j < out.len() ==> ranks[#[trigger] out[i] as int] < ranks[#[trigger] out[j] as int],
{
    let mut keys: Vec<Vec<i128>> = Vec::new();
    for k in 0..ids.len()
        invariant
            forall|h: int| 0 <= h < ids.len() ==> #[trigger] ids[h] < ranks.len(),
            keys.len() == k,
            forall|h: int| 0 <= h < k ==> #[trigger] keys[h]@ == seq![ranks[ids[h] as int] as i128],
    {
        let key = vec![ranks[ids[k]] as i128];
        keys.push(key);
    }
    let perm = sort_by_keys(&keys);
    let ghost ks = keys@.map_values(|k: Vec<i128>| k@);
    let mut out: Vec<usize> = Vec::new();
    for j in 0..perm.len()
        invariant
            is_permutation(perm@, ids.len() as nat),
            out.len() == j,
            forall|h: int| 0 <= h < j ==> #[trigger] out[h] == ids[perm[h] as int],
    {
        out.push(ids[perm[j]]);
    }
    proof {
        assert forall|j: int| 0 <= j < out.len() implies ids@.contains(#[trigger] out[j]) by {
            assert(ids@[perm[j] as int] == out[j]);
        }
        assert forall|k: int| 0 <= k < ids.len() implies out@.contains(#[trigger] ids[k]) by {
            assert(occurs(perm@, k));
            let i = choose|i: int| 0 <= i < perm.len() && perm[i] == k;
            assert(out@[i] == ids[k]);
        }
        assert forall|i: int, j: int| 0 <= i < j < out.len() implies ranks[#[trigger] out[i] as int] < ranks[#[trigger] out[j] as int] by {
            let pi = perm[i] as int;
            let pj = perm[j] as int;
            assert(key_le(ks[pi], ks[pj]));
            let x = ranks[ids[pi] as int] as i128;
            let y = ranks[ids[pj] as int] as i128;
            assert(ks[pi] == seq![x]);
            assert(ks[pj] == seq![y]);
            assert(seq![y].drop_first() =~= Seq::<i128>::empty());
            assert(seq![x].drop_first() =~= Seq::<i128>::empty());
            assert(!key_lt(Seq::<i128>::empty(), Seq::<i128>::empty()));
            assert(ids[pi] != ids[pj]);
        }
    }
    out
}

/// `x` is the name of an id of `ids`.
pub open spec fn name_in(names: Seq<String>, ids: Set<int>, x: Seq<char>) -> bool {
    exists|a: int| 0 <= a < names.len() && ids.contains(a) && #[trigger] names[a]@ == x
}

/// `sorted_names` reads its id set below `names.len()` only.
pub proof fn lemma_sorted_names_sets(names: Seq<String>, s1: Set<int>, s2: Set<int>, out: Seq<Seq<char>>)
    requires
        forall|a: int| 0 <= a < names.len() ==> (s1.contains(a) <==> s2.contains(a)),
    ensures
        sorted_names(names, s1, out) == sorted_names(names, s2, out),
{
    assert forall|x: Seq<char>| name_in(names, s1, x) == name_in(names, s2, x) by {
        if name_in(names, s1, x) {
            let a = choose|a: int| 0 <= a < names.len() && s1.contains(a) && #[trigger] names[a]@ == x;
            assert(s2.contains(a));
        }
        if name_in(names, s2, x) {
            let a = choose|a: int| 0 <= a < names.len() && s2.contains(a) && #[trigger] names[a]@ == x;
            assert(s1.contains(a));
        }
    }
}

/// The ids below `n` with `flags` set, increasing.
pub fn flagged_ids(flags: &Vec<bool>) -> (ids: Vec<usize>)
    ensures
        forall|k: int| 0 <= k < ids.len() ==> #[trigger] ids[k] < flags.len() && flags[ids[k] as int],
        forall|a: int| 0 <= a < flags.len() && flags[a] ==> #[trigger] id_set(ids@).contains(a),
        forall|i: int, j: int| 0 <= i < j < ids.len() ==> #[trigger] ids[i] < #[trigger] ids[j],
{
    let mut ids: Vec<usize> = Vec::new();
    for a in 0..flags.len()
        invariant
            forall|k: int| 0 <= k < ids.len() ==> #[trigger] ids[k] < a && flags[ids[k] as int],
            forall|x: int| 0 <= x < a && flags[x] ==> #[trigger] id_set(ids@).contains(x),
            forall|i: int, j: int| 0 <= i < j < ids.len() ==> #[trigger] ids[i] < #[trigger] ids[j],
    {
        if flags[a] {
            let ghost before = ids@;
            ids.push(a);
            proof {
                assert forall|x: int| 0 <= x < a + 1 && flags[x] implies #[trigger] id_set(ids@).contains(x) by {
                    if x == a {
                        assert(ids@[before.len() as int] as int == x);
                    } else {
                        assert(id_set(before).contains(x));
                        let k = choose|k: int| 0 <= k < before.len() && #[trigger] before[k] as int == x;
                        assert(ids@[k] as int == x);
                    }
                }
            }
        }
    }
    ids
}

/// Sorting a list of distinct ids by rank and naming them gives their names
/// in increasing name order.
pub proof fn lemma_sorted_names(names: Seq<String>, ranks: Seq<usize>, ids: Seq<usize>, sorted: Seq<usize>, set: Set<int>)
    requires
        ranks_of(names, ranks),
        forall|k: int| 0 <= k < ids.len() ==> #[trigger] ids[k] < names.len(),
        forall|j: int| 0 <= j < sorted.len() ==> ids.contains(#[trigger] sorted[j]),
        forall|k: int| 0 <= k < ids.len() ==> sorted.contains(#[trigger] ids[k]),
        forall|i: int, j: int| 0 <= i < j < sorted.len() ==> ranks[#[trigger] sorted[i] as int] < ranks[#[trigger] sorted[j] as int],
        forall|a: int| 0 <= a < names.len() ==> (#[trigger] set.contains(a) <==> id_set(ids).contains(a)),
    ensures
        sorted_names(names, set, name_seq(names, sorted)),
{
    let out = name_seq(names, sorted);
    assert forall|j: int| 0 <= j < sorted.len() implies #[trigger] sorted[j] < names.len() by {
        let k = choose|k: int| 0 <= k < ids.len() && ids[k] == sorted[j];
    }
    assert forall|i: int, j: int| 0 <= i < j < out.len() implies text_lt(#[trigger] out[i], #[trigger] out[j]) by {
        lemma_rank_pair(names, ranks, sorted[i] as int, sorted[j] as int);
    }
    assert forall|j: int| 0 <= j < out.len() implies name_in(names, set, #[trigger] out[j]) by {
        let a = sorted[j] as int;
        let k = choose|k: int| 0 <= k < ids.len() && ids[k] == sorted[j];
        assert(ids[k] as int == a);
        assert(id_set(ids).contains(a));
        assert(names[a]@ == out[j]);
    }
    assert forall|a: int| 0 <= a < names.len() && #[trigger] set.contains(a) implies out.contains(names[a]@) by {
        assert(id_set(ids).contains(a));
        let k = choose|k: int| 0 <= k < ids.len() && #[trigger] ids[k] as int == a;
        assert(sorted.contains(ids[k]));
        let j = choose|j: int| 0 <= j < sorted.len() && sorted[j] == ids[k];
        assert(out[j] == names[a]@);
    }
}


/// A place: incoming and outgoing transitions (no inputs: the source place;
/// no outputs: the sink place).
#[derive(Clone, Debug)]
pub struct Place {
    pub id: String,
    pub inputs: Vec<String>,
    pub outputs: Vec<String>,
}

/// The discovered Petri net of one object type.
#[derive(Clone, Debug)]
pub struct PetriNet {
    pub object_type: String,
    pub transitions: Vec<String>,
    pub places: Vec<Place>,
    /// Limits hit on this log (self-loops, size cutoff).
    pub warnings: Vec<String>,
}

/// Places order by their inputs, then by their outputs (each a name list
/// compared lexicographically).
pub open spec fn place_lt(p: Place, q: Place) -> bool {
    ||| texts_lt(texts(p.inputs@), texts(q.inputs@))
    ||| (texts(p.inputs@) == texts(q.inputs@) && texts_lt(texts(p.outputs@), texts(q.outputs@)))
}

/// Place `p` stands for the pair `(a, b)`: its inputs are the names of `a`,
/// its outputs those of `b`, each sorted.
pub open spec fn place_of(names: Seq<String>, a: Seq<usize>, b: Seq<usize>, p: Place) -> bool {
    &&& sorted_names(names, id_set(a), texts(p.inputs@))
    &&& sorted_names(names, id_set(b), texts(p.outputs@))
}

/// The id of the `i`-th place between source and sink.
pub open spec fn place_id(i: nat) -> Seq<char> {
    seq!['p'] + decimal(i)
}

/// The sort key of a place: its input key, a separator below every rank,
/// its output key.
pub open spec fn place_key(x: Seq<i128>, y: Seq<i128>) -> Seq<i128> {
    x + seq![-1i128] + y
}

/// Place keys compare as their input keys, then as their output keys.
pub proof fn lemma_place_key(x1: Seq<i128>, y1: Seq<i128>, x2: Seq<i128>, y2: Seq<i128>)
    requires
        forall|k: int| 0 <= k < x1.len() ==> #[trigger] x1[k] >= 0,
        forall|k: int| 0 <= k < x2.len() ==> #[trigger] x2[k] >= 0,
    ensures
        key_lt(place_key(x1, y1), place_key(x2, y2)) == (key_lt(x1, x2) || (x1 == x2 && key_lt(y1, y2))),
        (place_key(x1, y1) == place_key(x2, y2)) == (x1 == x2 && y1 == y2),
    decreases x1.len(),
{
    let k1 = place_key(x1, y1);
    let k2 = place_key(x2, y2);
    if x1.len() == 0 && x2.len() == 0 {
        assert(k1 =~= seq![-1i128] + y1);
        assert(k2 =~= seq![-1i128] + y2);
        lemma_key_head(-1i128, y1, -1i128, y2);
        assert(x1 =~= x2);
    } else if x1.len() == 0 {
        assert(k1[0] == -1);
        assert(k2[0] == x2[0]);
        assert(k1 != k2);
    } else if x2.len() == 0 {
        assert(k1[0] == x1[0]);
        assert(k2[0] == -1);
        assert(k1 != k2);
    } else {
        let r1 = x1.drop_first();
        let r2 = x2.drop_first();
        assert forall|k: int| 0 <= k < r1.len() implies #[trigger] r1[k] >= 0 by {
            assert(r1[k] == x1[k + 1]);
        }
        assert forall|k: int| 0 <= k < r2.len() implies #[trigger] r2[k] >= 0 by {
            assert(r2[k] == x2[k + 1]);
        }
        lemma_place_key(r1, y1, r2, y2);
        assert(k1 =~= seq![x1[0]] + place_key(r1, y1));
        assert(k2 =~= seq![x2[0]] + place_key(r2, y2));
        lemma_key_head(x1[0], place_key(r1, y1), x2[0], place_key(r2, y2));
        assert(x1 =~= seq![x1[0]] + r1);
        assert(x2 =~= seq![x2[0]] + r2);
        lemma_key_head(x1[0], r1, x2[0], r2);
    }
}

/// Strictly increasing.
pub open spec fn increasing(a: Seq<usize>) -> bool {
    forall|i: int, j: int| 0 <= i < j < a.len() ==> #[trigger] a[i] < #[trigger] a[j]
}

/// Two increasing lists with the same members are equal.
pub proof fn lemma_increasing_eq(a: Seq<usize>, b: Seq<usize>)
    requires
        increasing(a),
        increasing(b),
        forall|k: int| 0 <= k < a.len() ==> b.contains(#[trigger] a[k]),
        forall|k: int| 0 <= k < b.len() ==> a.contains(#[trigger] b[k]),
    ensures
        a == b,
    decreases a.len(),
{
    if a.len() == 0 {
        if b.len() > 0 {
            assert(a.contains(b[0]));
        }
        assert(a =~= b);
    } else if b.len() == 0 {
        assert(b.contains(a[0]));
    } else {
        assert(b.contains(a[0]));
        assert(a.contains(b[0]));
        let i = choose|i: int| 0 <= i < b.len() && b[i] == a[0];
        let j = choose|j: int| 0 <= j < a.len() && a[j] == b[0];
        if i > 0 {
            assert(b[0] < b[i]);
            if j > 0 {
                assert(a[0] < a[j]);
            }
        }
        assert(a[0] == b[0]);
        let a1 = a.drop_first();
        let b1 = b.drop_first();
        assert forall|k: int| 0 <= k < a1.len() implies b1.contains(#[trigger] a1[k]) by {
            assert(a1[k] == a[k + 1]);
            assert(a[0] < a[k + 1]);
            assert(b.contains(a[k + 1]));
            let h = choose|h: int| 0 <= h < b.len() && b[h] == a[k + 1];
            assert(h != 0);
            assert(b1[h - 1] == a1[k]);
        }
        assert forall|k: int| 0 <= k < b1.len() implies a1.contains(#[trigger] b1[k]) by {
            assert(b1[k] == b[k + 1]);
            assert(b[0] < b[k + 1]);
            assert(a.contains(b[k + 1]));
            let h = choose|h: int| 0 <= h < a.len() && a[h] == b[k + 1];
            assert(h != 0);
            assert(a1[h - 1] == b1[k]);
        }
        lemma_increasing_eq(a1, b1);
        assert(a =~= seq![a[0]] + a1);
        assert(b =~= seq![b[0]] + b1);
    }
}

/// The ids of `ids` sorted by name, and their names.
pub fn named_sorted(names: &Vec<String>, ranks: &Vec<usize>, ids: &Vec<usize>) -> (r: (Vec<usize>, Vec<String>))
    requires
        ranks_of(names@, ranks@),
        forall|k: int| 0 <= k < ids.len() ==> #[trigger] ids[k] < names.len(),
        forall|i: int, j: int| 0 <= i < j < ids.len() ==> ids[i] != ids[j],
    ensures
        r.0.len() == ids.len(),
        forall|j: int| 0 <= j < r.0.len() ==> ids@.contains(#[trigger] r.0[j]),
        forall|k: int| 0 <= k < ids.len() ==> r.0@.contains(#[trigger] ids[k]),
        forall|j: int| 0 <= j < r.0.len() ==> #[trigger] r.0[j] < names.len(),
        texts(r.1@) == name_seq(names@, r.0@),
        sorted_names(names@, id_set(ids@), texts(r.1@)),
{
    proof {
        assert forall|i: int, j: int| 0 <= i < ranks.len() && 0 <= j < ranks.len() && i != j implies ranks@[i] != ranks@[j] by {
            lemma_rank_pair(names@, ranks@, i, j);
        }
    }
    let sorted = sort_ids_by_rank(ranks, ids);
    proof {
        assert forall|j: int| 0 <= j < sorted.len() implies #[trigger] sorted[j] < names.len() by {
            assert(ids@.contains(sorted[j]));
        }
        lemma_sorted_names(names@, ranks@, ids@, sorted@, id_set(ids@));
    }
    let named = names_of(names, &sorted);
    (sorted, named)
}

/// The rank key of a list of ids.
pub fn rank_key_of(ranks: &Vec<usize>, ids: &Vec<usize>, key: &mut Vec<i128>)
    requires
        forall|k: int| 0 <= k < ids.len() ==> #[trigger] ids[k] < ranks.len(),
    ensures
        final(key)@ == old(key)@ + rank_key(ranks@, ids@),
{
    let ghost k0 = key@;
    for k in 0..ids.len()
        invariant
            forall|h: int| 0 <= h < ids.len() ==> #[trigger] ids[h] < ranks.len(),
            key@ == k0 + rank_key(ranks@, ids@.take(k as int)),
    {
        key.push(ranks[ids[k]] as i128);
        proof {
            assert(ids@.take(k + 1) =~= ids@.take(k as int).push(ids@[k as int]));
            assert(rank_key(ranks@, ids@.take(k + 1)) =~= rank_key(ranks@, ids@.take(k as int)).push(ranks@[ids@[k as int] as int] as i128));
            assert(key@ =~= k0 + rank_key(ranks@, ids@.take(k + 1)));
        }
    }
    assert(ids@.take(ids.len() as int) =~= ids@);
}


/// All members of `x` are below `n`.
pub open spec fn below(x: Seq<usize>, n: int) -> bool {
    forall|k: int| 0 <= k < x.len() ==> #[trigger] x[k] < n
}

/// `s` and `a` have the same members.
pub open spec fn same_members(s: Seq<usize>, a: Seq<usize>) -> bool {
    &&& forall|j: int| 0 <= j < s.len() ==> a.contains(#[trigger] s[j])
    &&& forall|k: int| 0 <= k < a.len() ==> s.contains(#[trigger] a[k])
}

proof fn lemma_rank_key_nonneg(ranks: Seq<usize>, x: Seq<usize>)
    ensures
        forall|k: int| 0 <= k < rank_key(ranks, x).len() ==> #[trigger] rank_key(ranks, x)[k] >= 0,
{
}

/// Place keys of name-sorted id lists order as the places do.
proof fn lemma_place_order(names: Seq<String>, ranks: Seq<usize>, sa1: Seq<usize>, sb1: Seq<usize>, sa2: Seq<usize>, sb2: Seq<usize>)
    requires
        ranks_of(names, ranks),
        below(sa1, names.len() as int),
        below(sb1, names.len() as int),
        below(sa2, names.len() as int),
        below(sb2, names.len() as int),
        key_lt(place_key(rank_key(ranks, sa1), rank_key(ranks, sb1)), place_key(rank_key(ranks, sa2), rank_key(ranks, sb2))),
    ensures
        texts_lt(name_seq(names, sa1), name_seq(names, sa2)) || (name_seq(names, sa1) == name_seq(names, sa2) && texts_lt(
            name_seq(names, sb1),
            name_seq(names, sb2),
        )),
{
    lemma_rank_key_nonneg(ranks, sa1);
    lemma_rank_key_nonneg(ranks, sa2);
    lemma_place_key(rank_key(ranks, sa1), rank_key(ranks, sb1), rank_key(ranks, sa2), rank_key(ranks, sb2));
    lemma_rank_key_order(names, ranks, sa1, sa2);
    lemma_rank_key_order(names, ranks, sb1, sb2);
}

/// Distinct pairs of increasing id lists get distinct place keys.
proof fn lemma_distinct_keys(
    names: Seq<String>,
    ranks: Seq<usize>,
    a1: Seq<usize>,
    b1: Seq<usize>,
    a2: Seq<usize>,
    b2: Seq<usize>,
    sa1: Seq<usize>,
    sb1: Seq<usize>,
    sa2: Seq<usize>,
    sb2: Seq<usize>,
)
    requires
        ranks_of(names, ranks),
        increasing(a1),
        increasing(b1),
        increasing(a2),
        increasing(b2),
        below(sa1, names.len() as int),
        below(sb1, names.len() as int),
        below(sa2, names.len() as int),
        below(sb2, names.len() as int),
        same_members(sa1, a1),
        same_members(sb1, b1),
        same_members(sa2, a2),
        same_members(sb2, b2),
        a1 != a2 || b1 != b2,
    ensures
        place_key(rank_key(ranks, sa1), rank_key(ranks, sb1)) != place_key(rank_key(ranks, sa2), rank_key(ranks, sb2)),
{
    lemma_rank_key_nonneg(ranks, sa1);
    lemma_rank_key_nonneg(ranks, sa2);
    lemma_place_key(rank_key(ranks, sa1), rank_key(ranks, sb1), rank_key(ranks, sa2), rank_key(ranks, sb2));
    lemma_rank_key_order(names, ranks, sa1, sa2);
    lemma_rank_key_order(names, ranks, sb1, sb2);
    if place_key(rank_key(ranks, sa1), rank_key(ranks, sb1)) == place_key(rank_key(ranks, sa2), rank_key(ranks, sb2)) {
        assert(sa1 == sa2 && sb1 == sb2);
        assert forall|k: int| 0 <= k < a1.len() implies a2.contains(#[trigger] a1[k]) by {
            assert(sa1.contains(a1[k]));
            let j = choose|j: int| 0 <= j < sa1.len() && sa1[j] == a1[k];
            assert(a2.contains(sa2[j]));
        }
        assert forall|k: int| 0 <= k < a2.len() implies a1.contains(#[trigger] a2[k]) by {
            assert(sa2.contains(a2[k]));
            let j = choose|j: int| 0 <= j < sa2.len() && sa2[j] == a2[k];
            assert(a1.contains(sa1[j]));
        }
        assert forall|k: int| 0 <= k < b1.len() implies b2.contains(#[trigger] b1[k]) by {
            assert(sb1.contains(b1[k]));
            let j = choose|j: int| 0 <= j < sb1.len() && sb1[j] == b1[k];
            assert(b2.contains(sb2[j]));
        }
        assert forall|k: int| 0 <= k < b2.len() implies b1.contains(#[trigger] b2[k]) by {
            assert(sb2.contains(b2[k]));
            let j = choose|j: int| 0 <= j < sb2.len() && sb2[j] == b2[k];
            assert(b1.contains(sb1[j]));
        }
        lemma_increasing_eq(a1, a2);
        lemma_increasing_eq(b1, b2);
    }
}

/// `p` followed by `i` in decimal.
fn numbered_place(i: usize) -> (r: String)
    ensures
        r@ == place_id(i as nat),
{
    let mut r = String::from_str("p");
    let d = decimal_text(i);
    r.append(d.as_str());
    proof {
        reveal_strlit("p");
    }
    r
}

/// Place `p` stands for one of `pairs`.
pub open spec fn from_some_pair(names: Seq<String>, pairs: Seq<(Vec<usize>, Vec<usize>)>, p: Place) -> bool {
    exists|i: int| 0 <= i < pairs.len() && #[trigger] place_of(names, pairs[i].0@, pairs[i].1@, p)
}

/// Some place of `places` after the first stands for `pair`.
pub open spec fn has_place(names: Seq<String>, pair: (Vec<usize>, Vec<usize>), places: Seq<Place>) -> bool {
    exists|j: int| 1 <= j < places.len() && #[trigger] place_of(names, pair.0@, pair.1@, places[j])
}

/// What `place_keys` computes for pair `h`: both lists sorted by name, and
/// the place key.
pub open spec fn keyed(
    names: Seq<String>,
    ranks: Seq<usize>,
    pairs: Seq<(Vec<usize>, Vec<usize>)>,
    sorted_in: Seq<Vec<usize>>,
    sorted_out: Seq<Vec<usize>>,
    keys: Seq<Vec<i128>>,
    h: int,
) -> bool {
    &&& below(sorted_in[h]@, names.len() as int)
    &&& below(sorted_out[h]@, names.len() as int)
    &&& same_members(sorted_in[h]@, pairs[h].0@)
    &&& same_members(sorted_out[h]@, pairs[h].1@)
    &&& sorted_names(names, id_set(pairs[h].0@), name_seq(names, sorted_in[h]@))
    &&& sorted_names(names, id_set(pairs[h].1@), name_seq(names, sorted_out[h]@))
    &&& keys[h]@ == place_key(rank_key(ranks, sorted_in[h]@), rank_key(ranks, sorted_out[h]@))
}

/// The two lists of every pair sorted by name, and the pairs' place keys.
fn place_keys(names: &Vec<String>, ranks: &Vec<usize>, pairs: &Vec<(Vec<usize>, Vec<usize>)>) -> (r: (Vec<Vec<usize>>, Vec<Vec<usize>>, Vec<Vec<i128>>))
    requires
        ranks_of(names@, ranks@),
        forall|i: int| 0 <= i < pairs.len() ==> increasing((#[trigger] pairs[i]).0@) && increasing(pairs[i].1@),
        forall|i: int| 0 <= i < pairs.len() ==> below((#[trigger] pairs[i]).0@, names.len() as int) && below(pairs[i].1@, names.len() as int),
    ensures
        r.0.len() == pairs.len(),
        r.1.len() == pairs.len(),
        r.2.len() == pairs.len(),
        forall|h: int| 0 <= h < pairs.len() ==> #[trigger] keyed(names@, ranks@, pairs@, r.0@, r.1@, r.2@, h),
{
    let n = pairs.len();
    let mut sorted_in: Vec<Vec<usize>> = Vec::new();
    let mut sorted_out: Vec<Vec<usize>> = Vec::new();
    let mut keys: Vec<Vec<i128>> = Vec::new();
    let mut i: usize = 0;
    while i < n
        invariant
            n == pairs.len(),
            i <= n,
            ranks_of(names@, ranks@),
            forall|i2: int| 0 <= i2 < pairs.len() ==> increasing((#[trigger] pairs[i2]).0@) && increasing(pairs[i2].1@),
            forall|i2: int| 0 <= i2 < pairs.len() ==> below((#[trigger] pairs[i2]).0@, names.len() as int) && below(pairs[i2].1@, names.len() as int),
            sorted_in.len() == i,
            sorted_out.len() == i,
            keys.len() == i,
            forall|h: int| 0 <= h < i ==> #[trigger] keyed(names@, ranks@, pairs@, sorted_in@, sorted_out@, keys@, h),
        decreases n - i,
    {
        let a = &pairs[i].0;
        let b = &pairs[i].1;
        assert(increasing(a@) && increasing(b@));
        assert(below(a@, names.len() as int) && below(b@, names.len() as int));
        let (sa, _na) = named_sorted(names, ranks, a);
        let (sb, _nb) = named_sorted(names, ranks, b);
        let mut key: Vec<i128> = Vec::new();
        rank_key_of(ranks, &sa, &mut key);
        key.push(-1);
        rank_key_of(ranks, &sb, &mut key);
        proof {
            assert(key@ =~= place_key(rank_key(ranks@, sa@), rank_key(ranks@, sb@)));
        }
        let ghost (i0, o0, k0) = (sorted_in@, sorted_out@, keys@);
        sorted_in.push(sa);
        sorted_out.push(sb);
        keys.push(key);
        proof {
            assert forall|h: int| 0 <= h < i + 1 implies #[trigger] keyed(names@, ranks@, pairs@, sorted_in@, sorted_out@, keys@, h) by {
                if h < i {
                    assert(keyed(names@, ranks@, pairs@, i0, o0, k0, h));
                    assert(sorted_in@[h] == i0[h] && sorted_out@[h] == o0[h] && keys@[h] == k0[h]);
                }
            }
        }
        i = i + 1;
    }
    (sorted_in, sorted_out, keys)
}

/// `first`, then the places of the pairs `(a, b)`, numbered `p1`, `p2`, …
/// in place order.
pub fn middle_places(names: &Vec<String>, ranks: &Vec<usize>, pairs: &Vec<(Vec<usize>, Vec<usize>)>, first: Place) -> (places: Vec<Place>)
    requires
        ranks_of(names@, ranks@),
        forall|i: int| 0 <= i < pairs.len() ==> increasing((#[trigger] pairs[i]).0@) && increasing(pairs[i].1@),
        forall|i: int| 0 <= i < pairs.len() ==> below((#[trigger] pairs[i]).0@, names.len() as int) && below(pairs[i].1@, names.len() as int),
        forall|i: int, j: int| 0 <= i < j < pairs.len() ==> (#[trigger] pairs[i]).0@ != (#[trigger] pairs[j]).0@ || pairs[i].1@ != pairs[j].1@,
    ensures
        places.len() == pairs.len() + 1,
        places[0] == first,
        forall|j: int| 1 <= j < places.len() ==> (#[trigger] places[j]).id@ == place_id(j as nat),
        forall|j: int| 1 <= j < places.len() ==> from_some_pair(names@, pairs@, #[trigger] places[j]),
        forall|i: int| 0 <= i < pairs.len() ==> has_place(names@, #[trigger] pairs[i], places@),
        forall|i: int, j: int| 1 <= i < j < places.len() ==> place_lt(#[trigger] places[i], #[trigger] places[j]),
{
    let n = pairs.len();
    let (sorted_in, sorted_out, keys) = place_keys(names, ranks, pairs);
    let perm = sort_by_keys(&keys);
    let mut places: Vec<Place> = Vec::new();
    places.push(first);
    let mut j: usize = 0;
    while j < n
        invariant
            n == pairs.len(),
            j <= n,
            is_permutation(perm@, n as nat),
            sorted_in.len() == n,
            sorted_out.len() == n,
            forall|h: int| 0 <= h < n ==> #[trigger] keyed(names@, ranks@, pairs@, sorted_in@, sorted_out@, keys@, h),
            places.len() == j + 1,
            places[0] == first,
            forall|h: int| 1 <= h <= j ==> {
                &&& (#[trigger] places[h]).id@ == place_id(h as nat)
                &&& texts(places[h].inputs@) == name_seq(names@, sorted_in[perm[h - 1] as int]@)
                &&& texts(places[h].outputs@) == name_seq(names@, sorted_out[perm[h - 1] as int]@)
            },
        decreases n - j,
    {
        let i = perm[j];
        assert(keyed(names@, ranks@, pairs@, sorted_in@, sorted_out@, keys@, i as int));
        let inputs = names_of(names, &sorted_in[i]);
        let outputs = names_of(names, &sorted_out[i]);
        let id = numbered_place(places.len());
        places.push(Place { id, inputs, outputs });
        j = j + 1;
    }
    proof {
        lemma_places(names@, ranks@, pairs@, sorted_in@, sorted_out@, keys@, perm@, places@);
    }
    places
}

proof fn lemma_places(
    names: Seq<String>,
    ranks: Seq<usize>,
    pairs: Seq<(Vec<usize>, Vec<usize>)>,
    sorted_in: Seq<Vec<usize>>,
    sorted_out: Seq<Vec<usize>>,
    keys: Seq<Vec<i128>>,
    perm: Seq<usize>,
    places: Seq<Place>,
)
    requires
        ranks_of(names, ranks),
        forall|i: int| 0 <= i < pairs.len() ==> increasing((#[trigger] pairs[i]).0@) && increasing(pairs[i].1@),
        forall|i: int, j: int| 0 <= i < j < pairs.len() ==> (#[trigger] pairs[i]).0@ != (#[trigger] pairs[j]).0@ || pairs[i].1@ != pairs[j].1@,
        is_permutation(perm, pairs.len() as nat),
        sorted_by_keys(keys.map_values(|k: Vec<i128>| k@), perm),
        keys.len() == pairs.len(),
        forall|h: int| 0 <= h < pairs.len() ==> #[trigger] keyed(names, ranks, pairs, sorted_in, sorted_out, keys, h),
        places.len() == pairs.len() + 1,
        forall|h: int| 1 <= h < places.len() ==> {
            &&& texts((#[trigger] places[h]).inputs@) == name_seq(names, sorted_in[perm[h - 1] as int]@)
            &&& texts(places[h].outputs@) == name_seq(names, sorted_out[perm[h - 1] as int]@)
        },
    ensures
        forall|j: int| 1 <= j < places.len() ==> from_some_pair(names, pairs, #[trigger] places[j]),
        forall|i: int| 0 <= i < pairs.len() ==> has_place(names, #[trigger] pairs[i], places),
        forall|i: int, j: int| 1 <= i < j < places.len() ==> place_lt(#[trigger] places[i], #[trigger] places[j]),
{
    let ks = keys.map_values(|k: Vec<i128>| k@);
    assert forall|j: int| 1 <= j < places.len() implies from_some_pair(names, pairs, #[trigger] places[j]) by {
        let i = perm[j - 1] as int;
        assert(keyed(names, ranks, pairs, sorted_in, sorted_out, keys, i));
        assert(place_of(names, pairs[i].0@, pairs[i].1@, places[j]));
    }
    assert forall|i: int| 0 <= i < pairs.len() implies has_place(names, #[trigger] pairs[i], places) by {
        assert(occurs(perm, i));
        let j = choose|j: int| 0 <= j < perm.len() && perm[j] == i;
        assert(keyed(names, ranks, pairs, sorted_in, sorted_out, keys, i));
        assert(place_of(names, pairs[i].0@, pairs[i].1@, places[j + 1]));
    }
    assert forall|i: int, j: int| 1 <= i < j < places.len() implies place_lt(#[trigger] places[i], #[trigger] places[j]) by {
        let pi = perm[i - 1] as int;
        let pj = perm[j - 1] as int;
        assert(key_le(ks[pi], ks[pj]));
        assert(pi != pj);
        assert(keyed(names, ranks, pairs, sorted_in, sorted_out, keys, pi));
        assert(keyed(names, ranks, pairs, sorted_in, sorted_out, keys, pj));
        if pi < pj {
            assert(pairs[pi].0@ != pairs[pj].0@ || pairs[pi].1@ != pairs[pj].1@);
        } else {
            assert(pairs[pj].0@ != pairs[pi].0@ || pairs[pj].1@ != pairs[pi].1@);
        }
        lemma_distinct_keys(names, ranks, pairs[pi].0@, pairs[pi].1@, pairs[pj].0@, pairs[pj].1@,
            sorted_in[pi]@, sorted_out[pi]@, sorted_in[pj]@, sorted_out[pj]@);
        lemma_key_lt_total(ks[pi], ks[pj]);
        lemma_place_order(names, ranks, sorted_in[pi]@, sorted_out[pi]@, sorted_in[pj]@, sorted_out[pj]@);
    }
}

} // verus!
