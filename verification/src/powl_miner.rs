//! POWL miner: discovery with partial-order cuts.
//!
//! The inductive miner's sequence and parallel cuts only express
//! series-parallel structure. The partial-order cut generalizes both: the
//! alphabet is partitioned into groups that are pairwise either strictly
//! ordered or fully concurrent, with transitivity enforced, so an N-shaped
//! order (a before c, b before c, b before d) becomes one node. The
//! exclusive and loop cuts, the noise filter and the fall-throughs are the
//! inductive miner's.
use vstd::prelude::*;
use crate::closure::count_opens;
use crate::cuts::{CutGraph, Weighted, cut_graph, graph_of, occurs_in, weight};
use crate::heuristics::Ratio;
use crate::log::EventLog;
use crate::miner::{
    alphabet_of, cut_parts, links_are, loop_ok, once_upto, redo_count, log_views, nonempty_views, once_choice, without_empty, lemma_no_exclusive, lemma_no_loop, trace_views,
    all_counted, by_activity, counted, disjoint_parts, distinct_names, exclusive_cut, from_log, graph_of_shape, ids_below,
    in_some, lemma_grouped, lemma_occurs_at, lemma_occurs_push, lemma_projected_spread, lemma_split_disjoint,
    lemma_within_occurs, loop_cut, routed_somehow, once_per_trace, other_than, parts_below, project, spread_over, weight_fits, within,
};
use crate::partial_order::{Cat, categories, group_cat, po_groups};
use crate::powl::{
    Powl, lemma_powl_all_partitioned, lemma_powl_all_wide, lemma_powl_all_wide_from, lemma_powl_labels_in,
    powl_all_partitioned, powl_disjoint, powl_label, powl_labels_in, powl_partitioned, powl_wide,
};
use crate::text::name_ranks;
use crate::trace::{build, carried_by_target, lemma_names_within_events};

verus! {

/// Every leaf of `t` names an activity that occurs in `log`.
pub open spec fn powl_labelled_from(t: Powl, log: Seq<Weighted>, names: Seq<String>) -> bool {
    forall|x: Seq<char>| #[trigger] powl_label(t, x) ==> from_log(log, names, x)
}

proof fn lemma_powl_all_partitioned_from(cs: Seq<Powl>, k: int)
    requires
        0 <= k <= cs.len(),
        forall|i: int| 0 <= i < k ==> #[trigger] powl_partitioned(cs[i]),
    ensures
        powl_all_partitioned(cs, k),
    decreases k,
{
    if k > 0 {
        lemma_powl_all_partitioned_from(cs, k - 1);
        assert(powl_partitioned(cs[k - 1]));
    }
}

/// Models mined from disjoint sub-logs of `log` make the children of a
/// partitioned operator labelled from `log`.
proof fn lemma_powl_from_parts(cs: Seq<Powl>, parts: Seq<Vec<Weighted>>, log: Seq<Weighted>, names: Seq<String>)
    requires
        cs.len() == parts.len(),
        forall|p: int| 0 <= p < cs.len() ==> #[trigger] powl_partitioned(cs[p]),
        forall|p: int| 0 <= p < cs.len() ==> #[trigger] powl_labelled_from(cs[p], parts[p]@, names),
        disjoint_parts(parts, log),
        distinct_names(names),
    ensures
        powl_disjoint(cs),
        powl_all_partitioned(cs, cs.len() as int),
        forall|x: Seq<char>| #[trigger] powl_labels_in(cs, cs.len() as int, x) ==> from_log(log, names, x),
{
    lemma_powl_all_partitioned_from(cs, cs.len() as int);
    assert forall|i: int, j: int, x: Seq<char>|
        0 <= i < j < cs.len() && #[trigger] powl_label(cs[i], x) implies !#[trigger] powl_label(cs[j], x) by {
        assert(powl_labelled_from(cs[i], parts[i]@, names));
        let a = choose|a: int| 0 <= a < names.len() && occurs_in(parts[i]@, a) && #[trigger] names[a]@ == x;
        if powl_label(cs[j], x) {
            assert(powl_labelled_from(cs[j], parts[j]@, names));
            let b = choose|b: int| 0 <= b < names.len() && occurs_in(parts[j]@, b) && #[trigger] names[b]@ == x;
            if a < b {
                assert(names[a]@ != names[b]@);
            } else if b < a {
                assert(names[b]@ != names[a]@);
            }
            assert(!occurs_in(parts[j]@, a));
        }
    }
    assert forall|x: Seq<char>| #[trigger] powl_labels_in(cs, cs.len() as int, x) implies from_log(log, names, x) by {
        lemma_powl_labels_in(cs, cs.len() as int, x);
        let i = choose|i: int| 0 <= i < cs.len() && #[trigger] powl_label(cs[i], x);
        assert(powl_labelled_from(cs[i], parts[i]@, names));
        let a = choose|a: int| 0 <= a < names.len() && occurs_in(parts[i]@, a) && #[trigger] names[a]@ == x;
        assert(within(parts[i]@, log));
        lemma_within_occurs(parts[i]@, log, a);
    }
}

/// Every activity occurring in `log` labels a leaf of `t`.
pub open spec fn powl_covers(t: Powl, log: Seq<Weighted>, names: Seq<String>) -> bool {
    forall|a: int| 0 <= a < names.len() && #[trigger] occurs_in(log, a) ==> powl_label(t, names[a]@)
}

/// The flower over a non-empty alphabet is wide.
proof fn lemma_powl_flower_wide(t: Powl, names: Seq<String>, alphabet: Seq<usize>)
    requires
        is_powl_flower(t, names, alphabet),
        alphabet.len() >= 1,
    ensures
        powl_wide(t),
{
    let cs = t->Loop_children@;
    assert forall|i: int| 0 <= i < cs.len() implies #[trigger] powl_wide(cs[i]) by {
        if i > 0 {
            assert(cs[(i - 1) + 1] == Powl::Activity { label: names[alphabet[i - 1] as int] });
        }
    }
    lemma_powl_all_wide_from(cs, cs.len() as int);
}

/// A flower over every activity of `log` covers it.
proof fn lemma_powl_flower_covers(t: Powl, names: Seq<String>, alphabet: Seq<usize>, log: Seq<Weighted>)
    requires
        is_powl_flower(t, names, alphabet),
        forall|a: int| 0 <= a < names.len() && #[trigger] occurs_in(log, a) ==> alphabet.contains(a as usize),
    ensures
        powl_covers(t, log, names),
{
    let cs = t->Loop_children@;
    assert forall|a: int| 0 <= a < names.len() && #[trigger] occurs_in(log, a) implies powl_label(t, names[a]@) by {
        let z = choose|z: int| 0 <= z < alphabet.len() && alphabet[z] == a as usize;
        assert(cs[z + 1] == Powl::Activity { label: names[alphabet[z] as int] });
        assert(powl_label(cs[z + 1], names[a]@));
        lemma_powl_labels_in(cs, cs.len() as int, names[a]@);
    }
}

/// Children covering sub-logs that spread `log` cover it.
proof fn lemma_powl_covers_parts(cs: Seq<Powl>, parts: Seq<Vec<Weighted>>, log: Seq<Weighted>, names: Seq<String>)
    requires
        cs.len() == parts.len(),
        forall|p: int| 0 <= p < cs.len() ==> #[trigger] powl_covers(cs[p], parts[p]@, names),
        spread_over(parts, log),
    ensures
        forall|a: int| 0 <= a < names.len() && #[trigger] occurs_in(log, a) ==> powl_labels_in(cs, cs.len() as int, names[a]@),
{
    assert forall|a: int| 0 <= a < names.len() && #[trigger] occurs_in(log, a) implies powl_labels_in(cs, cs.len() as int, names[a]@) by {
        assert(in_some(parts, a));
        let p = choose|p: int| 0 <= p < parts.len() && #[trigger] occurs_in(parts[p]@, a);
        assert(powl_covers(cs[p], parts[p]@, names));
        assert(powl_label(cs[p], names[a]@));
        lemma_powl_labels_in(cs, cs.len() as int, names[a]@);
    }
}

/// The join of `chosen` with the models mined from `rest` covers `log`
/// when `rest` holds every other activity of `log`.
proof fn lemma_powl_join_covers(
    cs: Seq<Powl>,
    chosen: int,
    inner: Powl,
    ns: Seq<Powl>,
    rest: Seq<Weighted>,
    log: Seq<Weighted>,
    names: Seq<String>,
)
    requires
        0 <= chosen < names.len(),
        cs == seq![Powl::Activity { label: names[chosen] }] + ns,
        powl_covers(inner, rest, names),
        forall|x: Seq<char>| #[trigger] powl_label(inner, x) ==> exists|i: int| 0 <= i < ns.len() && #[trigger] powl_label(ns[i], x),
        forall|a: int| #[trigger] occurs_in(log, a) && a != chosen ==> occurs_in(rest, a),
    ensures
        forall|a: int| 0 <= a < names.len() && #[trigger] occurs_in(log, a) ==> powl_labels_in(cs, cs.len() as int, names[a]@),
{
    assert forall|a: int| 0 <= a < names.len() && #[trigger] occurs_in(log, a) implies powl_labels_in(cs, cs.len() as int, names[a]@) by {
        if a == chosen {
            assert(powl_label(cs[0], names[a]@));
        } else {
            assert(occurs_in(rest, a));
            assert(powl_label(inner, names[a]@));
            let i = choose|i: int| 0 <= i < ns.len() && #[trigger] powl_label(ns[i], names[a]@);
            assert(cs[i + 1] == ns[i]);
            assert(powl_label(cs[i + 1], names[a]@));
        }
        lemma_powl_labels_in(cs, cs.len() as int, names[a]@);
    }
}

/// The flower over distinct activities of `log` is partitioned and
/// labelled from `log`.
proof fn lemma_powl_flower(t: Powl, names: Seq<String>, alphabet: Seq<usize>, log: Seq<Weighted>)
    requires
        is_powl_flower(t, names, alphabet),
        distinct_names(names),
        forall|i: int| 0 <= i < alphabet.len() ==> #[trigger] alphabet[i] < names.len(),
        forall|i: int| 0 <= i < alphabet.len() ==> #[trigger] occurs_in(log, alphabet[i] as int),
        forall|i: int, j: int| 0 <= i < j < alphabet.len() ==> #[trigger] alphabet[i] < #[trigger] alphabet[j],
        alphabet.len() >= 1,
    ensures
        powl_partitioned(t),
        powl_labelled_from(t, log, names),
{
    let cs = t->Loop_children@;
    assert forall|i: int| 0 <= i < cs.len() implies #[trigger] powl_partitioned(cs[i]) by {
        if i > 0 {
            assert(cs[(i - 1) + 1] == Powl::Activity { label: names[alphabet[i - 1] as int] });
        }
    }
    lemma_powl_all_partitioned_from(cs, cs.len() as int);
    assert forall|i: int, j: int, x: Seq<char>|
        0 <= i < j < cs.len() && #[trigger] powl_label(cs[i], x) implies !#[trigger] powl_label(cs[j], x) by {
        if i > 0 {
            assert(cs[(i - 1) + 1] == Powl::Activity { label: names[alphabet[i - 1] as int] });
            assert(cs[(j - 1) + 1] == Powl::Activity { label: names[alphabet[j - 1] as int] });
            assert(alphabet[i - 1] < alphabet[j - 1]);
        }
    }
    assert forall|x: Seq<char>| #[trigger] powl_label(t, x) implies from_log(log, names, x) by {
        lemma_powl_labels_in(cs, cs.len() as int, x);
        let i = choose|i: int| 0 <= i < cs.len() && #[trigger] powl_label(cs[i], x);
        assert(i > 0);
        assert(cs[(i - 1) + 1] == Powl::Activity { label: names[alphabet[i - 1] as int] });
        assert(names[alphabet[i - 1] as int]@ == x);
        assert(occurs_in(log, alphabet[i - 1] as int));
    }
}

/// An operator over two children sharing no label.
proof fn lemma_powl_two(cs: Seq<Powl>, log: Seq<Weighted>, names: Seq<String>)
    requires
        cs.len() == 2,
        powl_partitioned(cs[0]),
        powl_partitioned(cs[1]),
        powl_labelled_from(cs[0], log, names),
        powl_labelled_from(cs[1], log, names),
        forall|x: Seq<char>| #[trigger] powl_label(cs[0], x) ==> !powl_label(cs[1], x),
    ensures
        powl_disjoint(cs),
        powl_all_partitioned(cs, 2),
        forall|x: Seq<char>| #[trigger] powl_labels_in(cs, 2, x) ==> from_log(log, names, x),
{
    lemma_powl_all_partitioned_from(cs, 2);
    assert forall|x: Seq<char>| #[trigger] powl_labels_in(cs, 2, x) implies from_log(log, names, x) by {
        lemma_powl_labels_in(cs, 2, x);
        let i = choose|i: int| 0 <= i < 2 && #[trigger] powl_label(cs[i], x);
    }
}

/// The activity `chosen`, absent from `rest`, joins, unordered, the
/// children mined from `rest`.
proof fn lemma_powl_join(cs: Seq<Powl>, chosen: int, inner: Seq<Powl>, rest: Seq<Weighted>, log: Seq<Weighted>, names: Seq<String>)
    requires
        0 <= chosen < names.len(),
        cs == seq![Powl::Activity { label: names[chosen] }] + inner,
        occurs_in(log, chosen),
        !occurs_in(rest, chosen),
        within(rest, log),
        distinct_names(names),
        powl_disjoint(inner),
        forall|i: int| 0 <= i < inner.len() ==> #[trigger] powl_partitioned(inner[i]),
        forall|i: int, x: Seq<char>| 0 <= i < inner.len() && #[trigger] powl_label(inner[i], x) ==> from_log(rest, names, x),
    ensures
        powl_disjoint(cs),
        powl_all_partitioned(cs, cs.len() as int),
        forall|x: Seq<char>| #[trigger] powl_labels_in(cs, cs.len() as int, x) ==> from_log(log, names, x),
{
    assert forall|i: int| 0 <= i < cs.len() implies #[trigger] powl_partitioned(cs[i]) by {
        if i > 0 {
            assert(cs[i] == inner[i - 1]);
        }
    }
    lemma_powl_all_partitioned_from(cs, cs.len() as int);
    assert forall|i: int, j: int, x: Seq<char>|
        0 <= i < j < cs.len() && #[trigger] powl_label(cs[i], x) implies !#[trigger] powl_label(cs[j], x) by {
        assert(cs[j] == inner[j - 1]);
        if i == 0 {
            if powl_label(cs[j], x) {
                assert(powl_label(inner[j - 1], x));
                let b = choose|b: int| 0 <= b < names.len() && occurs_in(rest, b) && #[trigger] names[b]@ == x;
                if b < chosen {
                    assert(names[b]@ != names[chosen]@);
                } else if chosen < b {
                    assert(names[chosen]@ != names[b]@);
                }
            }
        } else {
            assert(cs[i] == inner[i - 1]);
        }
    }
    assert forall|x: Seq<char>| #[trigger] powl_labels_in(cs, cs.len() as int, x) implies from_log(log, names, x) by {
        lemma_powl_labels_in(cs, cs.len() as int, x);
        let i = choose|i: int| 0 <= i < cs.len() && #[trigger] powl_label(cs[i], x);
        if i > 0 {
            assert(cs[i] == inner[i - 1]);
            assert(powl_label(inner[i - 1], x));
            let b = choose|b: int| 0 <= b < names.len() && occurs_in(rest, b) && #[trigger] names[b]@ == x;
            lemma_within_occurs(rest, log, b);
        } else {
            assert(names[chosen]@ == x);
        }
    }
}

proof fn lemma_powl_labelled_within(t: Powl, sub: Seq<Weighted>, log: Seq<Weighted>, names: Seq<String>)
    requires
        powl_labelled_from(t, sub, names),
        within(sub, log),
    ensures
        powl_labelled_from(t, log, names),
{
    assert forall|x: Seq<char>| #[trigger] powl_label(t, x) implies from_log(log, names, x) by {
        let a = choose|a: int| 0 <= a < names.len() && occurs_in(sub, a) && #[trigger] names[a]@ == x;
        lemma_within_occurs(sub, log, a);
    }
}

/// The children of a partitioned partial-order node mined from `rest`.
proof fn lemma_powl_nested(t: Powl, ns: Seq<Powl>, rest: Seq<Weighted>, names: Seq<String>)
    requires
        t matches Powl::PartialOrder { children, .. } && children@ == ns,
        powl_partitioned(t),
        powl_labelled_from(t, rest, names),
    ensures
        powl_disjoint(ns),
        forall|i: int| 0 <= i < ns.len() ==> #[trigger] powl_partitioned(ns[i]),
        forall|i: int, x: Seq<char>| 0 <= i < ns.len() && #[trigger] powl_label(ns[i], x) ==> from_log(rest, names, x),
{
    assert forall|i: int| 0 <= i < ns.len() implies #[trigger] powl_partitioned(ns[i]) by {
        lemma_powl_all_partitioned(ns, ns.len() as int, i);
    }
    assert forall|i: int, x: Seq<char>| 0 <= i < ns.len() && #[trigger] powl_label(ns[i], x) implies from_log(rest, names, x) by {
        lemma_powl_labels_in(ns, ns.len() as int, x);
        assert(powl_label(t, x));
    }
}

/// `t` is the flower over `alphabet`: a loop whose body is the silent
/// step and whose redo parts are the leaves of `alphabet`, in order.
pub open spec fn is_powl_flower(t: Powl, names: Seq<String>, alphabet: Seq<usize>) -> bool {
    &&& t is Loop
    &&& t->Loop_children.len() == alphabet.len() + 1
    &&& t->Loop_children@[0] == Powl::Tau
    &&& forall|x: int| 0 <= x < alphabet.len() ==> #[trigger] t->Loop_children@[x + 1] == (Powl::Activity { label: names[alphabet[x] as int] })
}

/// The leaf of activity `a`.
fn powl_leaf(names: &Vec<String>, a: usize) -> (r: Powl)
    requires
        a < names.len(),
    ensures
        r == (Powl::Activity { label: names[a as int] }),
{
    Powl::Activity { label: names[a].clone() }
}

/// The flower over `alphabet`.
fn powl_flower(names: &Vec<String>, alphabet: &Vec<usize>) -> (r: Powl)
    requires
        forall|i: int| 0 <= i < alphabet.len() ==> #[trigger] alphabet[i] < names.len(),
    ensures
        is_powl_flower(r, names@, alphabet@),
{
    let mut children: Vec<Powl> = Vec::new();
    children.push(Powl::Tau);
    let mut i: usize = 0;
    while i < alphabet.len()
        invariant
            forall|x: int| 0 <= x < alphabet.len() ==> #[trigger] alphabet[x] < names.len(),
            i <= alphabet.len(),
            children.len() == i + 1,
            children@[0] == Powl::Tau,
            forall|x: int| 0 <= x < i ==> #[trigger] children@[x + 1] == (Powl::Activity { label: names[alphabet[x] as int] }),
        decreases alphabet.len() - i,
    {
        children.push(powl_leaf(names, alphabet[i]));
        i = i + 1;
    }
    Powl::Loop { children }
}

/// The directly-follows counts between alphabet positions.
fn position_counts(g: &CutGraph, n: usize) -> (m: Vec<Vec<usize>>)
    requires
        graph_of_shape(*g, n as int),
    ensures
        m.len() == g.alphabet.len(),
        forall|i: int| 0 <= i < g.alphabet.len() ==> #[trigger] m[i].len() == g.alphabet.len(),
        forall|i: int, j: int| 0 <= i < g.alphabet.len() && 0 <= j < g.alphabet.len() ==> #[trigger] m[i]@[j] == g.follows[g.alphabet[i] as int]@[g.alphabet[j] as int],
{
    let k = g.alphabet.len();
    let mut m: Vec<Vec<usize>> = Vec::new();
    let mut i: usize = 0;
    while i < k
        invariant
            graph_of_shape(*g, n as int),
            k == g.alphabet.len(),
            i <= k,
            m.len() == i,
            forall|x: int| 0 <= x < i ==> #[trigger] m[x].len() == k,
            forall|x: int, y: int| 0 <= x < i && 0 <= y < k ==> #[trigger] m[x]@[y] == g.follows[g.alphabet[x] as int]@[g.alphabet[y] as int],
        decreases k - i,
    {
        let mut row: Vec<usize> = Vec::new();
        let mut j: usize = 0;
        while j < k
            invariant
                graph_of_shape(*g, n as int),
                k == g.alphabet.len(),
                i < k,
                j <= k,
                row.len() == j,
                forall|y: int| 0 <= y < j ==> #[trigger] row@[y] == g.follows[g.alphabet[i as int] as int]@[g.alphabet[y] as int],
            decreases k - j,
        {
            let a = g.alphabet[i];
            let b = g.alphabet[j];
            assert(g.follows[a as int].len() == n);
            row.push(g.follows[a][b]);
            j = j + 1;
        }
        m.push(row);
        i = i + 1;
    }
    m
}

/// Per alphabet position: the flag of its activity.
fn position_flags(g: &CutGraph, flags: &Vec<bool>, n: usize) -> (r: Vec<bool>)
    requires
        graph_of_shape(*g, n as int),
        flags.len() == n,
    ensures
        r.len() == g.alphabet.len(),
        forall|i: int| 0 <= i < g.alphabet.len() ==> #[trigger] r[i] == flags[g.alphabet[i] as int],
{
    let mut r: Vec<bool> = Vec::new();
    let mut i: usize = 0;
    while i < g.alphabet.len()
        invariant
            graph_of_shape(*g, n as int),
            flags.len() == n,
            i <= g.alphabet.len(),
            r.len() == i,
            forall|x: int| 0 <= x < i ==> #[trigger] r[x] == flags[g.alphabet[x] as int],
        decreases g.alphabet.len() - i,
    {
        r.push(flags[g.alphabet[i]]);
        i = i + 1;
    }
    r
}

/// The categories with concurrency read as no relation.
fn relax(cats: &Vec<Vec<Cat>>, m: usize) -> (r: Vec<Vec<Cat>>)
    requires
        crate::partial_order::cat_square(cats@, m as int),
    ensures
        crate::partial_order::cat_square(r@, m as int),
        forall|a: int, b: int| 0 <= a < m && 0 <= b < m ==> #[trigger] r[a]@[b] == (if cats[a]@[b] == Cat::Conc { Cat::Unrelated } else { cats[a]@[b] }),
{
    let mut r: Vec<Vec<Cat>> = Vec::new();
    let mut a: usize = 0;
    while a < m
        invariant
            crate::partial_order::cat_square(cats@, m as int),
            a <= m,
            r.len() == a,
            forall|x: int| 0 <= x < a ==> #[trigger] r[x].len() == m,
            forall|x: int, y: int| 0 <= x < a && 0 <= y < m ==> #[trigger] r[x]@[y] == (if cats[x]@[y] == Cat::Conc { Cat::Unrelated } else { cats[x]@[y] }),
        decreases m - a,
    {
        let mut row: Vec<Cat> = Vec::new();
        let mut b: usize = 0;
        assert(cats[a as int].len() == m);
        while b < m
            invariant
                crate::partial_order::cat_square(cats@, m as int),
                cats[a as int].len() == m,
                a < m,
                b <= m,
                row.len() == b,
                forall|y: int| 0 <= y < b ==> #[trigger] row@[y] == (if cats[a as int]@[y] == Cat::Conc { Cat::Unrelated } else { cats[a as int]@[y] }),
            decreases m - b,
        {
            let c = cats[a][b];
            row.push(if c == Cat::Conc { Cat::Unrelated } else { c });
            b = b + 1;
        }
        r.push(row);
        a = a + 1;
    }
    r
}

/// `c` stands between `a` and `b` under `lt`.
pub open spec fn between(lt: spec_fn(int, int) -> bool, a: int, c: int, b: int) -> bool {
    lt(a, c) && lt(c, b)
}

/// `a` comes before `b` under `lt` on `0..k` with nothing in between.
pub open spec fn direct_pair(lt: spec_fn(int, int) -> bool, k: int, a: int, b: int) -> bool {
    &&& 0 <= a < k && 0 <= b < k
    &&& lt(a, b)
    &&& forall|c: int| 0 <= c < k ==> !#[trigger] between(lt, a, c, b)
}

/// `order` holds the pair `(a, b)`.
pub open spec fn order_has(order: Seq<(usize, usize)>, a: int, b: int) -> bool {
    exists|x: int| 0 <= x < order.len() && #[trigger] order[x] == (a as usize, b as usize)
}

/// `lt` is a strict partial order on `0..k`.
pub open spec fn strict_order(lt: spec_fn(int, int) -> bool, k: int) -> bool {
    &&& forall|a: int| 0 <= a < k ==> !#[trigger] lt(a, a)
    &&& forall|a: int, b: int, c: int|
        0 <= a < k && 0 <= b < k && 0 <= c < k && #[trigger] lt(a, b) && #[trigger] lt(b, c) ==> lt(a, c)
}

/// `order` is the transitive reduction of `lt` on `0..k`: it holds exactly
/// the pairs with nothing in between.
pub open spec fn reduction_of(order: Seq<(usize, usize)>, lt: spec_fn(int, int) -> bool, k: int) -> bool {
    &&& forall|x: int| 0 <= x < order.len() ==> #[trigger] direct_pair(lt, k, order[x].0 as int, order[x].1 as int)
    &&& forall|a: int, b: int| #[trigger] direct_pair(lt, k, a, b) ==> order_has(order, a, b)
}

/// `order` is the transitive reduction of some strict partial order on
/// `0..k`.
pub open spec fn reduced_order(order: Seq<(usize, usize)>, k: int) -> bool {
    exists|lt: spec_fn(int, int) -> bool| #[trigger] strict_order(lt, k) && reduction_of(order, lt, k)
}

/// A transitive reduction of some strict partial order.
proof fn lemma_reduced(order: Seq<(usize, usize)>, lt: spec_fn(int, int) -> bool, k: int)
    requires
        strict_order(lt, k),
        reduction_of(order, lt, k),
    ensures
        reduced_order(order, k),
{
}

/// The partial-order cut. The strict stage keeps concurrent pairs in
/// separate groups; when it leaves fewer than two groups, concurrency is
/// read as no relation and the grouping is tried again. Group `i` comes
/// before group `j` when their first members are ordered so; the order
/// keeps only the pairs with no group in between. Each trace splits into
/// its activities of each group.
fn po_cut(log: &Vec<Weighted>, g: &CutGraph, n: usize, noise: Ratio) -> (r: Option<(Vec<Vec<Weighted>>, Vec<(usize, usize)>)>)
    requires
        graph_of(log@, n as int, noise, *g),
        ids_below(log@, n as int),
        noise.den > 0,
    ensures
        r matches Some((parts, order)) ==> parts.len() >= 2 && parts_below(parts@, n as int) && disjoint_parts(parts@, log@)
            && forall|k: int| 0 <= k < order.len() ==> (#[trigger] order@[k]).0 < parts.len() && order@[k].1 < parts.len(),
        r matches Some((parts, order)) ==> spread_over(parts@, log@) && (counted(log@) ==> all_counted(parts@)),
        r matches Some((parts, order)) ==> reduced_order(order@, parts.len() as int),
{
    let m = g.alphabet.len();
    let counts = position_counts(g, n);
    let starts = position_flags(g, &g.starts, n);
    let ends = position_flags(g, &g.ends, n);
    let cats = categories(&counts, m, noise);
    let mut groups = po_groups(m, &cats, &starts, &ends);
    if groups.len() < 2 {
        let relaxed = relax(&cats, m);
        groups = po_groups(m, &relaxed, &starts, &ends);
        proof {
            let gs1 = groups@;
            assert forall|a: int, b: int| 0 <= a < gs1.len() && 0 <= b < gs1.len() implies
                #[trigger] group_cat(relaxed@, gs1, a, b) == Cat::Lt <==> group_cat(cats@, gs1, a, b) == Cat::Lt by {
                assert(gs1[a].len() > 0 && gs1[b].len() > 0);
                assert(gs1[a]@[0] < m && gs1[b]@[0] < m);
                assert(relaxed@[gs1[a]@[0] as int]@[gs1[b]@[0] as int] == (if cats@[gs1[a]@[0] as int]@[gs1[b]@[0] as int] == Cat::Conc { Cat::Unrelated } else { cats@[gs1[a]@[0] as int]@[gs1[b]@[0] as int] }));
            }
            assert forall|a: int, b: int, c: int|
                0 <= a < gs1.len() && 0 <= b < gs1.len() && 0 <= c < gs1.len() && a != b && b != c && a != c
                    && #[trigger] group_cat(cats@, gs1, a, b) == Cat::Lt && #[trigger] group_cat(cats@, gs1, b, c) == Cat::Lt
                    implies group_cat(cats@, gs1, a, c) == Cat::Lt by {
                assert(group_cat(relaxed@, gs1, a, b) == Cat::Lt);
                assert(group_cat(relaxed@, gs1, b, c) == Cat::Lt);
                assert(group_cat(relaxed@, gs1, a, c) == Cat::Lt);
            }
            assert(crate::partial_order::transitive(cats@, gs1));
        }
    }
    let k = groups.len();
    if k < 2 {
        return None;
    }
    let ghost gs = groups@;
    assert(crate::partial_order::partition(gs, m as int));
    assert(crate::partial_order::transitive(cats@, gs));
    let ghost lt = |a: int, b: int| a != b && group_cat(cats@, gs, a, b) == Cat::Lt;
    // the order between groups, transitively reduced
    let mut order: Vec<(usize, usize)> = Vec::new();
    let mut i: usize = 0;
    while i < k
        invariant
            k == groups.len(),
            groups@ == gs,
            crate::partial_order::partition(gs, m as int),
            crate::partial_order::cat_square(cats@, m as int),
            i <= k,
            forall|x: int| 0 <= x < order.len() ==> (#[trigger] order@[x]).0 < k && order@[x].1 < k,
            lt == (|a: int, b: int| a != b && group_cat(cats@, gs, a, b) == Cat::Lt),
            forall|x: int| 0 <= x < order.len() ==> #[trigger] direct_pair(lt, k as int, order@[x].0 as int, order@[x].1 as int),
            forall|a: int, b: int| 0 <= a < i && #[trigger] direct_pair(lt, k as int, a, b) ==> order_has(order@, a, b),
        decreases k - i,
    {
        let mut j: usize = 0;
        while j < k
            invariant
                k == groups.len(),
                groups@ == gs,
                crate::partial_order::partition(gs, m as int),
                crate::partial_order::cat_square(cats@, m as int),
                i < k,
                j <= k,
                forall|x: int| 0 <= x < order.len() ==> (#[trigger] order@[x]).0 < k && order@[x].1 < k,
                lt == (|a: int, b: int| a != b && group_cat(cats@, gs, a, b) == Cat::Lt),
                forall|x: int| 0 <= x < order.len() ==> #[trigger] direct_pair(lt, k as int, order@[x].0 as int, order@[x].1 as int),
                forall|a: int, b: int| 0 <= a < i && #[trigger] direct_pair(lt, k as int, a, b) ==> order_has(order@, a, b),
                forall|b: int| 0 <= b < j && #[trigger] direct_pair(lt, k as int, i as int, b) ==> order_has(order@, i as int, b),
            decreases k - j,
        {
            if i != j && before_group(&groups, &cats, i, j, Ghost(m as int)) {
                let mut direct = true;
                let mut mm: usize = 0;
                while mm < k
                    invariant
                        k == groups.len(),
                        groups@ == gs,
                        crate::partial_order::partition(gs, m as int),
                        crate::partial_order::cat_square(cats@, m as int),
                        i < k,
                        j < k,
                        i != j,
                        mm <= k,
                        lt == (|a: int, b: int| a != b && group_cat(cats@, gs, a, b) == Cat::Lt),
                        direct == forall|c: int| 0 <= c < mm ==> !#[trigger] between(lt, i as int, c, j as int),
                    decreases k - mm,
                {
                    let b1 = before_group(&groups, &cats, i, mm, Ghost(m as int));
                    let b2 = before_group(&groups, &cats, mm, j, Ghost(m as int));
                    proof {
                        assert(between(lt, i as int, mm as int, j as int) == (mm != i && mm != j && b1 && b2));
                    }
                    let ghost d0 = direct;
                    if mm != i && mm != j && b1 && b2 {
                        direct = false;
                    }
                    proof {
                        if d0 && !(mm != i && mm != j && b1 && b2) {
                            assert forall|c: int| 0 <= c < mm + 1 implies !#[trigger] between(lt, i as int, c, j as int) by {
                                if c < mm {
                                    assert(!between(lt, i as int, c, j as int));
                                }
                            }
                        }
                    }
                    mm = mm + 1;
                }
                proof {
                    assert(lt(i as int, j as int));
                }
                if direct {
                    let ghost o0 = order@;
                    order.push((i, j));
                    proof {
                        assert(direct_pair(lt, k as int, i as int, j as int));
                        assert(order@[o0.len() as int] == (i, j));
                        assert forall|a: int, b: int| 0 <= a < i && #[trigger] direct_pair(lt, k as int, a, b) implies order_has(order@, a, b) by {
                            let x = choose|x: int| 0 <= x < o0.len() && #[trigger] o0[x] == (a as usize, b as usize);
                            assert(order@[x] == o0[x]);
                        }
                        assert forall|b: int| 0 <= b < j && #[trigger] direct_pair(lt, k as int, i as int, b) implies order_has(order@, i as int, b) by {
                            let x = choose|x: int| 0 <= x < o0.len() && #[trigger] o0[x] == (i as usize, b as usize);
                            assert(order@[x] == o0[x]);
                        }
                        assert forall|x: int| 0 <= x < order.len() implies #[trigger] direct_pair(lt, k as int, order@[x].0 as int, order@[x].1 as int) by {
                            if x < o0.len() {
                                assert(order@[x] == o0[x]);
                            }
                        }
                        assert(order_has(order@, i as int, j as int));
                    }
                } else {
                    proof {
                        let c = choose|c: int| 0 <= c < k && #[trigger] between(lt, i as int, c, j as int);
                        assert(!direct_pair(lt, k as int, i as int, j as int));
                    }
                }
            } else {
                proof {
                    assert(!direct_pair(lt, k as int, i as int, j as int));
                }
            }
            j = j + 1;
        }
        i = i + 1;
    }
    // each alphabet position's group
    let mut per_position: Vec<usize> = Vec::new();
    let mut x: usize = 0;
    while x < m
        invariant
            k >= 2,
            x <= m,
            per_position.len() == x,
            forall|y: int| 0 <= y < x ==> #[trigger] per_position[y] < k,
        decreases m - x,
    {
        per_position.push(0);
        x = x + 1;
    }
    let mut gi: usize = 0;
    while gi < k
        invariant
            k == groups.len(),
            groups@ == gs,
            crate::partial_order::partition(gs, m as int),
            gi <= k,
            per_position.len() == m,
            forall|y: int| 0 <= y < m ==> #[trigger] per_position[y] < k,
        decreases k - gi,
    {
        let mut q: usize = 0;
        while q < groups[gi].len()
            invariant
                k == groups.len(),
                groups@ == gs,
                crate::partial_order::partition(gs, m as int),
                gi < k,
                q <= groups[gi as int].len(),
                per_position.len() == m,
                forall|y: int| 0 <= y < m ==> #[trigger] per_position[y] < k,
            decreases groups[gi as int].len() - q,
        {
            assert(groups@[gi as int]@[q as int] < m);
            per_position.set(groups[gi][q], gi);
            q = q + 1;
        }
        gi = gi + 1;
    }
    let group = by_activity(g, &per_position, n);
    let parts = project(log, &group, k, Ghost(n as int));
    proof {
        lemma_grouped(log@, n as int, noise, *g, group@, per_position@, k as int);
        lemma_projected_spread(parts@, log@, group@);
        lemma_split_disjoint(parts@, log@, group@);
    }
    proof {
        assert forall|a: int, b: int, c: int|
            0 <= a < k && 0 <= b < k && 0 <= c < k && #[trigger] lt(a, b) && #[trigger] lt(b, c) implies lt(a, c) by {
            assert(gs[a].len() > 0 && gs[b].len() > 0);
            let x = gs[a]@[0] as int;
            let y = gs[b]@[0] as int;
            assert(x < m && y < m);
            if a == c {
                assert(cats@[x]@[y] == crate::partial_order::category(counts@, noise, m as int, x, y));
                assert(cats@[y]@[x] == crate::partial_order::category(counts@, noise, m as int, y, x));
                assert(false);
            }
        }
        assert(strict_order(lt, k as int));
    }
    proof {
        assert(reduction_of(order@, lt, k as int));
        assert(parts.len() == k);
        assert(strict_order(lt, parts.len() as int) && reduction_of(order@, lt, parts.len() as int));
        lemma_reduced(order@, lt, parts.len() as int);
    }
    Some((parts, order))
}

/// Group `i` comes before group `j`: their first members are ordered so.
fn before_group(groups: &Vec<Vec<usize>>, cats: &Vec<Vec<Cat>>, i: usize, j: usize, m: Ghost<int>) -> (r: bool)
    requires
        crate::partial_order::partition(groups@, m@),
        crate::partial_order::cat_square(cats@, m@),
        i < groups.len(),
        j < groups.len(),
    ensures
        r == (crate::partial_order::group_cat(cats@, groups@, i as int, j as int) == Cat::Lt),
{
    assert(groups@[i as int].len() > 0 && groups@[j as int].len() > 0);
    let a = groups[i][0];
    let b = groups[j][0];
    assert(a < m@ && b < m@);
    assert(cats@[a as int].len() == m@);
    cats[a][b] == Cat::Lt
}

/// Mine every sub-log of `parts`.
fn powl_parts(parts: &Vec<Vec<Weighted>>, names: &Vec<String>, ranks: &Vec<usize>, n: usize, noise: Ratio, depth: u128) -> (r: Vec<Powl>)
    requires
        parts_below(parts@, n as int),
        names.len() == n,
        ranks.len() == n,
        n < usize::MAX,
        noise.den > 0,
        depth > 0,
        distinct_names(names@),
    ensures
        r.len() == parts.len(),
        forall|p: int| 0 <= p < r.len() ==> #[trigger] powl_partitioned(r@[p]),
        forall|p: int| 0 <= p < r.len() ==> #[trigger] powl_labelled_from(r@[p], parts@[p]@, names@),
        forall|p: int| 0 <= p < r.len() && noise.num <= 0 && counted(parts@[p]@) ==> #[trigger] powl_covers(r@[p], parts@[p]@, names@),
        forall|p: int| 0 <= p < r.len() ==> #[trigger] powl_wide(r@[p]),
        forall|p: int| 0 <= p < r.len() ==> mined_powl(#[trigger] parts@[p]@, names@, ranks@, n as int, noise, (depth - 1) as nat, r@[p]),
    decreases depth, 0int,
{
    let mut children: Vec<Powl> = Vec::new();
    let mut p: usize = 0;
    while p < parts.len()
        invariant
            parts_below(parts@, n as int),
            names.len() == n,
            ranks.len() == n,
            n < usize::MAX,
            noise.den > 0,
            depth > 0,
            distinct_names(names@),
            p <= parts.len(),
            children.len() == p,
            forall|q: int| 0 <= q < p ==> #[trigger] powl_partitioned(children@[q]),
            forall|q: int| 0 <= q < p ==> #[trigger] powl_labelled_from(children@[q], parts@[q]@, names@),
            forall|q: int| 0 <= q < p && noise.num <= 0 && counted(parts@[q]@) ==> #[trigger] powl_covers(children@[q], parts@[q]@, names@),
            forall|q: int| 0 <= q < p ==> #[trigger] powl_wide(children@[q]),
            forall|q: int| 0 <= q < p ==> mined_powl(#[trigger] parts@[q]@, names@, ranks@, n as int, noise, (depth - 1) as nat, children@[q]),
        decreases parts.len() - p,
    {
        assert(ids_below(parts@[p as int]@, n as int));
        let model = mine_powl(&parts[p], names, ranks, n, noise, depth - 1);
        let ghost c0 = children@;
        children.push(model);
        proof {
            assert forall|q: int| 0 <= q < p + 1 implies #[trigger] powl_partitioned(children@[q]) by {
                if q < p {
                    assert(children@[q] == c0[q]);
                }
            }
            assert forall|q: int| 0 <= q < p + 1 implies #[trigger] powl_labelled_from(children@[q], parts@[q]@, names@) by {
                if q < p {
                    assert(children@[q] == c0[q]);
                }
            }
            assert forall|q: int| 0 <= q < p + 1 && noise.num <= 0 && counted(parts@[q]@) implies #[trigger] powl_covers(children@[q], parts@[q]@, names@) by {
                if q < p {
                    assert(children@[q] == c0[q]);
                }
            }
            assert forall|q: int| 0 <= q < p + 1 implies #[trigger] powl_wide(children@[q]) by {
                if q < p {
                    assert(children@[q] == c0[q]);
                }
            }
            assert forall|q: int| 0 <= q < p + 1 implies mined_powl(#[trigger] parts@[q]@, names@, ranks@, n as int, noise, (depth - 1) as nat, children@[q]) by {
                if q < p {
                    assert(children@[q] == c0[q]);
                }
            }
        }
        p = p + 1;
    }
    children
}

/// The model of an operator over `children` is partitioned and labelled
/// from `log` once its children are.
proof fn lemma_powl_op(r: Powl, cs: Seq<Powl>, log: Seq<Weighted>, names: Seq<String>)
    requires
        r matches Powl::Exclusive { children } && children@ == cs,
        powl_disjoint(cs),
        powl_all_partitioned(cs, cs.len() as int),
        forall|x: Seq<char>| #[trigger] powl_labels_in(cs, cs.len() as int, x) ==> from_log(log, names, x),
    ensures
        powl_partitioned(r),
        powl_labelled_from(r, log, names),
{
    assert forall|x: Seq<char>| #[trigger] powl_label(r, x) implies from_log(log, names, x) by {
        assert(powl_labels_in(cs, cs.len() as int, x));
    }
}

/// The children of the once-per-trace node: the chosen activity, then the
/// model of the rest (its children, when it is itself an unordered
/// partial-order node).
pub open spec fn powl_joined(names: Seq<String>, a: usize, inner: Powl) -> Seq<Powl> {
    seq![Powl::Activity { label: names[a as int] }] + match inner {
        Powl::PartialOrder { children, order } => if order.len() == 0 {
            children@
        } else {
            seq![inner]
        },
        _ => seq![inner],
    }
}

/// The model the POWL miner gives for `log` within recursion depth
/// `depth`, case by case in the order they are tried, as for the inductive
/// miner (`mined`): no non-empty trace gives the silent step; at depth zero,
/// or when the weighted steps do not fit in `usize`, the flower; empty
/// traces make the rest optional; a single activity is a leaf, or a loop of
/// it; then the exclusive cut; then the partial-order cut, over the groups
/// `po_groups` forms, when it leaves two or more groups, its order the
/// transitive reduction of a strict partial order; then the loop cut,
/// the once-per-trace fall-through and the flower. Each cut's sub-logs are
/// mined one level down.
pub open spec fn mined_powl(
    log: Seq<Weighted>,
    names: Seq<String>,
    ranks: Seq<usize>,
    n: int,
    noise: Ratio,
    depth: nat,
    t: Powl,
) -> bool
    decreases depth,
{
    if log.len() == 0 || nonempty_views(log, log.len() as int).len() == 0 {
        t == Powl::Tau
    } else if depth == 0 {
        exists|a: Seq<usize>| alphabet_of(log, n, a) && #[trigger] is_powl_flower(t, names, a)
    } else if exists|i: int| 0 <= i < log.len() && #[trigger] log[i].seq.len() == 0 {
        &&& t is Exclusive
        &&& t->Exclusive_children.len() == 2
        &&& t->Exclusive_children@[0] == Powl::Tau
        &&& exists|rest: Seq<Weighted>|
            #[trigger] without_empty(rest, log) && mined_powl(rest, names, ranks, n, noise, (depth - 1) as nat, t->Exclusive_children@[1])
    } else if weight(log, log.len() as int) > usize::MAX {
        exists|a: Seq<usize>| alphabet_of(log, n, a) && #[trigger] is_powl_flower(t, names, a)
    } else {
        exists|g: CutGraph|
            #[trigger] graph_of(log, n, noise, g) && {
                let k = g.alphabet.len() as int;
                let one = Powl::Activity { label: names[g.alphabet[0] as int] };
                if k == 1 {
                    if forall|i: int| 0 <= i < log.len() ==> #[trigger] log[i].seq.len() == 1 {
                        t == one
                    } else {
                        t is Loop && t->Loop_children@ == seq![one, Powl::Tau]
                    }
                } else if exists|e: Seq<Vec<bool>>| #[trigger] links_are(e, g, 0) && count_opens(e, k, k) >= 2 {
                    &&& t is Exclusive
                    &&& exists|parts: Seq<Vec<Weighted>>, e: Seq<Vec<bool>>|
                        #[trigger] cut_parts(parts, log, n) && parts.len() == count_opens(e, k, k) && #[trigger] links_are(e, g, 0) && routed_somehow(parts, log)
                            && t->Exclusive_children.len() == parts.len() && forall|p: int|
                            0 <= p < parts.len() ==> mined_powl(#[trigger] parts[p]@, names, ranks, n, noise, (depth - 1) as nat, t->Exclusive_children@[p])
                } else if t is PartialOrder && exists|parts: Seq<Vec<Weighted>>|
                    #[trigger] cut_parts(parts, log, n) && parts.len() >= 2 && spread_over(parts, log)
                        && (forall|x: int| 0 <= x < t->PartialOrder_order.len() ==> (#[trigger] t->PartialOrder_order@[x]).0 < parts.len() && t->PartialOrder_order@[x].1 < parts.len())
                        && reduced_order(t->PartialOrder_order@, parts.len() as int)
                        && t->PartialOrder_children.len() == parts.len() && forall|p: int|
                        0 <= p < parts.len() ==> mined_powl(#[trigger] parts[p]@, names, ranks, n, noise, (depth - 1) as nat, t->PartialOrder_children@[p]) {
                    true
                } else if exists|lm: Seq<Vec<bool>>| #[trigger] links_are(lm, g, 2) && loop_ok(lm, g) {
                    &&& t is Loop
                    &&& exists|parts: Seq<Vec<Weighted>>, lm: Seq<Vec<bool>>|
                        #[trigger] cut_parts(parts, log, n) && parts.len() == 1 + redo_count(lm, g, k) && #[trigger] links_are(lm, g, 2)
                            && t->Loop_children.len() == parts.len() && forall|p: int|
                            0 <= p < parts.len() ==> mined_powl(#[trigger] parts[p]@, names, ranks, n, noise, (depth - 1) as nat, t->Loop_children@[p])
                } else if exists|i: int| 0 <= i < k && #[trigger] once_upto(log, g.alphabet[i], log.len() as int) {
                    &&& t is PartialOrder
                    &&& t->PartialOrder_order.len() == 0
                    &&& exists|a: usize, rest: Seq<Weighted>, inner: Powl|
                        #[trigger] once_choice(log, g, ranks, n, a, rest) && mined_powl(rest, names, ranks, n, noise, (depth - 1) as nat, inner)
                            && t->PartialOrder_children@ == #[trigger] powl_joined(names, a, inner)
                } else {
                    is_powl_flower(t, names, g.alphabet@)
                }
            }
    }
}

/// Discover a POWL model for a sub-log over `n` named activities. The
/// recursion is bounded by `depth`; at zero, and for a sub-log whose
/// weighted steps would not fit in `usize`, the flower stands in.
fn mine_powl(log: &Vec<Weighted>, names: &Vec<String>, ranks: &Vec<usize>, n: usize, noise: Ratio, depth: u128) -> (r: Powl)
    requires
        ids_below(log@, n as int),
        names.len() == n,
        ranks.len() == n,
        n < usize::MAX,
        noise.den > 0,
        distinct_names(names@),
    ensures
        powl_partitioned(r),
        powl_labelled_from(r, log@, names@),
        log.len() == 0 ==> r == Powl::Tau,
        noise.num <= 0 && counted(log@) ==> powl_covers(r, log@, names@),
        powl_wide(r),
        mined_powl(log@, names@, ranks@, n as int, noise, depth as nat, r),
    decreases depth, 1int,
{
    if log.len() == 0 {
        return Powl::Tau;
    }
    let mut has_empty = false;
    let mut rest: Vec<Weighted> = Vec::new();
    let mut t: usize = 0;
    while t < log.len()
        invariant
            ids_below(log@, n as int),
            t <= log.len(),
            ids_below(rest@, n as int),
            within(rest@, log@),
            forall|t2: int| 0 <= t2 < rest.len() ==> #[trigger] rest@[t2].seq.len() > 0,
            !has_empty ==> rest.len() == t,
            forall|t2: int, j: int| 0 <= t2 < t && 0 <= j < log@[t2].seq.len() ==> #[trigger] occurs_in(rest@, log@[t2].seq@[j] as int),
            counted(log@) ==> counted(rest@),
            log_views(rest@) == nonempty_views(log@, t as int),
            has_empty == exists|t2: int| 0 <= t2 < t && #[trigger] log@[t2].seq.len() == 0,
        decreases log.len() - t,
    {
        if log[t].seq.len() == 0 {
            has_empty = true;
        } else {
            let ghost r0 = rest@;
            let w = log[t].clone_weighted();
            let ghost gw = w;
            rest.push(w);
            proof {
                assert(log_views(rest@) =~= log_views(r0).push((gw.seq@, gw.count)));
                assert forall|t2: int, j: int| 0 <= t2 < t + 1 && 0 <= j < log@[t2].seq.len() implies #[trigger] occurs_in(rest@, log@[t2].seq@[j] as int) by {
                    if t2 < t {
                        assert(occurs_in(r0, log@[t2].seq@[j] as int));
                        lemma_occurs_push(r0, gw, log@[t2].seq@[j] as int);
                        assert(rest@ == r0.push(gw));
                    } else {
                        assert(rest@[r0.len() as int].seq@[j] == log@[t2].seq@[j]);
                    }
                }
                if counted(log@) {
                    assert forall|t2: int| 0 <= t2 < rest.len() implies #[trigger] rest@[t2].count > 0 by {
                        if t2 < r0.len() {
                            assert(rest@[t2] == r0[t2]);
                        }
                    }
                }
                assert forall|t2: int, j: int| 0 <= t2 < rest.len() && 0 <= j < rest@[t2].seq.len() implies #[trigger] occurs_in(log@, rest@[t2].seq@[j] as int) by {
                    if t2 < r0.len() {
                        assert(rest@[t2] == r0[t2]);
                    } else {
                        assert(rest@[t2].seq@ == log@[t as int].seq@);
                        lemma_occurs_at(log@, t as int, j);
                    }
                }
                assert forall|t2: int| 0 <= t2 < rest.len() implies #[trigger] rest@[t2].seq.len() > 0 by {
                    if t2 < r0.len() {
                        assert(rest@[t2] == r0[t2]);
                    }
                }
                assert forall|t2: int, j: int| 0 <= t2 < rest.len() && 0 <= j < rest@[t2].seq.len() implies #[trigger] rest@[t2].seq@[j] < n by {
                    if t2 < r0.len() {
                        assert(rest@[t2] == r0[t2]);
                    } else {
                        assert(rest@[t2].seq@ == log@[t as int].seq@);
                    }
                }
            }
        }
        t = t + 1;
    }
    proof {
        assert forall|a: int| #[trigger] occurs_in(log@, a) implies occurs_in(rest@, a) by {
            let (t2, j) = choose|t2: int, j: int| 0 <= t2 < log.len() && 0 <= j < log@[t2].seq.len() && log@[t2].seq@[j] == a;
            assert(occurs_in(rest@, log@[t2].seq@[j] as int));
        }
        assert(without_empty(rest@, log@));
        assert(log_views(rest@).len() == rest.len());
    }
    if rest.len() == 0 {
        return Powl::Tau;
    }
    let flags = crate::cuts::occurring(log, n);
    let alphabet = crate::petri::flagged_ids(&flags);
    let ghost a0 = rest@[0].seq@[0] as int;
    proof {
        assert(rest@[0].seq.len() > 0);
        assert(occurs_in(log@, a0));
        assert(flags[a0]);
        assert(crate::petri::id_set(alphabet@).contains(a0));
        assert(alphabet.len() >= 1);
        assert forall|a: int| 0 <= a < names.len() && #[trigger] occurs_in(log@, a) implies alphabet@.contains(a as usize) by {
            assert(flags[a]);
            assert(crate::petri::id_set(alphabet@).contains(a));
            let k = choose|k: int| 0 <= k < alphabet.len() && #[trigger] alphabet@[k] as int == a;
            assert(alphabet@[k] == a as usize);
        }
        assert(alphabet_of(log@, n as int, alphabet@));
    }
    if depth == 0 {
        let r = powl_flower(names, &alphabet);
        proof {
            lemma_powl_flower(r, names@, alphabet@, log@);
            lemma_powl_flower_covers(r, names@, alphabet@, log@);
            lemma_powl_flower_wide(r, names@, alphabet@);
            assert(is_powl_flower(r, names@, alphabet@));
        }
        return r;
    }
    if has_empty {
        let inner = mine_powl(&rest, names, ranks, n, noise, depth - 1);
        proof {
            lemma_powl_labelled_within(inner, rest@, log@, names@);
        }
        let mut children: Vec<Powl> = Vec::new();
        children.push(Powl::Tau);
        children.push(inner);
        proof {
            lemma_powl_two(children@, log@, names@);
            lemma_powl_all_wide_from(children@, 2);
        }
        let r = Powl::Exclusive { children };
        proof {
            lemma_powl_op(r, r->Exclusive_children@, log@, names@);
            if noise.num <= 0 && counted(log@) {
                assert forall|a: int| 0 <= a < names.len() && #[trigger] occurs_in(log@, a) implies powl_label(r, names@[a]@) by {
                    assert(occurs_in(rest@, a));
                    assert(powl_label(inner, names@[a]@));
                    assert(powl_label(r->Exclusive_children@[1], names@[a]@));
                    lemma_powl_labels_in(r->Exclusive_children@, 2, names@[a]@);
                }
            }
        }
        proof {
            assert(without_empty(rest@, log@));
            assert(r->Exclusive_children@[1] == inner);
            assert(mined_powl(rest@, names@, ranks@, n as int, noise, (depth - 1) as nat, r->Exclusive_children@[1]));
        }
        return r;
    }
    proof {
        assert(!exists|i: int| 0 <= i < log.len() && #[trigger] log@[i].seq.len() == 0);
    }
    if !weight_fits(log) {
        let r = powl_flower(names, &alphabet);
        proof {
            lemma_powl_flower(r, names@, alphabet@, log@);
            lemma_powl_flower_covers(r, names@, alphabet@, log@);
            lemma_powl_flower_wide(r, names@, alphabet@);
            assert(is_powl_flower(r, names@, alphabet@));
        }
        return r;
    }
    let g = cut_graph(log, n, noise);
    if g.alphabet.len() == 1 {
        let a = g.alphabet[0];
        assert(occurs_in(log@, a as int));
        let mut single = true;
        let mut t: usize = 0;
        while t < log.len()
            invariant
                t <= log.len(),
                single == forall|t2: int| 0 <= t2 < t ==> #[trigger] log@[t2].seq.len() == 1,
            decreases log.len() - t,
        {
            if log[t].seq.len() != 1 {
                single = false;
            }
            t = t + 1;
        }
        let l = powl_leaf(names, a);
        proof {
            assert forall|x: Seq<char>| #[trigger] powl_label(l, x) implies from_log(log@, names@, x) by {
                assert(names@[a as int]@ == x);
            }
            assert forall|a2: int| 0 <= a2 < names.len() && #[trigger] occurs_in(log@, a2) implies powl_label(l, names@[a2]@) by {
                assert(g.alphabet@.contains(a2 as usize));
                let k = choose|k: int| 0 <= k < g.alphabet.len() && g.alphabet@[k] == a2 as usize;
                assert(k == 0);
            }
        }
        if single {
            proof {
                assert(graph_of(log@, n as int, noise, g));
                assert(mined_powl(log@, names@, ranks@, n as int, noise, depth as nat, l));
            }
            return l;
        }
        let mut children: Vec<Powl> = Vec::new();
        children.push(l);
        children.push(Powl::Tau);
        proof {
            lemma_powl_two(children@, log@, names@);
            lemma_powl_all_wide_from(children@, 2);
        }
        let r = Powl::Loop { children };
        proof {
            assert forall|x: Seq<char>| #[trigger] powl_label(r, x) implies from_log(log@, names@, x) by {
                assert(powl_labels_in(r->Loop_children@, r->Loop_children.len() as int, x));
            }
            assert forall|a2: int| 0 <= a2 < names.len() && #[trigger] occurs_in(log@, a2) implies powl_label(r, names@[a2]@) by {
                assert(powl_label(r->Loop_children@[0], names@[a2]@));
                lemma_powl_labels_in(r->Loop_children@, 2, names@[a2]@);
            }
        }
        proof {
            assert(graph_of(log@, n as int, noise, g));
            assert(r->Loop_children@ =~= seq![l, Powl::Tau]);
            assert(mined_powl(log@, names@, ranks@, n as int, noise, depth as nat, r));
        }
        return r;
    }
    let ghost gnoise = noise;
    let xr = exclusive_cut(log, &g, n, Ghost(gnoise));
    let ghost xg = xr;
    match xr {
        Some(parts) => {
            let children = powl_parts(&parts, names, ranks, n, noise, depth);
            proof {
                lemma_powl_from_parts(children@, parts@, log@, names@);
                lemma_powl_all_wide_from(children@, children.len() as int);
                if noise.num <= 0 && counted(log@) {
                    assert forall|p: int| 0 <= p < children.len() implies #[trigger] powl_covers(children@[p], parts@[p]@, names@) by {
                        assert(counted(parts@[p]@));
                    }
                    lemma_powl_covers_parts(children@, parts@, log@, names@);
                }
            }
            let r = Powl::Exclusive { children };
            proof {
                lemma_powl_op(r, r->Exclusive_children@, log@, names@);
                if noise.num <= 0 && counted(log@) {
                    assert forall|a: int| 0 <= a < names.len() && #[trigger] occurs_in(log@, a) implies powl_label(r, names@[a]@) by {
                        assert(powl_labels_in(r->Exclusive_children@, r->Exclusive_children.len() as int, names@[a]@));
                    }
                }
            }
            proof {
                let k = g.alphabet.len() as int;
                let e0 = choose|m: Seq<Vec<bool>>| links_are(m, g, 0) && (xg is Some) == (count_opens(m, k, k) >= 2) && (xg matches Some(ps) ==> ps.len() == count_opens(m, k, k));
                assert(links_are(e0, g, 0) && count_opens(e0, k, k) >= 2);
                assert(cut_parts(parts@, log@, n as int) && parts@.len() == count_opens(e0, k, k));
                assert(r->Exclusive_children@ == children@);
                assert(forall|p: int| 0 <= p < parts@.len() ==> mined_powl(#[trigger] parts@[p]@, names@, ranks@, n as int, noise, ((depth as nat) - 1) as nat, r->Exclusive_children@[p]));
                assert(graph_of(log@, n as int, noise, g));
                assert(mined_powl(log@, names@, ranks@, n as int, noise, depth as nat, r));
            }
            return r;
        },
        None => {},
    }
    proof {
        let k = g.alphabet.len() as int;
        let e0 = choose|m: Seq<Vec<bool>>| links_are(m, g, 0) && (xg is Some) == (count_opens(m, k, k) >= 2) && (xg matches Some(ps) ==> ps.len() == count_opens(m, k, k));
        lemma_no_exclusive(g, e0);
    }
    match po_cut(log, &g, n, noise) {
        Some((parts, order)) => {
            let children = powl_parts(&parts, names, ranks, n, noise, depth);
            proof {
                lemma_powl_from_parts(children@, parts@, log@, names@);
                lemma_powl_all_wide_from(children@, children.len() as int);
                if noise.num <= 0 && counted(log@) {
                    assert forall|p: int| 0 <= p < children.len() implies #[trigger] powl_covers(children@[p], parts@[p]@, names@) by {
                        assert(counted(parts@[p]@));
                    }
                    lemma_powl_covers_parts(children@, parts@, log@, names@);
                }
            }
            let r = Powl::PartialOrder { children, order };
            proof {
                assert forall|x: Seq<char>| #[trigger] powl_label(r, x) implies from_log(log@, names@, x) by {
                    assert(powl_labels_in(r->PartialOrder_children@, r->PartialOrder_children.len() as int, x));
                }
                if noise.num <= 0 && counted(log@) {
                    assert forall|a: int| 0 <= a < names.len() && #[trigger] occurs_in(log@, a) implies powl_label(r, names@[a]@) by {
                        assert(powl_labels_in(r->PartialOrder_children@, r->PartialOrder_children.len() as int, names@[a]@));
                    }
                }
            }
            proof {
                assert(cut_parts(parts@, log@, n as int));
                assert(r->PartialOrder_children@ == children@);
                assert(r->PartialOrder_order@ == order@);
                assert(forall|p: int| 0 <= p < parts@.len() ==> mined_powl(#[trigger] parts@[p]@, names@, ranks@, n as int, noise, ((depth as nat) - 1) as nat, r->PartialOrder_children@[p]));
                assert(graph_of(log@, n as int, noise, g));
                assert(mined_powl(log@, names@, ranks@, n as int, noise, depth as nat, r));
            }
            return r;
        },
        None => {},
    }
    let lr = loop_cut(log, &g, n, Ghost(gnoise));
    let ghost lg = lr;
    match lr {
        Some(parts) => {
            let children = powl_parts(&parts, names, ranks, n, noise, depth);
            proof {
                lemma_powl_from_parts(children@, parts@, log@, names@);
                lemma_powl_all_wide_from(children@, children.len() as int);
                if noise.num <= 0 && counted(log@) {
                    assert forall|p: int| 0 <= p < children.len() implies #[trigger] powl_covers(children@[p], parts@[p]@, names@) by {
                        assert(counted(parts@[p]@));
                    }
                    lemma_powl_covers_parts(children@, parts@, log@, names@);
                }
            }
            let r = Powl::Loop { children };
            proof {
                assert forall|x: Seq<char>| #[trigger] powl_label(r, x) implies from_log(log@, names@, x) by {
                    assert(powl_labels_in(r->Loop_children@, r->Loop_children.len() as int, x));
                }
                if noise.num <= 0 && counted(log@) {
                    assert forall|a: int| 0 <= a < names.len() && #[trigger] occurs_in(log@, a) implies powl_label(r, names@[a]@) by {
                        assert(powl_labels_in(r->Loop_children@, r->Loop_children.len() as int, names@[a]@));
                    }
                }
            }
            proof {
                let k = g.alphabet.len() as int;
                let lm0 = choose|lm: Seq<Vec<bool>>| links_are(lm, g, 2) && (lg is Some) == loop_ok(lm, g) && (lg matches Some(ps) ==> ps.len() == 1 + redo_count(lm, g, k));
                assert(links_are(lm0, g, 2) && loop_ok(lm0, g));
                assert(cut_parts(parts@, log@, n as int) && parts@.len() == 1 + redo_count(lm0, g, k));
                assert(r->Loop_children@ == children@);
                assert(forall|p: int| 0 <= p < parts@.len() ==> mined_powl(#[trigger] parts@[p]@, names@, ranks@, n as int, noise, ((depth as nat) - 1) as nat, r->Loop_children@[p]));
                assert(graph_of(log@, n as int, noise, g));
                assert(mined_powl(log@, names@, ranks@, n as int, noise, depth as nat, r));
            }
            return r;
        },
        None => {},
    }
    proof {
        let k = g.alphabet.len() as int;
        let lm0 = choose|lm: Seq<Vec<bool>>| links_are(lm, g, 2) && (lg is Some) == loop_ok(lm, g) && (lg matches Some(ps) ==> ps.len() == 1 + redo_count(lm, g, k));
        lemma_no_loop(g, lm0);
    }
    match once_per_trace(log, &g, n, ranks) {
        Some((chosen, rest)) => {
            let mut children: Vec<Powl> = Vec::new();
            children.push(powl_leaf(names, chosen));
            let ghost c0 = children@;
            let inner = mine_powl(&rest, names, ranks, n, noise, depth - 1);
            let ghost gi = inner;
            proof {
                if counted(log@) {
                    assert forall|t: int| 0 <= t < rest.len() implies #[trigger] rest@[t].count > 0 by {
                        assert(rest@[t].count == log@[t].count);
                    }
                }
                assert forall|a: int| #[trigger] occurs_in(log@, a) && a != chosen implies occurs_in(rest@, a) by {
                    let (t, j) = choose|t: int, j: int| 0 <= t < log.len() && 0 <= j < log@[t].seq.len() && log@[t].seq@[j] == a;
                    let s0 = log@[t].seq@;
                    assert(other_than(chosen)(s0[j]));
                    s0.filter_lemma(other_than(chosen));
                    assert(rest@[t].seq@ == s0.filter(other_than(chosen)));
                    assert(rest@[t].seq@.contains(s0[j]));
                    let z = choose|z: int| 0 <= z < rest@[t].seq@.len() && rest@[t].seq@[z] == s0[j];
                    assert(rest@[t].seq@[z] == a);
                }
            }
            match inner {
                Powl::PartialOrder { children: nested, order } => {
                    if order.len() == 0 {
                        let mut nested = nested;
                        let ghost ns = nested@;
                        proof {
                            lemma_powl_nested(gi, ns, rest@, names@);
                            assert forall|i: int| 0 <= i < ns.len() implies #[trigger] powl_wide(ns[i]) by {
                                lemma_powl_all_wide(ns, ns.len() as int, i);
                            }
                        }
                        children.append(&mut nested);
                        proof {
                            assert(children@ == c0 + ns);
                            lemma_powl_join(children@, chosen as int, ns, rest@, log@, names@);
                            if noise.num <= 0 && counted(log@) {
                                assert forall|x: Seq<char>| #[trigger] powl_label(gi, x) implies exists|i: int| 0 <= i < ns.len() && #[trigger] powl_label(ns[i], x) by {
                                    lemma_powl_labels_in(ns, ns.len() as int, x);
                                }
                                lemma_powl_join_covers(children@, chosen as int, gi, ns, rest@, log@, names@);
                            }
                        }
                    } else {
                        let other = Powl::PartialOrder { children: nested, order };
                        assert(other == gi);
                        children.push(other);
                        proof {
                            let single = seq![gi];
                            assert(children@ == c0 + single);
                            assert(gi->PartialOrder_order.len() != 0);
                            assert forall|i: int, x: Seq<char>| 0 <= i < single.len() && #[trigger] powl_label(single[i], x) implies from_log(rest@, names@, x) by {
                                assert(single[i] == gi);
                            }
                            lemma_powl_join(children@, chosen as int, single, rest@, log@, names@);
                            if noise.num <= 0 && counted(log@) {
                                assert forall|x: Seq<char>| #[trigger] powl_label(gi, x) implies exists|i: int| 0 <= i < single.len() && #[trigger] powl_label(single[i], x) by {
                                    assert(single[0] == gi);
                                }
                                lemma_powl_join_covers(children@, chosen as int, gi, single, rest@, log@, names@);
                            }
                        }
                    }
                },
                other => {
                    children.push(other);
                    proof {
                        let single = seq![other];
                        assert(children@ == c0 + single);
                        assert(other == gi);
                        assert(!(gi is PartialOrder));
                        assert forall|i: int, x: Seq<char>| 0 <= i < single.len() && #[trigger] powl_label(single[i], x) implies from_log(rest@, names@, x) by {
                            assert(single[i] == other);
                        }
                        lemma_powl_join(children@, chosen as int, single, rest@, log@, names@);
                        if noise.num <= 0 && counted(log@) {
                            assert forall|x: Seq<char>| #[trigger] powl_label(gi, x) implies exists|i: int| 0 <= i < single.len() && #[trigger] powl_label(single[i], x) by {
                                assert(single[0] == gi);
                            }
                            lemma_powl_join_covers(children@, chosen as int, gi, single, rest@, log@, names@);
                        }
                    }
                },
            }
            proof {
                assert forall|i: int| 0 <= i < children.len() implies #[trigger] powl_wide(children@[i]) by {
                    if i > 0 {
                        assert(children@[i] == (children@.subrange(1, children.len() as int))[i - 1]);
                    }
                }
                lemma_powl_all_wide_from(children@, children.len() as int);
            }
            let r = Powl::PartialOrder { children, order: Vec::new() };
            proof {
                assert forall|x: Seq<char>| #[trigger] powl_label(r, x) implies from_log(log@, names@, x) by {
                    assert(powl_labels_in(r->PartialOrder_children@, r->PartialOrder_children.len() as int, x));
                }
                if noise.num <= 0 && counted(log@) {
                    assert forall|a: int| 0 <= a < names.len() && #[trigger] occurs_in(log@, a) implies powl_label(r, names@[a]@) by {
                        assert(powl_labels_in(r->PartialOrder_children@, r->PartialOrder_children.len() as int, names@[a]@));
                    }
                }
            }
            proof {
                assert(once_choice(log@, g, ranks@, n as int, chosen, rest@));
                assert(mined_powl(rest@, names@, ranks@, n as int, noise, (depth - 1) as nat, gi));
                assert(r->PartialOrder_children@ == powl_joined(names@, chosen, gi));
                assert(graph_of(log@, n as int, noise, g));
                assert(mined_powl(log@, names@, ranks@, n as int, noise, depth as nat, r));
            }
            return r;
        },
        None => {},
    }
    let r = powl_flower(names, &g.alphabet);
    proof {
        assert(is_powl_flower(r, names@, g.alphabet@));
        assert(graph_of(log@, n as int, noise, g));
        assert(g.alphabet@.contains(a0 as usize));
        lemma_powl_flower(r, names@, g.alphabet@, log@);
        assert forall|a: int| 0 <= a < names.len() && #[trigger] occurs_in(log@, a) implies g.alphabet@.contains(a as usize) by {
        }
        lemma_powl_flower_covers(r, names@, g.alphabet@, log@);
        lemma_powl_flower_wide(r, names@, g.alphabet@);
        assert(mined_powl(log@, names@, ranks@, n as int, noise, depth as nat, r));
    }
    r
}

/// Discover a POWL model for `object_type`.
///
/// The noise threshold works as in the inductive miner: zero is the exact
/// miner, a positive one ignores infrequent directly-follows edges, starts
/// and ends. Objects without events are ignored.
pub fn powl(log: &EventLog, object_type: &str, noise: Ratio) -> (model: Powl)
    requires
        log.wf(),
        log.events.len() < usize::MAX,
        noise.den > 0,
    ensures
        powl_partitioned(model),
        forall|x: Seq<char>| #[trigger] powl_label(model, x) ==> carried_by_target(*log, object_type@, x),
        (forall|e: int| 0 <= e < log.events.len() ==> !#[trigger] log.is_target(e, object_type@)) ==> model == Powl::Tau,
        noise.num <= 0 ==> forall|e: int| 0 <= e < log.events.len() && #[trigger] log.is_target(e, object_type@) ==> powl_label(model, crate::trace::act(*log, e)),
        powl_wide(model),
        exists|t: crate::trace::Traces, v: Seq<Weighted>, ranks: Seq<usize>|
            #[trigger] t.describes(*log, object_type@) && #[trigger] log_views(v) == trace_views(t, t.steps.len() as int) && #[trigger] crate::text::ranks_of(
                t.activity_names@,
                ranks,
            ) && mined_powl(v, t.activity_names@, ranks, t.activity_names.len() as int, noise, (2 * t.activity_names.len() + 2) as nat, model),
{
    let t = build(log, object_type);
    let n = t.activity_names.len();
    proof {
        lemma_names_within_events(*log, object_type@, t.activity_names@);
    }
    let ranks = name_ranks(&t.activity_names);
    let ghost quiet = forall|e: int| 0 <= e < log.events.len() ==> !#[trigger] log.is_target(e, object_type@);
    let mut variants: Vec<Weighted> = Vec::new();
    let mut s: usize = 0;
    while s < t.steps.len()
        invariant
            t.describes(*log, object_type@),
            n == t.activity_names.len(),
            s <= t.steps.len(),
            ids_below(variants@, n as int),
            quiet == (forall|e: int| 0 <= e < log.events.len() ==> !#[trigger] log.is_target(e, object_type@)),
            quiet ==> variants.len() == 0,
            counted(variants@),
            log_views(variants@) == trace_views(t, s as int),
            forall|s2: int, k2: int| 0 <= s2 < s && 0 <= k2 < t.steps[s2].len() ==> #[trigger] occurs_in(variants@, t.steps[s2][k2].activity as int),
        decreases t.steps.len() - s,
    {
        if t.steps[s].len() > 0 {
            proof {
                if quiet {
                    assert(t.step_ok(*log, s as int, 0));
                    let e = t.steps[s as int][0].event as int;
                    let o = t.object_ids[s as int] as int;
                    assert(log.related(e, o));
                    let k = choose|k: int| 0 <= k < log.events[e].objects.len() && #[trigger] log.events[e].objects[k] == o;
                    crate::log::lemma_members_bound(*log, object_type@, log.objects.len() as int);
                    assert(log.is_member(o, object_type@));
                    assert(log.is_target(e, object_type@));
                }
            }
            let mut seq: Vec<usize> = Vec::new();
            let mut k: usize = 0;
            while k < t.steps[s].len()
                invariant
                    t.describes(*log, object_type@),
                    n == t.activity_names.len(),
                    s < t.steps.len(),
                    k <= t.steps[s as int].len(),
                    forall|j: int| 0 <= j < seq.len() ==> #[trigger] seq[j] < n,
                    seq.len() == k,
                    forall|j: int| 0 <= j < k ==> #[trigger] seq@[j] == t.steps[s as int][j].activity,
                    log_views(variants@) == trace_views(t, s as int),
                decreases t.steps[s as int].len() - k,
            {
                assert(t.step_ok(*log, s as int, k as int));
                seq.push(t.steps[s][k].activity);
                k = k + 1;
            }
            let ghost v0 = variants@;
            proof {
                assert(seq@ =~= crate::variants::step_ids(t.steps[s as int]@));
            }
            let w = Weighted { seq, count: 1 };
            let ghost gw = w;
            variants.push(w);
            proof {
                assert(log_views(variants@) =~= log_views(v0).push((gw.seq@, gw.count)));
                assert forall|s2: int, k2: int| 0 <= s2 < s + 1 && 0 <= k2 < t.steps[s2].len() implies #[trigger] occurs_in(variants@, t.steps[s2][k2].activity as int) by {
                    if s2 < s {
                        lemma_occurs_push(v0, gw, t.steps[s2][k2].activity as int);
                        assert(variants@ == v0.push(gw));
                    } else {
                        assert(variants@[v0.len() as int].seq@[k2] == t.steps[s2][k2].activity);
                    }
                }
                assert forall|t2: int| 0 <= t2 < variants.len() implies #[trigger] variants@[t2].count > 0 by {
                    if t2 < v0.len() {
                        assert(variants@[t2] == v0[t2]);
                    }
                }
                assert forall|t2: int, j: int| 0 <= t2 < variants.len() && 0 <= j < variants@[t2].seq.len() implies #[trigger] variants@[t2].seq@[j] < n by {
                    if t2 < v0.len() {
                        assert(variants@[t2] == v0[t2]);
                    }
                }
            }
        }
        s = s + 1;
    }
    proof {
        assert forall|s2: int, k2: int| 0 <= s2 < s && 0 <= k2 < t.steps[s2].len() implies #[trigger] occurs_in(variants@, t.steps[s2][k2].activity as int) by {
        }
    }
    let depth: u128 = 2 * (n as u128) + 2;
    let model = mine_powl(&variants, &t.activity_names, &ranks, n, noise, depth);
    proof {
        assert(crate::text::ranks_of(t.activity_names@, ranks@));
        assert(t.describes(*log, object_type@));
        assert(log_views(variants@) == trace_views(t, t.steps.len() as int));
        assert forall|x: Seq<char>| #[trigger] powl_label(model, x) implies carried_by_target(*log, object_type@, x) by {
            let a = choose|a: int| 0 <= a < n && occurs_in(variants@, a) && #[trigger] t.activity_names@[a]@ == x;
            assert(carried_by_target(*log, object_type@, t.activity_names@[a]@));
        }
        if noise.num <= 0 {
            assert forall|e: int| 0 <= e < log.events.len() && #[trigger] log.is_target(e, object_type@) implies powl_label(model, crate::trace::act(*log, e)) by {
                let kk = choose|kk: int| 0 <= kk < log.events[e].objects.len() && log.is_member(#[trigger] log.events[e].objects[kk] as int, object_type@);
                let o = log.events[e].objects[kk] as int;
                assert(o < log.objects.len());
                crate::log::lemma_members_complete(*log, object_type@, log.objects.len() as int, o);
                let s2 = choose|s2: int| 0 <= s2 < t.object_ids.len() && t.object_ids@[s2] == o as usize;
                assert(log.related(e, t.object_ids[s2] as int));
                let k2 = choose|k2: int| 0 <= k2 < t.steps[s2].len() && t.steps[s2][k2].event == e;
                assert(t.step_ok(*log, s2, k2));
                let a = t.steps[s2][k2].activity as int;
                assert(occurs_in(variants@, a));
                assert(t.activity_names@[a]@ == crate::trace::act(*log, e));
            }
        }
    }
    model
}

} // verus!
