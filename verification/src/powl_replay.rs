//! Exact replay and precision for POWL models.
//!
//! Same foundations as the process-tree replay: cuts partition the
//! alphabet, so each symbol routes to exactly one child. A partial-order
//! node accepts a word iff every child accepts its projection (children
//! without events must accept the empty word) and every ordered pair is
//! fully sequential: the earlier child's last event before the later
//! child's first.
use vstd::prelude::*;
use crate::closure::{closure, lemma_path_congruent, matrix_edge, path_below, square};
use crate::log::EventLog;
use crate::model::{Compiled, Kind, Nodes, complete};
use crate::powl::{
    Powl, lemma_powl_all_partitioned, lemma_powl_labels_in, powl_all_partitioned, powl_disjoint, powl_label,
    powl_labels_in, powl_partitioned, powl_size, powl_sizes,
};
use crate::replay::{
    ReplayReport, copy_names, distinct, extends, lemma_extends_trans, lemma_push_wf, prefix_of, replay_model,
    replay_ok, word_accepted,
};
use crate::text::{name_seq, texts};
use crate::trace::{Traces, build, intern};
use crate::variants::{collect_variants, groups_inv, lemma_slot_acts};

verus! {

/// The ordered pairs of a partial order, as a relation.
pub open spec fn order_edge(order: Seq<(usize, usize)>) -> spec_fn(int, int) -> bool {
    |i: int, j: int| exists|k: int| 0 <= k < order.len() && #[trigger] order[k] == (i as usize, j as usize)
}

/// The transitive closure of `order` over `n` children.
fn order_closure(order: &Vec<(usize, usize)>, n: usize) -> (before: Vec<Vec<bool>>)
    requires
        forall|k: int| 0 <= k < order.len() ==> (#[trigger] order@[k]).0 < n && order@[k].1 < n,
    ensures
        square(before@, n as int),
        forall|i: int, j: int|
            0 <= i < n && 0 <= j < n ==> #[trigger] before[i]@[j] == path_below(order_edge(order@), i, j, n as int),
{
    let mut base: Vec<Vec<bool>> = Vec::new();
    for i in 0..n
        invariant
            base.len() == i,
            forall|i2: int| 0 <= i2 < i ==> #[trigger] base[i2].len() == n,
            forall|i2: int, j: int| 0 <= i2 < i && 0 <= j < n ==> !#[trigger] base[i2]@[j],
    {
        let mut row: Vec<bool> = Vec::new();
        for j in 0..n
            invariant
                row.len() == j,
                forall|j2: int| 0 <= j2 < j ==> !#[trigger] row[j2],
        {
            row.push(false);
        }
        base.push(row);
    }
    for k in 0..order.len()
        invariant
            forall|k2: int| 0 <= k2 < order.len() ==> (#[trigger] order@[k2]).0 < n && order@[k2].1 < n,
            square(base@, n as int),
            forall|i: int, j: int|
                0 <= i < n && 0 <= j < n ==> #[trigger] base[i]@[j] == exists|k2: int|
                    0 <= k2 < k && #[trigger] order@[k2] == (i as usize, j as usize),
    {
        let (a, b) = order[k];
        let ghost base0 = base@;
        let mut row: Vec<bool> = Vec::new();
        std::mem::swap(&mut row, &mut base[a]);
        assert(row@ == base0[a as int]@);
        assert(base0[a as int].len() == n);
        row.set(b, true);
        let ghost newrow = row@;
        base.set(a, row);
        proof {
            assert(newrow == base0[a as int]@.update(b as int, true));
            assert(base[a as int]@ == newrow);
            assert forall|i: int| 0 <= i < n implies #[trigger] base[i].len() == n by {
                if i != a {
                    assert(base[i] == base0[i]);
                }
            }
            assert forall|i: int, j: int|
                0 <= i < n && 0 <= j < n implies #[trigger] base[i]@[j] == exists|k2: int|
                    0 <= k2 < k + 1 && #[trigger] order@[k2] == (i as usize, j as usize) by {
                if i != a || j != b {
                    if i != a {
                        assert(base[i] == base0[i]);
                    } else {
                        assert(base[i]@ == base0[i]@.update(b as int, true));
                    }
                    assert(base[i]@[j] == base0[i]@[j]);
                    if exists|k2: int| 0 <= k2 < k + 1 && #[trigger] order@[k2] == (i as usize, j as usize) {
                        let k2 = choose|k2: int| 0 <= k2 < k + 1 && #[trigger] order@[k2] == (i as usize, j as usize);
                        assert(k2 != k);
                    }
                } else {
                    assert(order@[k as int] == (i as usize, j as usize));
                }
            }
        }
    }
    let before = closure(&base, n);
    proof {
        assert forall|i: int, j: int| 0 <= i < n && 0 <= j < n implies #[trigger] before[i]@[j] == path_below(order_edge(order@), i, j, n as int) by {
            assert forall|a: int, b: int| 0 <= a < n && 0 <= b < n implies #[trigger] matrix_edge(base@)(a, b) == order_edge(order@)(a, b) by {
                assert(base[a]@[b] == exists|k2: int| 0 <= k2 < order.len() && #[trigger] order@[k2] == (a as usize, b as usize));
            }
            lemma_path_congruent(matrix_edge(base@), order_edge(order@), n as int, i, j, n as int);
        }
    }
    before
}

/// Node `x` routes symbol `s` (named `labels[s]`) to the child whose leaves
/// carry that label, and every label of the children has a symbol.
pub open spec fn owner_ok_powl(nodes: Nodes, x: int, children: Seq<Powl>, labels: Seq<Seq<char>>) -> bool {
    let row = nodes.owner[x];
    &&& row.len() <= labels.len()
    &&& forall|s: int, i: int|
        0 <= s < row.len() && 0 <= i < children.len() ==> ((row[s] == Some(i as usize)) == #[trigger] powl_label(
            children[i],
            labels[s],
        ))
    &&& forall|s: int| 0 <= s < row.len() ==> (#[trigger] row[s] matches Some(i) ==> i < children.len())
    &&& forall|i: int, l: Seq<char>|
        0 <= i < children.len() && #[trigger] powl_label(children[i], l) ==> exists|s: int|
            0 <= s < row.len() && #[trigger] labels[s] == l
}

/// Node `x` of `nodes` is the compiled form of `t`, symbol `s` standing for
/// activity `labels[s]`. A sequence is the total partial order, a parallel
/// node the empty one.
pub open spec fn represents_powl(nodes: Nodes, x: int, t: Powl, labels: Seq<Seq<char>>) -> bool
    decreases t, 0int,
{
    &&& 0 <= x < nodes.kinds.len()
    &&& x < nodes.owner.len()
    &&& match t {
        Powl::Activity { label } => nodes.kinds[x] matches Kind::Activity(a) && a < labels.len() && labels[a as int]
            == label@ && nodes.owner[x].len() == 0,
        Powl::Tau => nodes.kinds[x] is Tau && nodes.owner[x].len() == 0,
        Powl::PartialOrder { children, order } => nodes.kinds[x] matches Kind::Po(ch, before) && ch.len()
            == children.len() && (forall|i: int, j: int|
            0 <= i < ch.len() && 0 <= j < ch.len() ==> #[trigger] before@[i]@[j] == path_below(
                order_edge(order@),
                i,
                j,
                ch.len() as int,
            )) && represent_all_powl(nodes, ch@, children@, labels, children.len() as int) && owner_ok_powl(
            nodes,
            x,
            children@,
            labels,
        ),
        Powl::Exclusive { children } => nodes.kinds[x] matches Kind::Exclusive(ch) && ch.len() == children.len()
            && represent_all_powl(nodes, ch@, children@, labels, children.len() as int) && owner_ok_powl(
            nodes,
            x,
            children@,
            labels,
        ),
        Powl::Loop { children } => nodes.kinds[x] matches Kind::Loop(ch) && ch.len() == children.len()
            && represent_all_powl(nodes, ch@, children@, labels, children.len() as int) && owner_ok_powl(
            nodes,
            x,
            children@,
            labels,
        ),
    }
}

/// Nodes `ch[i]` represent trees `cs[i]` for `i < k`.
pub open spec fn represent_all_powl(nodes: Nodes, ch: Seq<usize>, cs: Seq<Powl>, labels: Seq<Seq<char>>, k: int) -> bool
    decreases cs, k,
{
    if !(0 <= k <= cs.len() && k <= ch.len()) {
        false
    } else if k == 0 {
        true
    } else {
        represent_all_powl(nodes, ch, cs, labels, k - 1) && represents_powl(nodes, ch[k - 1] as int, cs[k - 1], labels)
    }
}

pub proof fn lemma_represent_all_powl(nodes: Nodes, ch: Seq<usize>, cs: Seq<Powl>, labels: Seq<Seq<char>>, k: int, i: int)
    requires
        represent_all_powl(nodes, ch, cs, labels, k),
        0 <= i < k,
    ensures
        represents_powl(nodes, ch[i] as int, cs[i], labels),
    decreases k,
{
    if i < k - 1 {
        lemma_represent_all_powl(nodes, ch, cs, labels, k - 1, i);
    }
}

/// Extending the nodes and the names keeps the routing of a node.
proof fn lemma_owner_extend_powl(nodes0: Nodes, nodes: Nodes, x: int, children: Seq<Powl>, labels0: Seq<Seq<char>>, labels: Seq<Seq<char>>)
    requires
        0 <= x < nodes0.owner.len(),
        extends(nodes0, nodes),
        prefix_of(labels0, labels),
        owner_ok_powl(nodes0, x, children, labels0),
    ensures
        owner_ok_powl(nodes, x, children, labels),
{
    assert(nodes.owner[x] == nodes0.owner[x]);
    let row = nodes.owner[x];
    assert forall|i: int, l: Seq<char>| 0 <= i < children.len() && #[trigger] powl_label(children[i], l) implies exists|s: int|
        0 <= s < row.len() && #[trigger] labels[s] == l by {
        let s = choose|s: int| 0 <= s < row.len() && #[trigger] labels0[s] == l;
        assert(labels[s] == labels0[s]);
    }
    assert forall|s: int, i: int|
        0 <= s < row.len() && 0 <= i < children.len() implies ((row[s] == Some(i as usize)) == #[trigger] powl_label(
            children[i],
            labels[s],
        )) by {
        assert(labels[s] == labels0[s]);
    }
}

/// Extending the nodes and the names keeps what they represent.
pub proof fn lemma_represents_extend_powl(
    nodes0: Nodes,
    nodes: Nodes,
    x: int,
    t: Powl,
    labels0: Seq<Seq<char>>,
    labels: Seq<Seq<char>>,
)
    requires
        represents_powl(nodes0, x, t, labels0),
        extends(nodes0, nodes),
        prefix_of(labels0, labels),
    ensures
        represents_powl(nodes, x, t, labels),
    decreases t, 0int,
{
    assert(nodes.kinds[x] == nodes0.kinds[x]);
    assert(nodes.owner[x] == nodes0.owner[x]);
    let ch = nodes0.children(x);
    match t {
        Powl::Activity { label } => {
            if let Kind::Activity(a) = nodes0.kinds[x] {
                assert(labels[a as int] == labels0[a as int]);
            }
        },
        Powl::Tau => {},
        Powl::PartialOrder { children, .. } => {
            lemma_owner_extend_powl(nodes0, nodes, x, children@, labels0, labels);
            lemma_represent_all_extend_powl(nodes0, nodes, ch, children@, labels0, labels, children.len() as int);
        },
        Powl::Exclusive { children } => {
            lemma_owner_extend_powl(nodes0, nodes, x, children@, labels0, labels);
            lemma_represent_all_extend_powl(nodes0, nodes, ch, children@, labels0, labels, children.len() as int);
        },
        Powl::Loop { children } => {
            lemma_owner_extend_powl(nodes0, nodes, x, children@, labels0, labels);
            lemma_represent_all_extend_powl(nodes0, nodes, ch, children@, labels0, labels, children.len() as int);
        },
    }
}

proof fn lemma_represent_all_extend_powl(
    nodes0: Nodes,
    nodes: Nodes,
    ch: Seq<usize>,
    cs: Seq<Powl>,
    labels0: Seq<Seq<char>>,
    labels: Seq<Seq<char>>,
    k: int,
)
    requires
        represent_all_powl(nodes0, ch, cs, labels0, k),
        extends(nodes0, nodes),
        prefix_of(labels0, labels),
    ensures
        represent_all_powl(nodes, ch, cs, labels, k),
    decreases cs, k,
{
    if k > 0 {
        lemma_represent_all_extend_powl(nodes0, nodes, ch, cs, labels0, labels, k - 1);
        lemma_represents_extend_powl(nodes0, nodes, ch[k - 1] as int, cs[k - 1], labels0, labels);
    }
}

/// `alph` lists symbols of exactly the labels of `t`.
pub open spec fn powl_alphabet_of(alph: Seq<usize>, t: Powl, labels: Seq<Seq<char>>) -> bool {
    &&& forall|k: int| 0 <= k < alph.len() ==> #[trigger] alph[k] < labels.len() && powl_label(t, labels[alph[k] as int])
    &&& forall|l: Seq<char>| #[trigger] powl_label(t, l) ==> exists|k: int| 0 <= k < alph.len() && labels[alph[k] as int] == l
}

/// The routing row of a node over `children`: symbol `s` goes to the child
/// carrying label `labels[s]`, and every label of the children has a
/// symbol in the row.
pub open spec fn row_ok_powl(row: Seq<Option<usize>>, children: Seq<Powl>, k: int, labels: Seq<Seq<char>>) -> bool {
    &&& row.len() <= labels.len()
    &&& forall|s: int, i: int|
        0 <= s < row.len() && 0 <= i < k ==> ((row[s] == Some(i as usize)) == #[trigger] powl_label(
            children[i],
            labels[s],
        ))
    &&& forall|s: int| 0 <= s < row.len() ==> (#[trigger] row[s] matches Some(i) ==> i < k)
    &&& forall|i: int, l: Seq<char>|
        0 <= i < k && #[trigger] powl_label(children[i], l) ==> exists|s: int| 0 <= s < row.len() && #[trigger] labels[s] == l
}

/// Compile the children of one operator, in order; returns their nodes,
/// the union of their alphabets and the routing row.
fn compile_children(children: &Vec<Powl>, names: &mut Vec<String>, out: &mut Nodes) -> (r: (Vec<usize>, Vec<usize>, Vec<Option<usize>>))
    requires
        powl_disjoint(children@),
        powl_all_partitioned(children@, children.len() as int),
        old(out).wf(),
        distinct(texts(old(names)@)),
    ensures
        final(out).wf(),
        extends(*old(out), *final(out)),
        prefix_of(texts(old(names)@), texts(final(names)@)),
        distinct(texts(final(names)@)),
        r.0.len() == children.len(),
        forall|i: int| 0 <= i < children.len() ==> old(out).kinds.len() <= #[trigger] r.0[i] < final(out).kinds.len(),
        final(out).kinds.len() == old(out).kinds.len() + powl_sizes(children@, children.len() as int),
        forall|i: int| 0 <= i < children.len() ==> #[trigger] r.0[i] == old(out).kinds.len() + powl_sizes(children@, i + 1) - 1,
        represent_all_powl(*final(out), r.0@, children@, texts(final(names)@), children.len() as int),
        row_ok_powl(r.2@, children@, children.len() as int, texts(final(names)@)),
        forall|k: int| 0 <= k < r.1.len() ==> #[trigger] r.1[k] < r.2.len() && r.2[r.1[k] as int] is Some,
        forall|s: int| 0 <= s < r.2.len() && #[trigger] r.2[s] is Some ==> r.1@.contains(s as usize),
    decreases children, 1int,
{
    let n = children.len();
    let ghost out0 = *out;
    let ghost names0 = names@;
    let mut ids: Vec<usize> = Vec::new();
    let mut alphabet: Vec<usize> = Vec::new();
    let mut row: Vec<Option<usize>> = Vec::new();
    let mut i: usize = 0;
    while i < n
        invariant
            n == children.len(),
            powl_disjoint(children@),
            powl_all_partitioned(children@, children.len() as int),
            0 <= i <= n,
            out.wf(),
            extends(out0, *out),
            prefix_of(texts(names0), texts(names@)),
            distinct(texts(names@)),
            ids.len() == i,
            forall|j: int| 0 <= j < i ==> out0.kinds.len() <= #[trigger] ids[j] < out.kinds.len(),
            out.kinds.len() == out0.kinds.len() + powl_sizes(children@, i as int),
            forall|j: int| 0 <= j < i ==> #[trigger] ids[j] == out0.kinds.len() + powl_sizes(children@, j + 1) - 1,
            represent_all_powl(*out, ids@, children@, texts(names@), i as int),
            row_ok_powl(row@, children@, i as int, texts(names@)),
            forall|k: int| 0 <= k < alphabet.len() ==> #[trigger] alphabet[k] < row.len() && row[alphabet[k] as int] is Some,
            forall|s: int| 0 <= s < row.len() && #[trigger] row[s] is Some ==> alphabet@.contains(s as usize),
        decreases n - i,
    {
        proof {
            assert(decreases_to!(*children => children@));
            assert(decreases_to!(children@ => children@[i as int]));
            lemma_powl_all_partitioned(children@, n as int, i as int);
        }
        let ghost out1 = *out;
        let ghost names1 = names@;
        let (id, sub) = compile(&children[i], names, out);
        let ghost labels = texts(names@);
        proof {
            lemma_represent_all_extend_powl(out1, *out, ids@, children@, texts(names1), labels, i as int);
            assert(prefix_of(texts(names0), labels));
            assert forall|s: int, j: int| 0 <= s < row.len() && 0 <= j < i implies ((row[s] == Some(j as usize)) == #[trigger] powl_label(
                children@[j],
                labels[s],
            )) by {
                assert(labels[s] == texts(names1)[s]);
            }
            assert forall|j: int, l: Seq<char>| 0 <= j < i && #[trigger] powl_label(children@[j], l) implies exists|s: int|
                0 <= s < row.len() && #[trigger] labels[s] == l by {
                let s = choose|s: int| 0 <= s < row.len() && #[trigger] texts(names1)[s] == l;
                assert(labels[s] == texts(names1)[s]);
            }
        }
        let ghost ids0 = ids@;
        ids.push(id);
        proof {
            assert(ids@.drop_last() =~= ids0);
            lemma_represent_all_push_powl(*out, ids@, children@, labels, i as int);
        }
        let mut k: usize = 0;
        while k < sub.len()
            invariant
                n == children.len(),
                powl_disjoint(children@),
                i < n,
                labels == texts(names@),
                distinct(labels),
                powl_alphabet_of(sub@, children@[i as int], labels),
                row.len() <= labels.len(),
                forall|s: int, j: int|
                    0 <= s < row.len() && 0 <= j < i ==> ((row[s] == Some(j as usize)) == #[trigger] powl_label(
                        children@[j],
                        labels[s],
                    )),
                forall|s: int| 0 <= s < row.len() ==> (#[trigger] row[s] matches Some(j) ==> j <= i),
                forall|s: int| 0 <= s < row.len() && #[trigger] row[s] == Some(i) ==> powl_label(children@[i as int], labels[s]),
                forall|k2: int| 0 <= k2 < k ==> #[trigger] sub[k2] < row.len() && row[sub[k2] as int] == Some(i),
                forall|j: int, l: Seq<char>|
                    0 <= j < i && #[trigger] powl_label(children@[j], l) ==> exists|s: int| 0 <= s < row.len() && #[trigger] labels[s] == l,
                forall|k2: int| 0 <= k2 < alphabet.len() ==> #[trigger] alphabet[k2] < row.len() && row[alphabet[k2] as int] is Some,
                forall|s: int| 0 <= s < row.len() && #[trigger] row[s] is Some ==> alphabet@.contains(s as usize),
            decreases sub.len() - k,
        {
            let symbol = sub[k];
            let ghost row0 = row@;
            let ghost alpha0 = alphabet@;
            while row.len() <= symbol
                invariant
                    row0.len() <= row.len(),
                    row.len() > row0.len() ==> row.len() <= symbol + 1,
                    symbol < labels.len(),
                    forall|s: int| 0 <= s < row0.len() ==> #[trigger] row[s] == row0[s],
                    forall|s: int| row0.len() <= s < row.len() ==> #[trigger] row[s] is None,
                decreases symbol + 1 - row.len(),
            {
                row.push(None);
            }
            proof {
                assert forall|s: int, j: int| row0.len() <= s < row.len() && 0 <= j < i implies !#[trigger] powl_label(children@[j], labels[s]) by {
                    if powl_label(children@[j], labels[s]) {
                        let s2 = choose|s2: int| 0 <= s2 < row0.len() && #[trigger] labels[s2] == labels[s];
                    }
                }
                assert(powl_label(children@[i as int], labels[symbol as int]));
                assert forall|j: int| 0 <= j < i implies !#[trigger] powl_label(children@[j], labels[symbol as int]) by {
                    if j < i {
                        assert(!powl_label(children@[i as int], labels[symbol as int]) || !powl_label(children@[j], labels[symbol as int]));
                    }
                }
            }
            row.set(symbol, Some(i));
            alphabet.push(symbol);
            proof {
                assert forall|s: int, j: int|
                    0 <= s < row.len() && 0 <= j < i implies ((row[s] == Some(j as usize)) == #[trigger] powl_label(
                        children@[j],
                        labels[s],
                    )) by {
                    if s < row0.len() && s != symbol {
                        assert(row[s] == row0[s]);
                    }
                }
                assert forall|k2: int| 0 <= k2 < alphabet.len() implies #[trigger] alphabet[k2] < row.len() && row[alphabet[k2] as int] is Some by {
                    if k2 < alpha0.len() {
                        assert(alphabet[k2] == alpha0[k2]);
                    }
                }
                assert forall|s: int| 0 <= s < row.len() && #[trigger] row[s] is Some implies alphabet@.contains(s as usize) by {
                    if s == symbol {
                        assert(alphabet[alphabet.len() - 1] == symbol);
                    } else {
                        assert(row[s] == row0[s]);
                        assert(alpha0.contains(s as usize));
                        let k3 = choose|k3: int| 0 <= k3 < alpha0.len() && alpha0[k3] == s as usize;
                        assert(alphabet[k3] == alpha0[k3]);
                    }
                }
                assert forall|j: int, l: Seq<char>|
                    0 <= j < i && #[trigger] powl_label(children@[j], l) implies exists|s: int| 0 <= s < row.len() && #[trigger] labels[s] == l by {
                    let s = choose|s: int| 0 <= s < row0.len() && #[trigger] labels[s] == l;
                }
            }
            k = k + 1;
        }
        proof {
            assert forall|s: int, j: int|
                0 <= s < row.len() && 0 <= j < i + 1 implies ((row[s] == Some(j as usize)) == #[trigger] powl_label(
                    children@[j],
                    labels[s],
                )) by {
                if j == i && powl_label(children@[j], labels[s]) {
                    let k2 = choose|k2: int| 0 <= k2 < sub.len() && labels[sub[k2] as int] == labels[s];
                    assert(sub[k2] < row.len());
                }
            }
            assert forall|j: int, l: Seq<char>|
                0 <= j < i + 1 && #[trigger] powl_label(children@[j], l) implies exists|s: int| 0 <= s < row.len() && #[trigger] labels[s] == l by {
                if j == i {
                    let k2 = choose|k2: int| 0 <= k2 < sub.len() && labels[sub[k2] as int] == l;
                    assert(sub[k2] < row.len());
                }
            }
        }
        i = i + 1;
    }
    (ids, alphabet, row)
}

proof fn lemma_represent_all_push_powl(nodes: Nodes, ch: Seq<usize>, cs: Seq<Powl>, labels: Seq<Seq<char>>, k: int)
    requires
        0 <= k < cs.len(),
        ch.len() == k + 1,
        represent_all_powl(nodes, ch.drop_last(), cs, labels, k),
        represents_powl(nodes, ch[k] as int, cs[k], labels),
    ensures
        represent_all_powl(nodes, ch, cs, labels, k + 1),
{
    lemma_represent_all_same_powl(nodes, ch.drop_last(), ch, cs, labels, k);
}

pub proof fn lemma_represent_all_same_powl(nodes: Nodes, ch1: Seq<usize>, ch2: Seq<usize>, cs: Seq<Powl>, labels: Seq<Seq<char>>, k: int)
    requires
        represent_all_powl(nodes, ch1, cs, labels, k),
        k <= ch2.len(),
        forall|i: int| 0 <= i < k ==> #[trigger] ch1[i] == ch2[i],
    ensures
        represent_all_powl(nodes, ch2, cs, labels, k),
    decreases k,
{
    if k > 0 {
        lemma_represent_all_same_powl(nodes, ch1, ch2, cs, labels, k - 1);
    }
}

/// Compile `tree` into `out` (children first), interning its labels into
/// `names`; returns its node and its alphabet.
pub fn compile(tree: &Powl, names: &mut Vec<String>, out: &mut Nodes) -> (r: (usize, Vec<usize>))
    requires
        powl_partitioned(*tree),
        old(out).wf(),
        distinct(texts(old(names)@)),
    ensures
        final(out).wf(),
        extends(*old(out), *final(out)),
        prefix_of(texts(old(names)@), texts(final(names)@)),
        distinct(texts(final(names)@)),
        r.0 as int == final(out).kinds.len() - 1,
        old(out).kinds.len() <= r.0,
        final(out).kinds.len() == old(out).kinds.len() + powl_size(*tree),
        represents_powl(*final(out), r.0 as int, *tree, texts(final(names)@)),
        powl_alphabet_of(r.1@, *tree, texts(final(names)@)),
    decreases tree, 0int,
{
    let ghost out0 = *out;
    let ghost names0 = names@;
    match tree {
        Powl::Activity { label } => {
            let a = intern(names, label);
            out.kinds.push(Kind::Activity(a));
            out.owner.push(Vec::new());
            let alphabet = vec![a];
            let x = out.kinds.len() - 1;
            proof {
                let labels = texts(names@);
                assert forall|i: int, j: int| 0 <= i < j < labels.len() implies labels[i] != labels[j] by {
                    if j < names0.len() {
                        assert(labels[i] == texts(names0)[i] && labels[j] == texts(names0)[j]);
                    } else {
                        assert(names@.drop_last() == names0);
                        assert(labels[i] == names0[i]@);
                    }
                }
                assert(prefix_of(texts(names0), labels)) by {
                    assert forall|s: int| 0 <= s < texts(names0).len() implies #[trigger] labels[s] == texts(names0)[s] by {
                        if names@ != names0 {
                            assert(names@.drop_last() == names0);
                            assert(names@[s] == names0[s]);
                        }
                    }
                }
                assert(out.kinds[x as int] == Kind::Activity(a));
                assert(alphabet@ == seq![a]);
                assert(labels[a as int] == label@);
                lemma_push_wf(out0, *out);
            }
            (x, alphabet)
        },
        Powl::Tau => {
            out.kinds.push(Kind::Tau);
            out.owner.push(Vec::new());
            let x = out.kinds.len() - 1;
            proof {
                lemma_push_wf(out0, *out);
            }
            (x, Vec::new())
        },
        Powl::PartialOrder { children, order } => {
            proof {
                assert(decreases_to!(*tree => (*tree)->PartialOrder_children));
            }
            let (ids, alphabet, row) = compile_children(children, names, out);
            let ghost ids_v = ids@;
            let before = order_closure(order, ids.len());
            let ghost out1 = *out;
            out.kinds.push(Kind::Po(ids, before));
            out.owner.push(row);
            let x = out.kinds.len() - 1;
            proof {
                let labels = texts(names@);
                lemma_push_wf(out1, *out);
                lemma_represent_all_extend_powl(out1, *out, ids@, children@, labels, labels, children.len() as int);
                assert(out.owner[x as int] == row);
                assert(row@.len() == row.len());
                lemma_alphabet_children_powl(alphabet@, row@, children@, labels, *tree);
                lemma_extends_trans(out0, out1, *out);
            }
            (x, alphabet)
        },
        Powl::Exclusive { children } => {
            proof {
                assert(decreases_to!(*tree => (*tree)->Exclusive_children));
            }
            let (ids, alphabet, row) = compile_children(children, names, out);
            let ghost ids_v = ids@;
            let ghost out1 = *out;
            out.kinds.push(Kind::Exclusive(ids));
            out.owner.push(row);
            let x = out.kinds.len() - 1;
            proof {
                let labels = texts(names@);
                lemma_push_wf(out1, *out);
                lemma_represent_all_extend_powl(out1, *out, ids@, children@, labels, labels, children.len() as int);
                assert(out.owner[x as int] == row);
                assert(row@.len() == row.len());
                lemma_alphabet_children_powl(alphabet@, row@, children@, labels, *tree);
                lemma_extends_trans(out0, out1, *out);
            }
            (x, alphabet)
        },
        Powl::Loop { children } => {
            proof {
                assert(decreases_to!(*tree => (*tree)->Loop_children));
            }
            let (ids, alphabet, row) = compile_children(children, names, out);
            let ghost ids_v = ids@;
            let ghost out1 = *out;
            out.kinds.push(Kind::Loop(ids));
            out.owner.push(row);
            let x = out.kinds.len() - 1;
            proof {
                let labels = texts(names@);
                lemma_push_wf(out1, *out);
                lemma_represent_all_extend_powl(out1, *out, ids@, children@, labels, labels, children.len() as int);
                assert(out.owner[x as int] == row);
                assert(row@.len() == row.len());
                lemma_alphabet_children_powl(alphabet@, row@, children@, labels, *tree);
                lemma_extends_trans(out0, out1, *out);
            }
            (x, alphabet)
        },
    }
}

/// The labels of a composite node are those of its children.
proof fn lemma_alphabet_children_powl(
    alphabet: Seq<usize>,
    row: Seq<Option<usize>>,
    children: Seq<Powl>,
    labels: Seq<Seq<char>>,
    t: Powl,
)
    requires
        row.len() <= usize::MAX,
        row_ok_powl(row, children, children.len() as int, labels),
        forall|k: int| 0 <= k < alphabet.len() ==> #[trigger] alphabet[k] < row.len() && row[alphabet[k] as int] is Some,
        forall|s: int| 0 <= s < row.len() && #[trigger] row[s] is Some ==> alphabet.contains(s as usize),
        forall|l: Seq<char>| #[trigger] powl_label(t, l) == powl_labels_in(children, children.len() as int, l),
    ensures
        powl_alphabet_of(alphabet, t, labels),
{
    assert forall|k: int| 0 <= k < alphabet.len() implies #[trigger] alphabet[k] < labels.len() && powl_label(t, labels[alphabet[k] as int]) by {
        let s = alphabet[k] as int;
        let i = row[s].unwrap() as int;
        assert(row[s] == Some(i as usize));
        assert(powl_label(children[i], labels[s]));
        lemma_powl_labels_in(children, children.len() as int, labels[s]);
    }
    assert forall|l: Seq<char>| #[trigger] powl_label(t, l) implies exists|k: int| 0 <= k < alphabet.len() && labels[alphabet[k] as int] == l by {
        lemma_powl_labels_in(children, children.len() as int, l);
        let i = choose|i: int| 0 <= i < children.len() && #[trigger] powl_label(children[i], l);
        let s = choose|s: int| 0 <= s < row.len() && #[trigger] labels[s] == l;
        assert(powl_label(children[i], labels[s]));
        assert(row[s] == Some(i as usize));
        assert(alphabet.contains(s as usize));
        let k = choose|k: int| 0 <= k < alphabet.len() && alphabet[k] == s as usize;
        assert(alphabet[k] as int == s);
        assert(labels[alphabet[k] as int] == l);
    }
}


/// Compile a POWL model for the traces `t`: the symbols start with the
/// log's activity names, model-only labels follow. Returns the compiled
/// model, its root and the symbol names.
pub fn compile_model(model: &Powl, t: &Traces) -> (r: (Compiled, usize, Vec<String>))
    requires
        powl_partitioned(*model),
        forall|i: int, j: int| 0 <= i < j < t.activity_names.len() ==> t.activity_names[i]@ != t.activity_names[j]@,
    ensures
        r.0.wf(),
        r.1 < r.0.nodes.kinds.len(),
        r.1 == r.0.nodes.kinds.len() - 1,
        r.0.nodes.kinds.len() == powl_size(*model),
        represents_powl(r.0.nodes, r.1 as int, *model, texts(r.2@)),
        distinct(texts(r.2@)),
        prefix_of(texts(t.activity_names@), texts(r.2@)),
{
    let mut symbols = copy_names(&t.activity_names);
    let mut nodes = Nodes { kinds: Vec::new(), owner: Vec::new() };
    proof {
        assert(distinct(texts(symbols@)));
    }
    let ghost s0 = symbols@;
    let (root, _) = compile(model, &mut symbols, &mut nodes);
    let compiled = complete(nodes);
    (compiled, root, symbols)
}

/// Exact replay of one object type's traces on a POWL model whose children
/// partition their alphabets.
pub fn powl_replay(log: &EventLog, object_type: &str, model: &Powl) -> (r: ReplayReport)
    requires
        log.wf(),
        log.events.len() < usize::MAX,
        powl_partitioned(*model),
    ensures
        exists|m: Nodes, root: int, labels: Seq<Seq<char>>|
            {
                &&& m.wf()
                &&& distinct(labels)
                &&& represents_powl(m, root, *model, labels)
                &&& replay_ok(*log, object_type@, |x: Seq<Seq<char>>| word_accepted(m, root, labels, x), r)
            },
{
    let t = build(log, object_type);
    let (compiled, root, symbols) = compile_model(model, &t);
    replay_model(log, object_type, &t, &compiled, root, &symbols)
}

} // verus!
