//! Replay fitness: how much of the log a discovered model explains.
//!
//! `tree_replay` decides exact language membership per variant: the
//! inductive miner's cuts partition the alphabet, so membership reduces to
//! routing each symbol to the child that owns it. `net_replay` is token
//! replay on an alpha net, which has no silent transitions: a trace fits iff
//! no token is ever missing and the final marking is one token on each sink
//! place.
use vstd::prelude::*;
use crate::inductive::{
    ProcessTree, has_label, partitioned, disjoint_children, all_partitioned, lemma_all_partitioned, labels_in, lemma_labels_in,
    tree_size, tree_sizes,
};
use crate::model::{Compiled, Kind, Nodes, complete};
use crate::text::texts;
use crate::trace::{Traces, build, intern};
use crate::log::EventLog;
use crate::count::{grid_sum, swapped, lemma_grid_transpose};
use crate::variants::{
    Variant, activity_ids, assemble, collect_variants, count_busy, count_acts, first_with, groups_inv,
    kept_variant, group_variant, lemma_rank_free_eq, lemma_slot_acts, listed, member_acts, same_ids,
    step_ids, variant_before, follows_at, lemma_row_count, lemma_column_one, lemma_column_none, lemma_texts_lt_irreflexive,
};
use crate::text::name_seq;

verus! {

/// `nodes` keeps every node of `nodes0` unchanged.
pub open spec fn extends(nodes0: Nodes, nodes: Nodes) -> bool {
    &&& nodes0.kinds.len() <= nodes.kinds.len()
    &&& nodes0.owner.len() <= nodes.owner.len()
    &&& forall|y: int| 0 <= y < nodes0.kinds.len() ==> #[trigger] nodes.kinds[y] == nodes0.kinds[y]
    &&& forall|y: int| 0 <= y < nodes0.owner.len() ==> #[trigger] nodes.owner[y] == nodes0.owner[y]
}

/// `b` starts with `a`.
pub open spec fn prefix_of(a: Seq<Seq<char>>, b: Seq<Seq<char>>) -> bool {
    a.len() <= b.len() && forall|s: int| 0 <= s < a.len() ==> #[trigger] b[s] == a[s]
}

/// No name twice.
pub open spec fn distinct(names: Seq<Seq<char>>) -> bool {
    forall|i: int, j: int| 0 <= i < j < names.len() ==> names[i] != names[j]
}

/// Node `x` routes symbol `s` (named `labels[s]`) to the child whose leaves
/// carry that label, and every label of the children has a symbol.
pub open spec fn owner_ok(nodes: Nodes, x: int, children: Seq<ProcessTree>, labels: Seq<Seq<char>>) -> bool {
    let row = nodes.owner[x];
    &&& row.len() <= labels.len()
    &&& forall|s: int, i: int|
        0 <= s < row.len() && 0 <= i < children.len() ==> ((row[s] == Some(i as usize)) == #[trigger] has_label(
            children[i],
            labels[s],
        ))
    &&& forall|s: int| 0 <= s < row.len() ==> (#[trigger] row[s] matches Some(i) ==> i < children.len())
    &&& forall|i: int, l: Seq<char>|
        0 <= i < children.len() && #[trigger] has_label(children[i], l) ==> exists|s: int|
            0 <= s < row.len() && #[trigger] labels[s] == l
}

/// Node `x` of `nodes` is the compiled form of `t`, symbol `s` standing for
/// activity `labels[s]`. A sequence is the total partial order, a parallel
/// node the empty one.
pub open spec fn represents(nodes: Nodes, x: int, t: ProcessTree, labels: Seq<Seq<char>>) -> bool
    decreases t, 0int,
{
    &&& 0 <= x < nodes.kinds.len()
    &&& x < nodes.owner.len()
    &&& match t {
        ProcessTree::Activity { label } => nodes.kinds[x] matches Kind::Activity(a) && a < labels.len() && labels[a as int]
            == label@ && nodes.owner[x].len() == 0,
        ProcessTree::Tau => nodes.kinds[x] is Tau && nodes.owner[x].len() == 0,
        ProcessTree::Sequence { children } => nodes.kinds[x] matches Kind::Po(ch, before) && ch.len() == children.len()
            && (forall|i: int, j: int|
            0 <= i < ch.len() && 0 <= j < ch.len() ==> #[trigger] before@[i]@[j] == (i < j)) && represent_all(
            nodes,
            ch@,
            children@,
            labels,
            children.len() as int,
        ) && owner_ok(nodes, x, children@, labels),
        ProcessTree::Parallel { children } => nodes.kinds[x] matches Kind::Po(ch, before) && ch.len() == children.len()
            && (forall|i: int, j: int| 0 <= i < ch.len() && 0 <= j < ch.len() ==> !#[trigger] before@[i]@[j])
            && represent_all(nodes, ch@, children@, labels, children.len() as int) && owner_ok(
            nodes,
            x,
            children@,
            labels,
        ),
        ProcessTree::Exclusive { children } => nodes.kinds[x] matches Kind::Exclusive(ch) && ch.len() == children.len()
            && represent_all(nodes, ch@, children@, labels, children.len() as int) && owner_ok(
            nodes,
            x,
            children@,
            labels,
        ),
        ProcessTree::Loop { children } => nodes.kinds[x] matches Kind::Loop(ch) && ch.len() == children.len()
            && represent_all(nodes, ch@, children@, labels, children.len() as int) && owner_ok(
            nodes,
            x,
            children@,
            labels,
        ),
    }
}

/// Nodes `ch[i]` represent trees `cs[i]` for `i < k`.
pub open spec fn represent_all(nodes: Nodes, ch: Seq<usize>, cs: Seq<ProcessTree>, labels: Seq<Seq<char>>, k: int) -> bool
    decreases cs, k,
{
    if !(0 <= k <= cs.len() && k <= ch.len()) {
        false
    } else if k == 0 {
        true
    } else {
        represent_all(nodes, ch, cs, labels, k - 1) && represents(nodes, ch[k - 1] as int, cs[k - 1], labels)
    }
}

pub proof fn lemma_represent_all(nodes: Nodes, ch: Seq<usize>, cs: Seq<ProcessTree>, labels: Seq<Seq<char>>, k: int, i: int)
    requires
        represent_all(nodes, ch, cs, labels, k),
        0 <= i < k,
    ensures
        represents(nodes, ch[i] as int, cs[i], labels),
    decreases k,
{
    if i < k - 1 {
        lemma_represent_all(nodes, ch, cs, labels, k - 1, i);
    }
}

/// Extending the nodes and the names keeps the routing of a node.
proof fn lemma_owner_extend(nodes0: Nodes, nodes: Nodes, x: int, children: Seq<ProcessTree>, labels0: Seq<Seq<char>>, labels: Seq<Seq<char>>)
    requires
        0 <= x < nodes0.owner.len(),
        extends(nodes0, nodes),
        prefix_of(labels0, labels),
        owner_ok(nodes0, x, children, labels0),
    ensures
        owner_ok(nodes, x, children, labels),
{
    assert(nodes.owner[x] == nodes0.owner[x]);
    let row = nodes.owner[x];
    assert forall|i: int, l: Seq<char>| 0 <= i < children.len() && #[trigger] has_label(children[i], l) implies exists|s: int|
        0 <= s < row.len() && #[trigger] labels[s] == l by {
        let s = choose|s: int| 0 <= s < row.len() && #[trigger] labels0[s] == l;
        assert(labels[s] == labels0[s]);
    }
    assert forall|s: int, i: int|
        0 <= s < row.len() && 0 <= i < children.len() implies ((row[s] == Some(i as usize)) == #[trigger] has_label(
            children[i],
            labels[s],
        )) by {
        assert(labels[s] == labels0[s]);
    }
}

/// Extending the nodes and the names keeps what they represent.
pub proof fn lemma_represents_extend(
    nodes0: Nodes,
    nodes: Nodes,
    x: int,
    t: ProcessTree,
    labels0: Seq<Seq<char>>,
    labels: Seq<Seq<char>>,
)
    requires
        represents(nodes0, x, t, labels0),
        extends(nodes0, nodes),
        prefix_of(labels0, labels),
    ensures
        represents(nodes, x, t, labels),
    decreases t, 0int,
{
    assert(nodes.kinds[x] == nodes0.kinds[x]);
    assert(nodes.owner[x] == nodes0.owner[x]);
    let ch = nodes0.children(x);
    match t {
        ProcessTree::Activity { label } => {
            if let Kind::Activity(a) = nodes0.kinds[x] {
                assert(labels[a as int] == labels0[a as int]);
            }
        },
        ProcessTree::Tau => {},
        ProcessTree::Sequence { children } => {
            lemma_owner_extend(nodes0, nodes, x, children@, labels0, labels);
            lemma_represent_all_extend(nodes0, nodes, ch, children@, labels0, labels, children.len() as int);
        },
        ProcessTree::Parallel { children } => {
            lemma_owner_extend(nodes0, nodes, x, children@, labels0, labels);
            lemma_represent_all_extend(nodes0, nodes, ch, children@, labels0, labels, children.len() as int);
        },
        ProcessTree::Exclusive { children } => {
            lemma_owner_extend(nodes0, nodes, x, children@, labels0, labels);
            lemma_represent_all_extend(nodes0, nodes, ch, children@, labels0, labels, children.len() as int);
        },
        ProcessTree::Loop { children } => {
            lemma_owner_extend(nodes0, nodes, x, children@, labels0, labels);
            lemma_represent_all_extend(nodes0, nodes, ch, children@, labels0, labels, children.len() as int);
        },
    }
}

proof fn lemma_represent_all_extend(
    nodes0: Nodes,
    nodes: Nodes,
    ch: Seq<usize>,
    cs: Seq<ProcessTree>,
    labels0: Seq<Seq<char>>,
    labels: Seq<Seq<char>>,
    k: int,
)
    requires
        represent_all(nodes0, ch, cs, labels0, k),
        extends(nodes0, nodes),
        prefix_of(labels0, labels),
    ensures
        represent_all(nodes, ch, cs, labels, k),
    decreases cs, k,
{
    if k > 0 {
        lemma_represent_all_extend(nodes0, nodes, ch, cs, labels0, labels, k - 1);
        lemma_represents_extend(nodes0, nodes, ch[k - 1] as int, cs[k - 1], labels0, labels);
    }
}

/// `alph` lists symbols of exactly the labels of `t`.
pub open spec fn alphabet_of(alph: Seq<usize>, t: ProcessTree, labels: Seq<Seq<char>>) -> bool {
    &&& forall|k: int| 0 <= k < alph.len() ==> #[trigger] alph[k] < labels.len() && has_label(t, labels[alph[k] as int])
    &&& forall|l: Seq<char>| #[trigger] has_label(t, l) ==> exists|k: int| 0 <= k < alph.len() && labels[alph[k] as int] == l
}

/// The routing row of a node over `children`: symbol `s` goes to the child
/// carrying label `labels[s]`, and every label of the children has a
/// symbol in the row.
pub open spec fn row_ok(row: Seq<Option<usize>>, children: Seq<ProcessTree>, k: int, labels: Seq<Seq<char>>) -> bool {
    &&& row.len() <= labels.len()
    &&& forall|s: int, i: int|
        0 <= s < row.len() && 0 <= i < k ==> ((row[s] == Some(i as usize)) == #[trigger] has_label(
            children[i],
            labels[s],
        ))
    &&& forall|s: int| 0 <= s < row.len() ==> (#[trigger] row[s] matches Some(i) ==> i < k)
    &&& forall|i: int, l: Seq<char>|
        0 <= i < k && #[trigger] has_label(children[i], l) ==> exists|s: int| 0 <= s < row.len() && #[trigger] labels[s] == l
}

/// Compile the children of one operator, in order; returns their nodes,
/// the union of their alphabets and the routing row.
fn compile_subtrees(children: &Vec<ProcessTree>, names: &mut Vec<String>, out: &mut Nodes) -> (r: (Vec<usize>, Vec<usize>, Vec<Option<usize>>))
    requires
        disjoint_children(children@),
        all_partitioned(children@, children.len() as int),
        old(out).wf(),
        distinct(texts(old(names)@)),
    ensures
        final(out).wf(),
        extends(*old(out), *final(out)),
        prefix_of(texts(old(names)@), texts(final(names)@)),
        distinct(texts(final(names)@)),
        r.0.len() == children.len(),
        forall|i: int| 0 <= i < children.len() ==> old(out).kinds.len() <= #[trigger] r.0[i] < final(out).kinds.len(),
        final(out).kinds.len() == old(out).kinds.len() + tree_sizes(children@, children.len() as int),
        forall|i: int| 0 <= i < children.len() ==> #[trigger] r.0[i] == old(out).kinds.len() + tree_sizes(children@, i + 1) - 1,
        represent_all(*final(out), r.0@, children@, texts(final(names)@), children.len() as int),
        row_ok(r.2@, children@, children.len() as int, texts(final(names)@)),
        forall|k: int| 0 <= k < r.1.len() ==> #[trigger] r.1[k] < r.2.len() && r.2[r.1[k] as int] is Some,
        forall|s: int| 0 <= s < r.2.len() && #[trigger] r.2[s] is Some ==> r.1@.contains(s as usize),
    decreases children, 1int,
{
    let n = children.len();
    let ghost out0 = *out;
    let ghost names0 = names@;
    let mut ids: Vec<usize> = Vec::new();
    let mut alphabet: Vec<usize> = Vec::new();
    let mut row: Vec<Option<usize>> = Vec::new();
    let mut i: usize = 0;
    while i < n
        invariant
            n == children.len(),
            disjoint_children(children@),
            all_partitioned(children@, children.len() as int),
            0 <= i <= n,
            out.wf(),
            extends(out0, *out),
            prefix_of(texts(names0), texts(names@)),
            distinct(texts(names@)),
            ids.len() == i,
            forall|j: int| 0 <= j < i ==> out0.kinds.len() <= #[trigger] ids[j] < out.kinds.len(),
            out.kinds.len() == out0.kinds.len() + tree_sizes(children@, i as int),
            forall|j: int| 0 <= j < i ==> #[trigger] ids[j] == out0.kinds.len() + tree_sizes(children@, j + 1) - 1,
            represent_all(*out, ids@, children@, texts(names@), i as int),
            row_ok(row@, children@, i as int, texts(names@)),
            forall|k: int| 0 <= k < alphabet.len() ==> #[trigger] alphabet[k] < row.len() && row[alphabet[k] as int] is Some,
            forall|s: int| 0 <= s < row.len() && #[trigger] row[s] is Some ==> alphabet@.contains(s as usize),
        decreases n - i,
    {
        proof {
            assert(decreases_to!(*children => children@));
            assert(decreases_to!(children@ => children@[i as int]));
            lemma_all_partitioned(children@, n as int, i as int);
        }
        let ghost out1 = *out;
        let ghost names1 = names@;
        let (id, sub) = compile(&children[i], names, out);
        let ghost labels = texts(names@);
        proof {
            lemma_represent_all_extend(out1, *out, ids@, children@, texts(names1), labels, i as int);
            assert(prefix_of(texts(names0), labels));
            assert forall|s: int, j: int| 0 <= s < row.len() && 0 <= j < i implies ((row[s] == Some(j as usize)) == #[trigger] has_label(
                children@[j],
                labels[s],
            )) by {
                assert(labels[s] == texts(names1)[s]);
            }
            assert forall|j: int, l: Seq<char>| 0 <= j < i && #[trigger] has_label(children@[j], l) implies exists|s: int|
                0 <= s < row.len() && #[trigger] labels[s] == l by {
                let s = choose|s: int| 0 <= s < row.len() && #[trigger] texts(names1)[s] == l;
                assert(labels[s] == texts(names1)[s]);
            }
        }
        let ghost ids0 = ids@;
        ids.push(id);
        proof {
            assert(ids@.drop_last() =~= ids0);
            lemma_represent_all_push(*out, ids@, children@, labels, i as int);
        }
        let mut k: usize = 0;
        while k < sub.len()
            invariant
                n == children.len(),
                disjoint_children(children@),
                i < n,
                labels == texts(names@),
                distinct(labels),
                alphabet_of(sub@, children@[i as int], labels),
                row.len() <= labels.len(),
                forall|s: int, j: int|
                    0 <= s < row.len() && 0 <= j < i ==> ((row[s] == Some(j as usize)) == #[trigger] has_label(
                        children@[j],
                        labels[s],
                    )),
                forall|s: int| 0 <= s < row.len() ==> (#[trigger] row[s] matches Some(j) ==> j <= i),
                forall|s: int| 0 <= s < row.len() && #[trigger] row[s] == Some(i) ==> has_label(children@[i as int], labels[s]),
                forall|k2: int| 0 <= k2 < k ==> #[trigger] sub[k2] < row.len() && row[sub[k2] as int] == Some(i),
                forall|j: int, l: Seq<char>|
                    0 <= j < i && #[trigger] has_label(children@[j], l) ==> exists|s: int| 0 <= s < row.len() && #[trigger] labels[s] == l,
                forall|k2: int| 0 <= k2 < alphabet.len() ==> #[trigger] alphabet[k2] < row.len() && row[alphabet[k2] as int] is Some,
                forall|s: int| 0 <= s < row.len() && #[trigger] row[s] is Some ==> alphabet@.contains(s as usize),
            decreases sub.len() - k,
        {
            let symbol = sub[k];
            let ghost row0 = row@;
            let ghost alpha0 = alphabet@;
            while row.len() <= symbol
                invariant
                    row0.len() <= row.len(),
                    row.len() > row0.len() ==> row.len() <= symbol + 1,
                    symbol < labels.len(),
                    forall|s: int| 0 <= s < row0.len() ==> #[trigger] row[s] == row0[s],
                    forall|s: int| row0.len() <= s < row.len() ==> #[trigger] row[s] is None,
                decreases symbol + 1 - row.len(),
            {
                row.push(None);
            }
            proof {
                assert forall|s: int, j: int| row0.len() <= s < row.len() && 0 <= j < i implies !#[trigger] has_label(children@[j], labels[s]) by {
                    if has_label(children@[j], labels[s]) {
                        let s2 = choose|s2: int| 0 <= s2 < row0.len() && #[trigger] labels[s2] == labels[s];
                    }
                }
                assert(has_label(children@[i as int], labels[symbol as int]));
                assert forall|j: int| 0 <= j < i implies !#[trigger] has_label(children@[j], labels[symbol as int]) by {
                    if j < i {
                        assert(!has_label(children@[i as int], labels[symbol as int]) || !has_label(children@[j], labels[symbol as int]));
                    }
                }
            }
            row.set(symbol, Some(i));
            alphabet.push(symbol);
            proof {
                assert forall|s: int, j: int|
                    0 <= s < row.len() && 0 <= j < i implies ((row[s] == Some(j as usize)) == #[trigger] has_label(
                        children@[j],
                        labels[s],
                    )) by {
                    if s < row0.len() && s != symbol {
                        assert(row[s] == row0[s]);
                    }
                }
                assert forall|k2: int| 0 <= k2 < alphabet.len() implies #[trigger] alphabet[k2] < row.len() && row[alphabet[k2] as int] is Some by {
                    if k2 < alpha0.len() {
                        assert(alphabet[k2] == alpha0[k2]);
                    }
                }
                assert forall|s: int| 0 <= s < row.len() && #[trigger] row[s] is Some implies alphabet@.contains(s as usize) by {
                    if s == symbol {
                        assert(alphabet[alphabet.len() - 1] == symbol);
                    } else {
                        assert(row[s] == row0[s]);
                        assert(alpha0.contains(s as usize));
                        let k3 = choose|k3: int| 0 <= k3 < alpha0.len() && alpha0[k3] == s as usize;
                        assert(alphabet[k3] == alpha0[k3]);
                    }
                }
                assert forall|j: int, l: Seq<char>|
                    0 <= j < i && #[trigger] has_label(children@[j], l) implies exists|s: int| 0 <= s < row.len() && #[trigger] labels[s] == l by {
                    let s = choose|s: int| 0 <= s < row0.len() && #[trigger] labels[s] == l;
                }
            }
            k = k + 1;
        }
        proof {
            assert forall|s: int, j: int|
                0 <= s < row.len() && 0 <= j < i + 1 implies ((row[s] == Some(j as usize)) == #[trigger] has_label(
                    children@[j],
                    labels[s],
                )) by {
                if j == i && has_label(children@[j], labels[s]) {
                    let k2 = choose|k2: int| 0 <= k2 < sub.len() && labels[sub[k2] as int] == labels[s];
                    assert(sub[k2] < row.len());
                }
            }
            assert forall|j: int, l: Seq<char>|
                0 <= j < i + 1 && #[trigger] has_label(children@[j], l) implies exists|s: int| 0 <= s < row.len() && #[trigger] labels[s] == l by {
                if j == i {
                    let k2 = choose|k2: int| 0 <= k2 < sub.len() && labels[sub[k2] as int] == l;
                    assert(sub[k2] < row.len());
                }
            }
        }
        i = i + 1;
    }
    (ids, alphabet, row)
}

proof fn lemma_represent_all_push(nodes: Nodes, ch: Seq<usize>, cs: Seq<ProcessTree>, labels: Seq<Seq<char>>, k: int)
    requires
        0 <= k < cs.len(),
        ch.len() == k + 1,
        represent_all(nodes, ch.drop_last(), cs, labels, k),
        represents(nodes, ch[k] as int, cs[k], labels),
    ensures
        represent_all(nodes, ch, cs, labels, k + 1),
{
    lemma_represent_all_same(nodes, ch.drop_last(), ch, cs, labels, k);
}

pub proof fn lemma_represent_all_same(nodes: Nodes, ch1: Seq<usize>, ch2: Seq<usize>, cs: Seq<ProcessTree>, labels: Seq<Seq<char>>, k: int)
    requires
        represent_all(nodes, ch1, cs, labels, k),
        k <= ch2.len(),
        forall|i: int| 0 <= i < k ==> #[trigger] ch1[i] == ch2[i],
    ensures
        represent_all(nodes, ch2, cs, labels, k),
    decreases k,
{
    if k > 0 {
        lemma_represent_all_same(nodes, ch1, ch2, cs, labels, k - 1);
    }
}

/// The `n × n` order of a sequence (`total`: `i` before `j` when `i < j`)
/// or of a parallel node (nothing ordered).
fn order_matrix(n: usize, total: bool) -> (before: Vec<Vec<bool>>)
    ensures
        before.len() == n,
        forall|i: int| 0 <= i < n ==> #[trigger] before[i].len() == n,
        forall|i: int, j: int| 0 <= i < n && 0 <= j < n ==> #[trigger] before[i]@[j] == (total && i < j),
{
    let mut before: Vec<Vec<bool>> = Vec::new();
    for i in 0..n
        invariant
            before.len() == i,
            forall|i2: int| 0 <= i2 < i ==> #[trigger] before[i2].len() == n,
            forall|i2: int, j: int| 0 <= i2 < i && 0 <= j < n ==> #[trigger] before[i2]@[j] == (total && i2 < j),
    {
        let mut row: Vec<bool> = Vec::new();
        for j in 0..n
            invariant
                row.len() == j,
                forall|j2: int| 0 <= j2 < j ==> #[trigger] row[j2] == (total && i < j2),
        {
            row.push(total && i < j);
        }
        before.push(row);
    }
    before
}

/// Compile `tree` into `out` (children first), interning its labels into
/// `names`; returns its node and its alphabet.
pub fn compile(tree: &ProcessTree, names: &mut Vec<String>, out: &mut Nodes) -> (r: (usize, Vec<usize>))
    requires
        partitioned(*tree),
        old(out).wf(),
        distinct(texts(old(names)@)),
    ensures
        final(out).wf(),
        extends(*old(out), *final(out)),
        prefix_of(texts(old(names)@), texts(final(names)@)),
        distinct(texts(final(names)@)),
        r.0 as int == final(out).kinds.len() - 1,
        old(out).kinds.len() <= r.0,
        final(out).kinds.len() == old(out).kinds.len() + tree_size(*tree),
        represents(*final(out), r.0 as int, *tree, texts(final(names)@)),
        alphabet_of(r.1@, *tree, texts(final(names)@)),
    decreases tree, 0int,
{
    let ghost out0 = *out;
    let ghost names0 = names@;
    match tree {
        ProcessTree::Activity { label } => {
            let a = intern(names, label);
            out.kinds.push(Kind::Activity(a));
            out.owner.push(Vec::new());
            let alphabet = vec![a];
            let x = out.kinds.len() - 1;
            proof {
                let labels = texts(names@);
                assert forall|i: int, j: int| 0 <= i < j < labels.len() implies labels[i] != labels[j] by {
                    if j < names0.len() {
                        assert(labels[i] == texts(names0)[i] && labels[j] == texts(names0)[j]);
                    } else {
                        assert(names@.drop_last() == names0);
                        assert(labels[i] == names0[i]@);
                    }
                }
                assert(prefix_of(texts(names0), labels)) by {
                    assert forall|s: int| 0 <= s < texts(names0).len() implies #[trigger] labels[s] == texts(names0)[s] by {
                        if names@ != names0 {
                            assert(names@.drop_last() == names0);
                            assert(names@[s] == names0[s]);
                        }
                    }
                }
                assert(out.kinds[x as int] == Kind::Activity(a));
                assert(alphabet@ == seq![a]);
                assert(labels[a as int] == label@);
                lemma_push_wf(out0, *out);
            }
            (x, alphabet)
        },
        ProcessTree::Tau => {
            out.kinds.push(Kind::Tau);
            out.owner.push(Vec::new());
            let x = out.kinds.len() - 1;
            proof {
                lemma_push_wf(out0, *out);
            }
            (x, Vec::new())
        },
        ProcessTree::Sequence { children } => {
            proof {
                assert(decreases_to!(*tree => (*tree)->Sequence_children));
            }
            let (ids, alphabet, row) = compile_subtrees(children, names, out);
            let ghost ids_v = ids@;
            let before = order_matrix(ids.len(), true);
            let ghost out1 = *out;
            out.kinds.push(Kind::Po(ids, before));
            out.owner.push(row);
            let x = out.kinds.len() - 1;
            proof {
                let labels = texts(names@);
                lemma_push_wf(out1, *out);
                lemma_represent_all_extend(out1, *out, ids@, children@, labels, labels, children.len() as int);
                assert(out.owner[x as int] == row);
                assert(row@.len() == row.len());
                lemma_alphabet_children(alphabet@, row@, children@, labels, *tree);
                lemma_extends_trans(out0, out1, *out);
            }
            (x, alphabet)
        },
        ProcessTree::Parallel { children } => {
            proof {
                assert(decreases_to!(*tree => (*tree)->Parallel_children));
            }
            let (ids, alphabet, row) = compile_subtrees(children, names, out);
            let ghost ids_v = ids@;
            let before = order_matrix(ids.len(), false);
            let ghost out1 = *out;
            out.kinds.push(Kind::Po(ids, before));
            out.owner.push(row);
            let x = out.kinds.len() - 1;
            proof {
                let labels = texts(names@);
                lemma_push_wf(out1, *out);
                lemma_represent_all_extend(out1, *out, ids@, children@, labels, labels, children.len() as int);
                assert(out.owner[x as int] == row);
                assert(row@.len() == row.len());
                lemma_alphabet_children(alphabet@, row@, children@, labels, *tree);
                lemma_extends_trans(out0, out1, *out);
            }
            (x, alphabet)
        },
        ProcessTree::Exclusive { children } => {
            proof {
                assert(decreases_to!(*tree => (*tree)->Exclusive_children));
            }
            let (ids, alphabet, row) = compile_subtrees(children, names, out);
            let ghost ids_v = ids@;
            let ghost out1 = *out;
            out.kinds.push(Kind::Exclusive(ids));
            out.owner.push(row);
            let x = out.kinds.len() - 1;
            proof {
                let labels = texts(names@);
                lemma_push_wf(out1, *out);
                lemma_represent_all_extend(out1, *out, ids@, children@, labels, labels, children.len() as int);
                assert(out.owner[x as int] == row);
                assert(row@.len() == row.len());
                lemma_alphabet_children(alphabet@, row@, children@, labels, *tree);
                lemma_extends_trans(out0, out1, *out);
            }
            (x, alphabet)
        },
        ProcessTree::Loop { children } => {
            proof {
                assert(decreases_to!(*tree => (*tree)->Loop_children));
            }
            let (ids, alphabet, row) = compile_subtrees(children, names, out);
            let ghost ids_v = ids@;
            let ghost out1 = *out;
            out.kinds.push(Kind::Loop(ids));
            out.owner.push(row);
            let x = out.kinds.len() - 1;
            proof {
                let labels = texts(names@);
                lemma_push_wf(out1, *out);
                lemma_represent_all_extend(out1, *out, ids@, children@, labels, labels, children.len() as int);
                assert(out.owner[x as int] == row);
                assert(row@.len() == row.len());
                lemma_alphabet_children(alphabet@, row@, children@, labels, *tree);
                lemma_extends_trans(out0, out1, *out);
            }
            (x, alphabet)
        },
    }
}

pub proof fn lemma_extends_trans(a: Nodes, b: Nodes, c: Nodes)
    requires
        extends(a, b),
        extends(b, c),
    ensures
        extends(a, c),
{
    assert forall|y: int| 0 <= y < a.kinds.len() implies #[trigger] c.kinds[y] == a.kinds[y] by {
        assert(c.kinds[y] == b.kinds[y]);
    }
    assert forall|y: int| 0 <= y < a.owner.len() implies #[trigger] c.owner[y] == a.owner[y] by {
        assert(c.owner[y] == b.owner[y]);
    }
}

/// Pushing a node whose children are earlier nodes keeps the nodes well
/// formed.
pub proof fn lemma_push_wf(out0: Nodes, out: Nodes)
    requires
        out0.wf(),
        out.kinds@ == out0.kinds@.push(out.kinds@.last()),
        out.owner@ == out0.owner@.push(out.owner@.last()),
        forall|i: int| 0 <= i < out.children(out0.kinds.len() as int).len() ==> #[trigger] out.children(out0.kinds.len() as int)[i] < out0.kinds.len(),
        out.kinds@.last() matches Kind::Loop(ch) ==> ch.len() >= 1,
        out.kinds@.last() matches Kind::Po(ch, before) ==> {
            &&& before.len() == ch.len()
            &&& forall|i: int| 0 <= i < ch.len() ==> #[trigger] before@[i].len() == ch.len()
        },
        forall|s: int| 0 <= s < out.owner@.last().len() ==> (#[trigger] out.owner@.last()[s] matches Some(i) ==> i < out.children(out0.kinds.len() as int).len()),
    ensures
        out.wf(),
        extends(out0, out),
{
    let x = out0.kinds.len() as int;
    assert forall|y: int| 0 <= y < x implies #[trigger] out.kinds[y] == out0.kinds[y] && out.owner[y] == out0.owner[y] by {
        assert(out.kinds@[y] == out0.kinds@.push(out.kinds@.last())[y]);
        assert(out.owner@[y] == out0.owner@.push(out.owner@.last())[y]);
    }
    assert forall|y: int, i: int| 0 <= y < out.kinds.len() && 0 <= i < out.children(y).len() implies #[trigger] out.children(y)[i] < y by {
        if y < x {
            assert(out.children(y) == out0.children(y));
        }
    }
    assert forall|y: int| 0 <= y < out.kinds.len() implies (#[trigger] out.kinds[y] matches Kind::Loop(ch) ==> ch.len() >= 1) by {
        if y < x {
            assert(out.kinds[y] == out0.kinds[y]);
        }
    }
    assert forall|y: int| 0 <= y < out.kinds.len() implies (#[trigger] out.kinds[y] matches Kind::Po(ch, before) ==> {
        &&& before.len() == ch.len()
        &&& forall|i: int| 0 <= i < ch.len() ==> #[trigger] before@[i].len() == ch.len()
    }) by {
        if y < x {
            assert(out.kinds[y] == out0.kinds[y]);
        }
    }
    assert forall|y: int, s: int|
        0 <= y < out.kinds.len() && 0 <= s < out.owner[y].len() implies (#[trigger] out.owner[y][s] matches Some(i) ==> i
            < out.children(y).len()) by {
        if y < x {
            assert(out.owner[y] == out0.owner[y]);
            assert(out.children(y) == out0.children(y));
        }
    }
}

/// The labels of a composite node are those of its children.
proof fn lemma_alphabet_children(
    alphabet: Seq<usize>,
    row: Seq<Option<usize>>,
    children: Seq<ProcessTree>,
    labels: Seq<Seq<char>>,
    t: ProcessTree,
)
    requires
        row.len() <= usize::MAX,
        row_ok(row, children, children.len() as int, labels),
        forall|k: int| 0 <= k < alphabet.len() ==> #[trigger] alphabet[k] < row.len() && row[alphabet[k] as int] is Some,
        forall|s: int| 0 <= s < row.len() && #[trigger] row[s] is Some ==> alphabet.contains(s as usize),
        forall|l: Seq<char>| #[trigger] has_label(t, l) == labels_in(children, children.len() as int, l),
    ensures
        alphabet_of(alphabet, t, labels),
{
    assert forall|k: int| 0 <= k < alphabet.len() implies #[trigger] alphabet[k] < labels.len() && has_label(t, labels[alphabet[k] as int]) by {
        let s = alphabet[k] as int;
        let i = row[s].unwrap() as int;
        assert(row[s] == Some(i as usize));
        assert(has_label(children[i], labels[s]));
        lemma_labels_in(children, children.len() as int, labels[s]);
    }
    assert forall|l: Seq<char>| #[trigger] has_label(t, l) implies exists|k: int| 0 <= k < alphabet.len() && labels[alphabet[k] as int] == l by {
        lemma_labels_in(children, children.len() as int, l);
        let i = choose|i: int| 0 <= i < children.len() && #[trigger] has_label(children[i], l);
        let s = choose|s: int| 0 <= s < row.len() && #[trigger] labels[s] == l;
        assert(has_label(children[i], labels[s]));
        assert(row[s] == Some(i as usize));
        assert(alphabet.contains(s as usize));
        let k = choose|k: int| 0 <= k < alphabet.len() && alphabet[k] == s as usize;
        assert(alphabet[k] as int == s);
        assert(labels[alphabet[k] as int] == l);
    }
}

/// A trace variant the model cannot replay.
pub type MisfitVariant = Variant;

/// Replay result over one object type's traces.
#[derive(Clone, Debug)]
pub struct ReplayReport {
    pub object_type: String,
    /// Traces with at least one event.
    pub traces: usize,
    /// Traces the model replays exactly.
    pub fitting: usize,
    pub variants: usize,
    pub fitting_variants: usize,
    /// Non-replayable variants, sorted by descending count, ties by names.
    pub misfits: Vec<MisfitVariant>,
}

/// Slots below `k` satisfying `p`.
pub open spec fn count_where(p: spec_fn(int) -> bool, k: int) -> nat
    decreases k,
{
    if k <= 0 {
        0
    } else {
        count_where(p, k - 1) + if p(k - 1) {
            1nat
        } else {
            0nat
        }
    }
}

/// Object `s` of type `ty` has events.
pub open spec fn busy(log: EventLog, ty: Seq<char>, s: int) -> bool {
    member_acts(log, ty, s).len() > 0
}

/// Object `s` of type `ty` is the first with its (nonempty) variant.
pub open spec fn opens_variant(log: EventLog, ty: Seq<char>, s: int) -> bool {
    busy(log, ty, s) && first_with(log, ty, member_acts(log, ty, s), s)
}

/// The report replays the traces of type `ty` against `fit`: traces and
/// variants counted, those `fit` accepts counted, the others listed.
pub open spec fn replay_ok(log: EventLog, ty: Seq<char>, fit: spec_fn(Seq<Seq<char>>) -> bool, r: ReplayReport) -> bool {
    let n = log.members(ty).len() as int;
    &&& r.object_type@ == ty
    &&& r.traces == count_busy(log, ty, n)
    &&& r.fitting == count_where(|s: int| busy(log, ty, s) && fit(member_acts(log, ty, s)), n)
    &&& r.variants == count_where(|s: int| opens_variant(log, ty, s), n)
    &&& r.fitting_variants == count_where(|s: int| opens_variant(log, ty, s) && fit(member_acts(log, ty, s)), n)
    &&& forall|i: int|
        0 <= i < r.misfits.len() ==> {
            let v = #[trigger] r.misfits[i];
            &&& v.acts().len() > 0
            &&& !fit(v.acts())
            &&& v.count == count_acts(log, ty, v.acts(), n)
            &&& exists|s: int| first_with(log, ty, v.acts(), s) && v.example@ == log.objects[log.members(ty)[s] as int].id@
        }
    &&& forall|s: int|
        0 <= s < n && busy(log, ty, s) && !fit(#[trigger] member_acts(log, ty, s)) ==> listed(r.misfits@, member_acts(log, ty, s))
    &&& forall|i: int, j: int| 0 <= i < j < r.misfits.len() ==> variant_before(#[trigger] r.misfits[i], #[trigger] r.misfits[j])
}

/// The group of slot `s`'s nonempty activity ids.
pub fn group_of(seqs: &Vec<Vec<usize>>, ids: &Vec<usize>) -> (g: usize)
    requires
        exists|g: int| 0 <= g < seqs.len() && #[trigger] seqs[g]@ == ids@,
    ensures
        g < seqs.len(),
        seqs[g as int]@ == ids@,
{
    let mut g: usize = 0;
    while g < seqs.len()
        invariant
            0 <= g <= seqs.len(),
            exists|g2: int| g <= g2 < seqs.len() && #[trigger] seqs[g2]@ == ids@,
        decreases seqs.len() - g,
    {
        if same_ids(&seqs[g], ids) {
            return g;
        }
        g = g + 1;
    }
    g
}

/// Two first objects of one variant are the same object.
proof fn lemma_first_unique(log: EventLog, ty: Seq<char>, x: Seq<Seq<char>>, a: int, b: int)
    requires
        first_with(log, ty, x, a),
        first_with(log, ty, x, b),
    ensures
        a == b,
{
    if a < b {
        assert(member_acts(log, ty, a) == x);
    } else if b < a {
        assert(member_acts(log, ty, b) == x);
    }
}

/// Assemble the replay report from the variant groups and, per group,
/// whether the model accepts it (`fit[g] == f(activities of group g)`).
pub fn report(
    log: &EventLog,
    object_type: &str,
    t: &Traces,
    seqs: &Vec<Vec<usize>>,
    counts: &Vec<usize>,
    firsts: &Vec<usize>,
    busy_count: usize,
    fit: &Vec<bool>,
    f: Ghost<spec_fn(Seq<Seq<char>>) -> bool>,
) -> (r: ReplayReport)
    requires
        t.describes(*log, object_type@),
        groups_inv(*log, object_type@, t.activity_names@, seqs@, counts@, firsts@, t.steps.len() as int),
        busy_count == count_busy(*log, object_type@, t.steps.len() as int),
        fit.len() == seqs.len(),
        forall|g: int| 0 <= g < seqs.len() ==> #[trigger] fit[g] == f@(name_seq(t.activity_names@, seqs[g]@)),
    ensures
        replay_ok(*log, object_type@, f@, r),
{
    let ghost ty = object_type@;
    let ghost names = t.activity_names@;
    let ghost fs = f@;
    let ns = t.steps.len();
    let mut keep: Vec<bool> = Vec::new();
    for g in 0..seqs.len()
        invariant
            fit.len() == seqs.len(),
            keep.len() == g,
            forall|h: int| 0 <= h < g ==> #[trigger] keep[h] == !fit[h],
    {
        keep.push(!fit[g]);
    }
    let misfits = assemble(log, Ghost(ty), t, seqs, counts, firsts, &keep);
    let mut fitting: usize = 0;
    let mut variants: usize = 0;
    let mut fitting_variants: usize = 0;
    for s in 0..ns
        invariant
            ns == t.steps.len(),
            t.describes(*log, ty),
            names == t.activity_names@,
            groups_inv(*log, ty, names, seqs@, counts@, firsts@, ns as int),
            fit.len() == seqs.len(),
            forall|g: int| 0 <= g < seqs.len() ==> #[trigger] fit[g] == fs(name_seq(names, seqs[g]@)),
            fitting == count_where(|s2: int| busy(*log, ty, s2) && fs(member_acts(*log, ty, s2)), s as int),
            variants == count_where(|s2: int| opens_variant(*log, ty, s2), s as int),
            fitting_variants == count_where(|s2: int| opens_variant(*log, ty, s2) && fs(member_acts(*log, ty, s2)), s as int),
            fitting <= s,
            variants <= s,
            fitting_variants <= s,
    {
        let ids = activity_ids(&t.steps[s]);
        proof {
            lemma_slot_acts(*log, ty, *t, s as int);
            assert(log.members(ty).len() == ns);
        }
        if ids.len() > 0 {
            proof {
                let x = member_acts(*log, ty, s as int);
                assert(x.len() == ids.len());
                let g = choose|g: int| 0 <= g < seqs.len() && name_seq(names, #[trigger] seqs[g]@) == x;
                lemma_rank_free_eq(names, seqs[g]@, ids@);
                assert(seqs[g]@ == ids@);
            }
            let g = group_of(seqs, &ids);
            proof {
                let x = member_acts(*log, ty, s as int);
                assert(name_seq(names, seqs[g as int]@) == x);
                if first_with(*log, ty, x, s as int) {
                    lemma_first_unique(*log, ty, x, s as int, firsts[g as int] as int);
                }
            }
            if fit[g] {
                fitting = fitting + 1;
            }
            if firsts[g] == s {
                variants = variants + 1;
                if fit[g] {
                    fitting_variants = fitting_variants + 1;
                }
            }
        }
    }
    let r = ReplayReport {
        object_type: object_type.to_owned(),
        traces: busy_count,
        fitting,
        variants,
        fitting_variants,
        misfits,
    };
    proof {
        assert(log.members(ty).len() == ns);
        assert forall|i: int| 0 <= i < r.misfits.len() implies {
            let v = #[trigger] r.misfits[i];
            &&& v.acts().len() > 0
            &&& !fs(v.acts())
            &&& v.count == count_acts(*log, ty, v.acts(), ns as int)
            &&& exists|s: int| first_with(*log, ty, v.acts(), s) && v.example@ == log.objects[log.members(ty)[s] as int].id@
        } by {
            let v = r.misfits[i];
            assert(kept_variant(*log, ty, names, seqs@, counts@, firsts@, keep@, v));
            let g = choose|g: int| #[trigger] keep@[g] && group_variant(*log, ty, names, seqs@, counts@, firsts@, g, v);
            assert(fit[g] == fs(name_seq(names, seqs[g]@)));
            let x = name_seq(names, seqs[g]@);
            assert(first_with(*log, ty, x, firsts[g] as int));
            assert(seqs[g]@.len() > 0);
            assert(x.len() == seqs[g]@.len());
        }
        assert forall|s: int|
            0 <= s < ns && busy(*log, ty, s) && !fs(#[trigger] member_acts(*log, ty, s)) implies listed(r.misfits@, member_acts(*log, ty, s)) by {
            let x = member_acts(*log, ty, s);
            let g = choose|g: int| 0 <= g < seqs.len() && name_seq(names, #[trigger] seqs[g]@) == x;
            assert(keep[g]);
        }
    }
    r
}

/// Symbol ids `ids` spell the activity sequence `x`.
pub open spec fn spells(labels: Seq<Seq<char>>, ids: Seq<usize>, x: Seq<Seq<char>>) -> bool {
    &&& ids.len() == x.len()
    &&& forall|k: int| 0 <= k < ids.len() ==> #[trigger] ids[k] < labels.len() && labels[ids[k] as int] == x[k]
}

/// Node `root` of `m` accepts the activity sequence `x`.
pub open spec fn word_accepted(m: Nodes, root: int, labels: Seq<Seq<char>>, x: Seq<Seq<char>>) -> bool {
    exists|ids: Seq<usize>| spells(labels, ids, x) && #[trigger] m.accepts_spec(root, ids)
}

/// With distinct labels a sequence has one spelling.
pub proof fn lemma_spelling_unique(labels: Seq<Seq<char>>, a: Seq<usize>, b: Seq<usize>, x: Seq<Seq<char>>)
    requires
        distinct(labels),
        spells(labels, a, x),
        spells(labels, b, x),
    ensures
        a == b,
{
    assert forall|k: int| 0 <= k < a.len() implies a[k] == b[k] by {
        let i = a[k] as int;
        let j = b[k] as int;
        if i < j {
            assert(labels[i] != labels[j]);
        } else if j < i {
            assert(labels[j] != labels[i]);
        }
    }
    assert(a =~= b);
}

/// Trace lengths: each slot holds at most as many steps as the log has
/// events.
pub proof fn lemma_slot_len(log: EventLog, ty: Seq<char>, t: Traces, s: int)
    requires
        t.describes(log, ty),
        0 <= s < t.steps.len(),
    ensures
        t.steps[s].len() <= log.events.len(),
{
    let ev = crate::trace::step_events(t.steps[s]@);
    assert forall|k: int| 0 <= k < ev.len() implies 0 <= #[trigger] ev[k] < log.events.len() by {
        assert(t.step_ok(log, s, k));
    }
    assert forall|k1: int, k2: int| 0 <= k1 < k2 < ev.len() implies log.before(#[trigger] ev[k1], #[trigger] ev[k2]) by {
        assert(log.before(t.steps[s][k1].event as int, t.steps[s][k2].event as int));
    }
    crate::log::lemma_ordered_len(log, ev);
}

/// Copy a list of names.
pub fn copy_names(names: &Vec<String>) -> (r: Vec<String>)
    ensures
        texts(r@) == texts(names@),
{
    let mut r: Vec<String> = Vec::new();
    for i in 0..names.len()
        invariant
            r.len() == i,
            forall|j: int| 0 <= j < i ==> #[trigger] r[j]@ == names[j]@,
    {
        r.push(names[i].clone());
    }
    assert(texts(r@) =~= texts(names@));
    r
}

/// Replay the traces `t` of `object_type` on the compiled model rooted at
/// `root`, whose symbols are named by `symbols` (the log's names first).
pub fn replay_model(
    log: &EventLog,
    object_type: &str,
    t: &Traces,
    compiled: &Compiled,
    root: usize,
    symbols: &Vec<String>,
) -> (r: ReplayReport)
    requires
        log.wf(),
        log.events.len() < usize::MAX,
        t.describes(*log, object_type@),
        compiled.wf(),
        root < compiled.nodes.kinds.len(),
        distinct(texts(symbols@)),
        prefix_of(texts(t.activity_names@), texts(symbols@)),
    ensures
        replay_ok(*log, object_type@, |x: Seq<Seq<char>>| word_accepted(compiled.nodes, root as int, texts(symbols@), x), r),
{
    let ghost ty = object_type@;
    let ghost names = t.activity_names@;
    let ghost labels = texts(symbols@);
    let (seqs, counts, firsts, busy_count) = collect_variants(log, Ghost(ty), t);
    let ghost fit_spec = |x: Seq<Seq<char>>| word_accepted(compiled.nodes, root as int, labels, x);
    let mut fit: Vec<bool> = Vec::new();
    for g in 0..seqs.len()
        invariant
            t.describes(*log, ty),
            names == t.activity_names@,
            log.events.len() < usize::MAX,
            groups_inv(*log, ty, names, seqs@, counts@, firsts@, t.steps.len() as int),
            compiled.wf(),
            root < compiled.nodes.kinds.len(),
            labels == texts(symbols@),
            distinct(labels),
            prefix_of(texts(names), labels),
            fit_spec == (|x: Seq<Seq<char>>| word_accepted(compiled.nodes, root as int, labels, x)),
            fit.len() == g,
            forall|h: int| 0 <= h < g ==> #[trigger] fit[h] == fit_spec(name_seq(names, seqs[h]@)),
    {
        proof {
            let f = firsts[g as int] as int;
            let x = name_seq(names, seqs[g as int]@);
            assert(crate::variants::first_with(*log, ty, x, f));
            assert(t.object_ids@ == log.members(ty));
            lemma_slot_acts(*log, ty, *t, f);
            lemma_slot_len(*log, ty, *t, f);
            assert(x.len() == seqs[g as int]@.len());
        }
        let ok = compiled.accepts(root, &seqs[g]);
        proof {
            let x = name_seq(names, seqs[g as int]@);
            let w = seqs[g as int]@;
            assert(spells(labels, w, x)) by {
                assert forall|k: int| 0 <= k < w.len() implies #[trigger] w[k] < labels.len() && labels[w[k] as int] == x[k] by {
                    assert(w[k] < names.len());
                    assert(labels[w[k] as int] == texts(names)[w[k] as int]);
                }
            }
            if word_accepted(compiled.nodes, root as int, labels, x) {
                let ids = choose|ids: Seq<usize>| spells(labels, ids, x) && #[trigger] compiled.nodes.accepts_spec(root as int, ids);
                lemma_spelling_unique(labels, ids, w, x);
            }
        }
        fit.push(ok);
    }
    report(log, object_type, t, &seqs, &counts, &firsts, busy_count, &fit, Ghost(fit_spec))
}

/// Exact replay of one object type's traces on a process tree whose
/// children partition their alphabets (as the inductive miner's do): a
/// variant fits iff the tree's language holds it.
pub fn tree_replay(log: &EventLog, object_type: &str, tree: &ProcessTree) -> (r: ReplayReport)
    requires
        log.wf(),
        log.events.len() < usize::MAX,
        partitioned(*tree),
    ensures
        exists|m: Nodes, root: int, labels: Seq<Seq<char>>|
            {
                &&& m.wf()
                &&& distinct(labels)
                &&& represents(m, root, *tree, labels)
                &&& replay_ok(*log, object_type@, |x: Seq<Seq<char>>| word_accepted(m, root, labels, x), r)
            },
{
    let t = build(log, object_type);
    let mut symbols = copy_names(&t.activity_names);
    let mut nodes = Nodes { kinds: Vec::new(), owner: Vec::new() };
    proof {
        assert(distinct(texts(symbols@)));
    }
    let (root, _) = compile(tree, &mut symbols, &mut nodes);
    let compiled = complete(nodes);
    replay_model(log, object_type, &t, &compiled, root, &symbols)
}

/// The misfit counts of the first `k` misfits.
pub open spec fn misfit_sum(vs: Seq<MisfitVariant>, k: int) -> int
    decreases k,
{
    if k <= 0 {
        0
    } else {
        misfit_sum(vs, k - 1) + vs[k - 1].count
    }
}

proof fn lemma_count_split(log: EventLog, ty: Seq<char>, fit: spec_fn(Seq<Seq<char>>) -> bool, k: int)
    ensures
        count_busy(log, ty, k) == count_where(|s: int| busy(log, ty, s) && fit(member_acts(log, ty, s)), k)
            + count_where(|s: int| busy(log, ty, s) && !fit(member_acts(log, ty, s)), k),
        count_where(|s: int| opens_variant(log, ty, s) && fit(member_acts(log, ty, s)), k) <= count_where(
            |s: int| opens_variant(log, ty, s),
            k,
        ),
    decreases k,
{
    if k > 0 {
        lemma_count_split(log, ty, fit, k - 1);
    }
}

proof fn lemma_misfit_grid(log: EventLog, ty: Seq<char>, fit: spec_fn(Seq<Seq<char>>) -> bool, r: ReplayReport, m: int)
    requires
        replay_ok(log, ty, fit, r),
        0 <= m <= r.misfits.len(),
    ensures
        grid_sum(follows_at(log, ty, r.misfits@), m, log.members(ty).len() as int) == misfit_sum(r.misfits@, m),
    decreases m,
{
    if m > 0 {
        lemma_misfit_grid(log, ty, fit, r, m - 1);
        lemma_row_count(log, ty, r.misfits@, m - 1, log.members(ty).len() as int);
        assert(r.misfits[m - 1].count == count_acts(log, ty, r.misfits[m - 1].acts(), log.members(ty).len() as int));
    }
}

proof fn lemma_misfit_columns(log: EventLog, ty: Seq<char>, fit: spec_fn(Seq<Seq<char>>) -> bool, r: ReplayReport, m: int)
    requires
        replay_ok(log, ty, fit, r),
        0 <= m <= log.members(ty).len(),
        forall|i: int, j: int| 0 <= i < r.misfits.len() && 0 <= j < r.misfits.len() && i != j ==> #[trigger] r.misfits[i].acts()
            != #[trigger] r.misfits[j].acts(),
    ensures
        grid_sum(swapped(follows_at(log, ty, r.misfits@)), m, r.misfits.len() as int) == count_where(
            |s: int| busy(log, ty, s) && !fit(member_acts(log, ty, s)),
            m,
        ),
    decreases m,
{
    if m > 0 {
        lemma_misfit_columns(log, ty, fit, r, m - 1);
        let s = m - 1;
        let vs = r.misfits@;
        let v = vs.len() as int;
        if busy(log, ty, s) && !fit(member_acts(log, ty, s)) {
            assert(listed(vs, member_acts(log, ty, s)));
            let i0 = choose|i: int| 0 <= i < vs.len() && #[trigger] vs[i].acts() == member_acts(log, ty, s);
            assert forall|i: int| 0 <= i < vs.len() && i != i0 implies #[trigger] vs[i].acts() != vs[i0].acts() by {
                assert(r.misfits[i].acts() != r.misfits[i0].acts());
            }
            lemma_column_one(log, ty, vs, s, i0, v);
        } else {
            assert forall|i: int| 0 <= i < vs.len() implies #[trigger] vs[i].acts() != member_acts(log, ty, s) by {
                let w = r.misfits[i];
                assert(w.acts().len() > 0 && !fit(w.acts()));
            }
            lemma_column_none(log, ty, vs, s, v);
        }
    }
}

/// Every trace either fits or is counted in exactly one misfit variant:
/// the misfit counts add up to the traces that do not fit, and fitting
/// traces and variants never outnumber all of them.
pub proof fn law_misfits_cover_unfit_traces(log: EventLog, ty: Seq<char>, fit: spec_fn(Seq<Seq<char>>) -> bool, r: ReplayReport)
    requires
        replay_ok(log, ty, fit, r),
    ensures
        r.fitting <= r.traces,
        r.fitting_variants <= r.variants,
        misfit_sum(r.misfits@, r.misfits.len() as int) == r.traces - r.fitting,
{
    let vs = r.misfits@;
    let n = log.members(ty).len() as int;
    lemma_count_split(log, ty, fit, n);
    assert forall|i: int, j: int| 0 <= i < vs.len() && 0 <= j < vs.len() && i != j implies #[trigger] r.misfits[i].acts()
        != #[trigger] r.misfits[j].acts() by {
        if r.misfits[i].acts() == r.misfits[j].acts() {
            let (lo, hi) = if i < j { (i, j) } else { (j, i) };
            assert(variant_before(r.misfits[lo], r.misfits[hi]));
            lemma_texts_lt_irreflexive(r.misfits[lo].acts());
        }
    }
    lemma_misfit_grid(log, ty, fit, r, vs.len() as int);
    lemma_grid_transpose(follows_at(log, ty, vs), vs.len() as int, n);
    lemma_misfit_columns(log, ty, fit, r, n);
}

} // verus!
