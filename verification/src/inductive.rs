//! Process trees, the models of the inductive miner.
use vstd::prelude::*;

verus! {

/// A process tree node.
#[derive(Debug)]
pub enum ProcessTree {
    /// A leaf activity.
    Activity { label: String },
    /// The silent step.
    Tau,
    /// Children in order.
    Sequence { children: Vec<ProcessTree> },
    /// Exactly one child happens.
    Exclusive { children: Vec<ProcessTree> },
    /// All children happen, interleaved.
    Parallel { children: Vec<ProcessTree> },
    /// `children[0]` is the body; the rest are redo parts.
    Loop { children: Vec<ProcessTree> },
}

/// Activity `x` labels some leaf of `t`.
pub open spec fn has_label(t: ProcessTree, x: Seq<char>) -> bool
    decreases t, 0int,
{
    match t {
        ProcessTree::Activity { label } => label@ == x,
        ProcessTree::Tau => false,
        ProcessTree::Sequence { children } => labels_in(children@, children.len() as int, x),
        ProcessTree::Exclusive { children } => labels_in(children@, children.len() as int, x),
        ProcessTree::Parallel { children } => labels_in(children@, children.len() as int, x),
        ProcessTree::Loop { children } => labels_in(children@, children.len() as int, x),
    }
}

/// The number of nodes of `t`.
pub open spec fn tree_size(t: ProcessTree) -> nat
    decreases t, 0int,
{
    match t {
        ProcessTree::Activity { .. } => 1,
        ProcessTree::Tau => 1,
        ProcessTree::Sequence { children } => 1 + tree_sizes(children@, children.len() as int),
        ProcessTree::Exclusive { children } => 1 + tree_sizes(children@, children.len() as int),
        ProcessTree::Parallel { children } => 1 + tree_sizes(children@, children.len() as int),
        ProcessTree::Loop { children } => 1 + tree_sizes(children@, children.len() as int),
    }
}

/// The number of nodes of the first `k` trees of `cs`.
pub open spec fn tree_sizes(cs: Seq<ProcessTree>, k: int) -> nat
    decreases cs, k,
{
    if !(0 < k <= cs.len()) {
        0
    } else {
        tree_sizes(cs, k - 1) + tree_size(cs[k - 1])
    }
}

/// Activity `x` labels a leaf of one of the first `k` trees of `cs`.
pub open spec fn labels_in(cs: Seq<ProcessTree>, k: int, x: Seq<char>) -> bool
    decreases cs, k,
{
    if !(0 < k <= cs.len()) {
        false
    } else {
        labels_in(cs, k - 1, x) || has_label(cs[k - 1], x)
    }
}

/// The children of every operator have disjoint alphabets, and every loop
/// has a body. The inductive miner's cuts guarantee both.
pub open spec fn partitioned(t: ProcessTree) -> bool
    decreases t, 0int,
{
    match t {
        ProcessTree::Activity { .. } => true,
        ProcessTree::Tau => true,
        ProcessTree::Sequence { children } => disjoint_children(children@) && all_partitioned(
            children@,
            children.len() as int,
        ),
        ProcessTree::Exclusive { children } => disjoint_children(children@) && all_partitioned(
            children@,
            children.len() as int,
        ),
        ProcessTree::Parallel { children } => disjoint_children(children@) && all_partitioned(
            children@,
            children.len() as int,
        ),
        ProcessTree::Loop { children } => children.len() >= 1 && disjoint_children(children@) && all_partitioned(
            children@,
            children.len() as int,
        ),
    }
}

/// The first `k` trees of `cs` are partitioned.
pub open spec fn all_partitioned(cs: Seq<ProcessTree>, k: int) -> bool
    decreases cs, k,
{
    if !(0 <= k <= cs.len()) {
        false
    } else if k == 0 {
        true
    } else {
        all_partitioned(cs, k - 1) && partitioned(cs[k - 1])
    }
}

/// `x` labels a leaf of child `i` exactly when it labels one of the first
/// `k > i` children and no other.
pub proof fn lemma_labels_in(cs: Seq<ProcessTree>, k: int, x: Seq<char>)
    requires
        0 <= k <= cs.len(),
    ensures
        labels_in(cs, k, x) == exists|i: int| 0 <= i < k && #[trigger] has_label(cs[i], x),
    decreases k,
{
    if k > 0 {
        lemma_labels_in(cs, k - 1, x);
        if has_label(cs[k - 1], x) {
            assert(0 <= k - 1 < k && has_label(cs[k - 1], x));
        }
        if exists|i: int| 0 <= i < k && #[trigger] has_label(cs[i], x) {
            let i = choose|i: int| 0 <= i < k && #[trigger] has_label(cs[i], x);
            if i < k - 1 {
                assert(exists|i2: int| 0 <= i2 < k - 1 && #[trigger] has_label(cs[i2], x));
            }
        }
    }
}

pub proof fn lemma_all_partitioned(cs: Seq<ProcessTree>, k: int, i: int)
    requires
        all_partitioned(cs, k),
        0 <= i < k,
    ensures
        partitioned(cs[i]),
    decreases k,
{
    if i < k - 1 {
        lemma_all_partitioned(cs, k - 1, i);
    }
}

/// Every operator node of `t` has two children or more.
pub open spec fn wide(t: ProcessTree) -> bool
    decreases t, 0int,
{
    match t {
        ProcessTree::Activity { .. } => true,
        ProcessTree::Tau => true,
        ProcessTree::Sequence { children } => children.len() >= 2 && all_wide(children@, children.len() as int),
        ProcessTree::Exclusive { children } => children.len() >= 2 && all_wide(children@, children.len() as int),
        ProcessTree::Parallel { children } => children.len() >= 2 && all_wide(children@, children.len() as int),
        ProcessTree::Loop { children } => children.len() >= 2 && all_wide(children@, children.len() as int),
    }
}

/// The first `k` trees of `cs` are wide.
pub open spec fn all_wide(cs: Seq<ProcessTree>, k: int) -> bool
    decreases cs, k,
{
    if !(0 <= k <= cs.len()) {
        false
    } else if k == 0 {
        true
    } else {
        all_wide(cs, k - 1) && wide(cs[k - 1])
    }
}

pub proof fn lemma_all_wide(cs: Seq<ProcessTree>, k: int, i: int)
    requires
        all_wide(cs, k),
        0 <= i < k,
    ensures
        wide(cs[i]),
    decreases k,
{
    if i < k - 1 {
        lemma_all_wide(cs, k - 1, i);
    }
}

pub proof fn lemma_all_wide_from(cs: Seq<ProcessTree>, k: int)
    requires
        0 <= k <= cs.len(),
        forall|i: int| 0 <= i < k ==> #[trigger] wide(cs[i]),
    ensures
        all_wide(cs, k),
    decreases k,
{
    if k > 0 {
        lemma_all_wide_from(cs, k - 1);
        assert(wide(cs[k - 1]));
    }
}

/// No activity labels two of the children.
pub open spec fn disjoint_children(children: Seq<ProcessTree>) -> bool {
    forall|i: int, j: int, x: Seq<char>|
        0 <= i < j < children.len() && #[trigger] has_label(children[i], x) ==> !#[trigger] has_label(children[j], x)
}

} // verus!
