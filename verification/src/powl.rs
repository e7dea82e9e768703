//! POWL models: process trees whose sequence and parallel operators are
//! generalized to partial orders over the children.
use vstd::prelude::*;

verus! {

/// A POWL model node.
#[derive(Debug)]
pub enum Powl {
    /// A leaf activity.
    Activity { label: String },
    /// The silent step.
    Tau,
    /// Exactly one child happens.
    Exclusive { children: Vec<Powl> },
    /// `children[0]` is the body; the rest are redo parts.
    Loop { children: Vec<Powl> },
    /// Every child happens exactly once. `order` lists `(i, j)` pairs:
    /// child `i` completes before child `j` starts; unordered children
    /// interleave freely.
    PartialOrder { children: Vec<Powl>, order: Vec<(usize, usize)> },
}

/// Activity `x` labels some leaf of `p`.
pub open spec fn powl_label(p: Powl, x: Seq<char>) -> bool
    decreases p, 0int,
{
    match p {
        Powl::Activity { label } => label@ == x,
        Powl::Tau => false,
        Powl::Exclusive { children } => powl_labels_in(children@, children.len() as int, x),
        Powl::Loop { children } => powl_labels_in(children@, children.len() as int, x),
        Powl::PartialOrder { children, .. } => powl_labels_in(children@, children.len() as int, x),
    }
}

/// Activity `x` labels a leaf of one of the first `k` models of `cs`.
pub open spec fn powl_labels_in(cs: Seq<Powl>, k: int, x: Seq<char>) -> bool
    decreases cs, k,
{
    if !(0 < k <= cs.len()) {
        false
    } else {
        powl_labels_in(cs, k - 1, x) || powl_label(cs[k - 1], x)
    }
}

/// The number of nodes of `p`.
pub open spec fn powl_size(p: Powl) -> nat
    decreases p, 0int,
{
    match p {
        Powl::Activity { .. } => 1,
        Powl::Tau => 1,
        Powl::Exclusive { children } => 1 + powl_sizes(children@, children.len() as int),
        Powl::Loop { children } => 1 + powl_sizes(children@, children.len() as int),
        Powl::PartialOrder { children, .. } => 1 + powl_sizes(children@, children.len() as int),
    }
}

/// The number of nodes of the first `k` models of `cs`.
pub open spec fn powl_sizes(cs: Seq<Powl>, k: int) -> nat
    decreases cs, k,
{
    if !(0 < k <= cs.len()) {
        0
    } else {
        powl_sizes(cs, k - 1) + powl_size(cs[k - 1])
    }
}

/// Every operator of `p` has two or more children.
pub open spec fn powl_wide(p: Powl) -> bool
    decreases p, 0int,
{
    match p {
        Powl::Activity { .. } => true,
        Powl::Tau => true,
        Powl::Exclusive { children } => children.len() >= 2 && powl_all_wide(children@, children.len() as int),
        Powl::Loop { children } => children.len() >= 2 && powl_all_wide(children@, children.len() as int),
        Powl::PartialOrder { children, .. } => children.len() >= 2 && powl_all_wide(children@, children.len() as int),
    }
}

/// The first `k` models of `cs` are wide.
pub open spec fn powl_all_wide(cs: Seq<Powl>, k: int) -> bool
    decreases cs, k,
{
    if !(0 <= k <= cs.len()) {
        false
    } else if k == 0 {
        true
    } else {
        powl_all_wide(cs, k - 1) && powl_wide(cs[k - 1])
    }
}

pub proof fn lemma_powl_all_wide(cs: Seq<Powl>, k: int, i: int)
    requires
        powl_all_wide(cs, k),
        0 <= i < k,
    ensures
        powl_wide(cs[i]),
    decreases k,
{
    if i < k - 1 {
        lemma_powl_all_wide(cs, k - 1, i);
    }
}

pub proof fn lemma_powl_all_wide_from(cs: Seq<Powl>, k: int)
    requires
        0 <= k <= cs.len(),
        forall|i: int| 0 <= i < k ==> #[trigger] powl_wide(cs[i]),
    ensures
        powl_all_wide(cs, k),
    decreases k,
{
    if k > 0 {
        lemma_powl_all_wide_from(cs, k - 1);
        assert(powl_wide(cs[k - 1]));
    }
}

/// Children of every operator have disjoint alphabets, every loop has a
/// body, and every ordered pair names two children. The miner guarantees
/// all three.
pub open spec fn powl_partitioned(p: Powl) -> bool
    decreases p, 0int,
{
    match p {
        Powl::Activity { .. } => true,
        Powl::Tau => true,
        Powl::Exclusive { children } => powl_disjoint(children@) && powl_all_partitioned(children@, children.len() as int),
        Powl::Loop { children } => children.len() >= 1 && powl_disjoint(children@) && powl_all_partitioned(
            children@,
            children.len() as int,
        ),
        Powl::PartialOrder { children, order } => powl_disjoint(children@) && powl_all_partitioned(
            children@,
            children.len() as int,
        ) && forall|k: int| 0 <= k < order.len() ==> (#[trigger] order@[k]).0 < children.len() && order@[k].1 < children.len(),
    }
}

/// The first `k` models of `cs` are partitioned.
pub open spec fn powl_all_partitioned(cs: Seq<Powl>, k: int) -> bool
    decreases cs, k,
{
    if !(0 <= k <= cs.len()) {
        false
    } else if k == 0 {
        true
    } else {
        powl_all_partitioned(cs, k - 1) && powl_partitioned(cs[k - 1])
    }
}

/// No activity labels two of the children.
pub open spec fn powl_disjoint(children: Seq<Powl>) -> bool {
    forall|i: int, j: int, x: Seq<char>|
        0 <= i < j < children.len() && #[trigger] powl_label(children[i], x) ==> !#[trigger] powl_label(children[j], x)
}

pub proof fn lemma_powl_labels_in(cs: Seq<Powl>, k: int, x: Seq<char>)
    requires
        0 <= k <= cs.len(),
    ensures
        powl_labels_in(cs, k, x) == exists|i: int| 0 <= i < k && #[trigger] powl_label(cs[i], x),
    decreases k,
{
    if k > 0 {
        lemma_powl_labels_in(cs, k - 1, x);
        if powl_label(cs[k - 1], x) {
            assert(0 <= k - 1 < k && powl_label(cs[k - 1], x));
        }
        if exists|i: int| 0 <= i < k && #[trigger] powl_label(cs[i], x) {
            let i = choose|i: int| 0 <= i < k && #[trigger] powl_label(cs[i], x);
            if i < k - 1 {
                assert(exists|i2: int| 0 <= i2 < k - 1 && #[trigger] powl_label(cs[i2], x));
            }
        }
    }
}

pub proof fn lemma_powl_all_partitioned(cs: Seq<Powl>, k: int, i: int)
    requires
        powl_all_partitioned(cs, k),
        0 <= i < k,
    ensures
        powl_partitioned(cs[i]),
    decreases k,
{
    if i < k - 1 {
        lemma_powl_all_partitioned(cs, k - 1, i);
    }
}

} // verus!
