//! Compiled process models and their exact languages.
//!
//! Process trees and POWL models compile to one shape: activity leaves over
//! interned symbols, the silent step, exclusive choices, loops and
//! partial-order nodes (a sequence is a partial order that is total, a
//! parallel node one that is empty). Every operator routes each symbol to the
//! child that owns it (the miners' cuts partition the alphabet), so
//! membership is decided by routing, not by a token game:
//! - a choice accepts a word all of whose symbols one child owns and accepts;
//! - a partial order accepts a word whose symbols it all owns, whose ordered
//!   children do not overlap in time, and whose projection on every child
//!   that child accepts;
//! - a loop accepts body (redo body)*, each instance spanning symbols its
//!   part owns.
use vstd::prelude::*;

verus! {

/// A compiled node.
pub enum Kind {
    Activity(usize),
    Tau,
    Exclusive(Vec<usize>),
    /// `children[0]` is the body; the rest are redo parts.
    Loop(Vec<usize>),
    /// Children and the closed order: `before[i][j]` when child `i` must
    /// complete before child `j` starts.
    Po(Vec<usize>, Vec<Vec<bool>>),
}

/// The nodes of a compiled model, in post-order (children before parents).
pub struct Nodes {
    pub kinds: Vec<Kind>,
    /// Per node and symbol: the child owning the symbol (none for leaves).
    pub owner: Vec<Vec<Option<usize>>>,
}

/// A compiled model: its nodes, and per node whether it accepts the empty
/// word.
pub struct Compiled {
    pub nodes: Nodes,
    pub nullable: Vec<bool>,
}

/// Per-child projection of a word and first/last positions of each child.
pub struct Projections {
    pub parts: Vec<Vec<usize>>,
    pub first: Vec<Option<usize>>,
    pub last: Vec<Option<usize>>,
}

impl Nodes {
    /// The child of node `x` owning symbol `s`.
    pub open spec fn own(&self, x: int, s: usize) -> Option<usize> {
        if (s as int) < self.owner[x].len() {
            self.owner[x][s as int]
        } else {
            None
        }
    }

    /// Positions `from..to` of `w` are all owned by child `i` of node `x`.
    pub open spec fn owned_run(&self, x: int, w: Seq<usize>, i: int, from: int, to: int) -> bool {
        forall|j: int| from <= j < to ==> #[trigger] self.own(x, w[j]) == Some(i as usize)
    }

    /// The symbols of `w` that child `i` of node `x` owns, in order.
    pub open spec fn proj(&self, x: int, w: Seq<usize>, i: int) -> Seq<usize>
        decreases w.len(),
    {
        if w.len() == 0 {
            Seq::empty()
        } else if self.own(x, w.last()) == Some(i as usize) {
            self.proj(x, w.drop_last(), i).push(w.last())
        } else {
            self.proj(x, w.drop_last(), i)
        }
    }

    pub open spec fn children(&self, x: int) -> Seq<usize> {
        match self.kinds[x] {
            Kind::Exclusive(ch) => ch@,
            Kind::Loop(ch) => ch@,
            Kind::Po(ch, _) => ch@,
            _ => Seq::empty(),
        }
    }

    /// Node `x` accepts word `w`.
    pub open spec fn accepts_spec(&self, x: int, w: Seq<usize>) -> bool
        decreases x, w.len() + 2, 0int, 0int,
    {
        if !(0 <= x < self.kinds.len()) {
            false
        } else {
            match self.kinds[x] {
                Kind::Activity(a) => w == seq![a],
                Kind::Tau => w.len() == 0,
                Kind::Exclusive(ch) => if w.len() == 0 {
                    self.any_nullable(x, ch.len() as int)
                } else {
                    match self.own(x, w[0]) {
                        Some(i) => i < ch.len() && ch@[i as int] < x && self.owned_run(x, w, i as int, 0, w.len() as int)
                            && self.accepts_spec(ch@[i as int] as int, w),
                        None => false,
                    }
                },
                Kind::Loop(_) => self.loop_ok(x, w, w.len() as int),
                Kind::Po(ch, before) => {
                    &&& forall|k: int|
                        0 <= k < w.len() ==> (#[trigger] self.own(x, w[k]) matches Some(i) && i < ch.len())
                    &&& forall|i: int, j: int, k1: int, k2: int|
                        0 <= i < ch.len() && 0 <= j < ch.len() && #[trigger] before@[i]@[j] && 0 <= k1 < w.len()
                            && 0 <= k2 < w.len() && #[trigger] self.own(x, w[k1]) == Some(i as usize)
                            && #[trigger] self.own(x, w[k2]) == Some(j as usize) ==> k1 <= k2
                    &&& self.all_children(x, w, ch.len() as int)
                },
            }
        }
    }

    /// One of the first `k` children of node `x` accepts the empty word.
    pub open spec fn any_nullable(&self, x: int, k: int) -> bool
        decreases x, 0int, k, 0int,
    {
        let ch = self.children(x);
        if !(0 <= x < self.kinds.len() && 0 < k <= ch.len()) {
            false
        } else {
            self.any_nullable(x, k - 1) || (ch[k - 1] < x && self.accepts_spec(ch[k - 1] as int, Seq::empty()))
        }
    }

    /// Each of the first `k` children of node `x` accepts its projection of
    /// `w`.
    pub open spec fn all_children(&self, x: int, w: Seq<usize>, k: int) -> bool
        decreases x, 0int, k, 0int,
    {
        let ch = self.children(x);
        if !(0 <= x < self.kinds.len() && 0 <= k <= ch.len()) {
            false
        } else if k == 0 {
            true
        } else {
            self.all_children(x, w, k - 1) && ch[k - 1] < x && self.accepts_spec(
                ch[k - 1] as int,
                self.proj(x, w, k - 1),
            )
        }
    }

    /// One of the redo parts among children `1..r` of loop `x` accepts the
    /// empty word.
    pub open spec fn redo_nullable(&self, x: int, r: int) -> bool
        decreases x, 0int, r, 0int,
    {
        let ch = self.children(x);
        if !(0 <= x < self.kinds.len() && 1 < r <= ch.len()) {
            false
        } else {
            self.redo_nullable(x, r - 1) || (ch[r - 1] < x && self.accepts_spec(ch[r - 1] as int, Seq::empty()))
        }
    }

    /// Loop node `x` parses the first `m` symbols of `w` as
    /// body (redo body)*.
    pub open spec fn loop_ok(&self, x: int, w: Seq<usize>, m: int) -> bool
        decreases x, m + 1, m + 1, 0int,
    {
        let ch = self.children(x);
        if !(0 <= x < self.kinds.len() && 0 <= m <= w.len() && self.kinds[x] is Loop && ch.len() >= 1 && ch[0] < x) {
            false
        } else {
            (self.owned_run(x, w, 0, 0, m) && self.accepts_spec(ch[0] as int, w.take(m))) || self.step_from(
                x,
                w,
                m,
                m,
            )
        }
    }

    /// Some `i2 < i` parses (`loop_ok`) and is followed by a redo and a body
    /// instance ending at `m`.
    pub open spec fn step_from(&self, x: int, w: Seq<usize>, m: int, i: int) -> bool
        decreases x, m + 1, i, 1int,
    {
        if !(0 < i <= m) {
            false
        } else {
            self.step_from(x, w, m, i - 1) || (self.loop_ok(x, w, i - 1) && self.split_at(x, w, i - 1, m, m + 1))
        }
    }

    /// Some `k2` in `i..k` has a redo instance at `i..k2` and a body
    /// instance at `k2..m`.
    pub open spec fn split_at(&self, x: int, w: Seq<usize>, i: int, m: int, k: int) -> bool
        decreases x, m + 1, i, k,
    {
        if !(0 <= i < m && i < k <= m + 1) {
            false
        } else {
            self.split_at(x, w, i, m, k - 1) || (self.redo_part(x, w, i, k - 1) && self.body_part(x, w, k - 1, m))
        }
    }

    /// Positions `i..k` of `w` are one instance of a redo part of loop `x`.
    pub open spec fn redo_part(&self, x: int, w: Seq<usize>, i: int, k: int) -> bool
        decreases x, 1int, 0int, 0int,
    {
        let ch = self.children(x);
        if !(0 <= x < self.kinds.len() && 0 <= i <= k <= w.len()) {
            false
        } else if k == i {
            self.redo_nullable(x, ch.len() as int)
        } else {
            match self.own(x, w[i]) {
                Some(r) => 1 <= r < ch.len() && ch[r as int] < x && self.owned_run(x, w, r as int, i, k)
                    && self.accepts_spec(ch[r as int] as int, w.subrange(i, k)),
                None => false,
            }
        }
    }

    /// Positions `k..m` of `w` are one instance of the body of loop `x`.
    pub open spec fn body_part(&self, x: int, w: Seq<usize>, k: int, m: int) -> bool
        decreases x, 1int, 0int, 0int,
    {
        let ch = self.children(x);
        if !(0 <= x < self.kinds.len() && 0 <= k <= m <= w.len() && ch.len() >= 1 && ch[0] < x) {
            false
        } else {
            self.owned_run(x, w, 0, k, m) && self.accepts_spec(ch[0] as int, w.subrange(k, m))
        }
    }

    /// Some child after child `i` in the order of node `x` has symbols in `w`.
    pub open spec fn successor_started(&self, x: int, w: Seq<usize>, i: int) -> bool {
        match self.kinds[x] {
            Kind::Po(ch, before) => exists|j: int|
                0 <= j < ch.len() && #[trigger] before@[i]@[j] && self.proj(x, w, j).len() > 0,
            _ => false,
        }
    }

    /// `w` is a prefix that node `x` can still complete, by the same routing:
    /// a started successor seals a child, which must then be complete (or
    /// skippable when it never started); other children need only be
    /// completable.
    pub open spec fn prefix_spec(&self, x: int, w: Seq<usize>) -> bool
        decreases x, 3int, 0int,
    {
        if !(0 <= x < self.kinds.len()) {
            false
        } else if w.len() == 0 {
            true
        } else {
            match self.kinds[x] {
                Kind::Activity(a) => w == seq![a],
                Kind::Tau => false,
                Kind::Exclusive(ch) => match self.own(x, w[0]) {
                    Some(i) => i < ch.len() && ch@[i as int] < x && self.owned_run(x, w, i as int, 0, w.len() as int)
                        && self.prefix_spec(ch@[i as int] as int, w),
                    None => false,
                },
                Kind::Loop(_) => self.prefix_loop_spec(x, w),
                Kind::Po(ch, before) => {
                    &&& forall|k: int|
                        0 <= k < w.len() ==> (#[trigger] self.own(x, w[k]) matches Some(i) && i < ch.len())
                    &&& forall|i: int, j: int, k1: int, k2: int|
                        0 <= i < ch.len() && 0 <= j < ch.len() && #[trigger] before@[i]@[j] && 0 <= k1 < w.len()
                            && 0 <= k2 < w.len() && #[trigger] self.own(x, w[k1]) == Some(i as usize)
                            && #[trigger] self.own(x, w[k2]) == Some(j as usize) ==> k1 <= k2
                    &&& self.po_prefix_all(x, w, ch.len() as int)
                },
            }
        }
    }

    /// Each of the first `k` children of partial order `x` is in a state
    /// that `w` allows.
    pub open spec fn po_prefix_all(&self, x: int, w: Seq<usize>, k: int) -> bool
        decreases x, 1int, k,
    {
        let ch = self.children(x);
        if !(0 <= x < self.kinds.len() && 0 <= k <= ch.len()) {
            false
        } else if k == 0 {
            true
        } else {
            let i = k - 1;
            let part = self.proj(x, w, i);
            let sealed = self.successor_started(x, w, i);
            &&& self.po_prefix_all(x, w, k - 1)
            &&& ch[i] < x
            &&& if part.len() == 0 {
                sealed ==> self.accepts_spec(ch[i] as int, part)
            } else if sealed {
                self.accepts_spec(ch[i] as int, part)
            } else {
                self.prefix_spec(ch[i] as int, part)
            }
        }
    }

    /// Loop `x` can still complete `w`: inside the first body instance, after
    /// a complete parse, or inside a redo instance or the body that follows
    /// it.
    pub open spec fn prefix_loop_spec(&self, x: int, w: Seq<usize>) -> bool
        decreases x, 2int, 0int,
    {
        let ch = self.children(x);
        if !(0 <= x < self.kinds.len() && ch.len() >= 1 && ch[0] < x) {
            false
        } else {
            ||| self.prefix_spec(ch[0] as int, w)
            ||| self.loop_ok(x, w, w.len() as int)
            ||| self.resume_any(x, w, w.len() as int)
        }
    }

    /// Some `j < k` is parsed and continued by a partial redo, or by a
    /// complete redo and a partial body.
    pub open spec fn resume_any(&self, x: int, w: Seq<usize>, k: int) -> bool
        decreases x, 1int, k,
    {
        let ch = self.children(x);
        if !(0 <= x < self.kinds.len() && 0 < k <= w.len() && ch.len() >= 1 && ch[0] < x) {
            false
        } else {
            let j = k - 1;
            let rest = w.subrange(j, w.len() as int);
            ||| self.resume_any(x, w, k - 1)
            ||| self.loop_ok(x, w, j) && ((self.redo_nullable(x, ch.len() as int) && self.prefix_spec(ch[0] as int, rest))
                || match self.own(x, w[j]) {
                Some(c) => 1 <= c < ch.len() && ch[c as int] < x && (self.prefix_spec(ch[c as int] as int, rest)
                    || self.resume_body(x, w, j, c as int, w.len() as int + 1)),
                None => false,
            })
        }
    }

    /// Some `k2` in `j + 1..k` has a complete instance of redo part `c` at
    /// `j..k2` and a partial body after it.
    pub open spec fn resume_body(&self, x: int, w: Seq<usize>, j: int, c: int, k: int) -> bool
        decreases x, 0int, k,
    {
        let ch = self.children(x);
        if !(0 <= x < self.kinds.len() && 0 <= j < k - 1 && k <= w.len() + 1 && ch.len() >= 1 && ch[0] < x
            && 0 <= c < ch.len() && ch[c] < x) {
            false
        } else {
            let k2 = k - 1;
            ||| self.resume_body(x, w, j, c, k - 1)
            ||| self.owned_run(x, w, c, j, k2) && self.accepts_spec(ch[c] as int, w.subrange(j, k2)) && self.prefix_spec(
                ch[0] as int,
                w.subrange(k2, w.len() as int),
            )
        }
    }

    /// Positions `i..k` are all owned by `owner`.
    pub open spec fn run_from(&self, owner: Option<usize>, x: int, w: Seq<usize>, i: int, k: int) -> bool {
        match owner {
            Some(c) => self.owned_run(x, w, c as int, i, k),
            None => false,
        }
    }

    /// Children come before their parents, owners name existing children,
    /// partial orders are square.
    pub open spec fn wf(&self) -> bool {
        &&& self.owner.len() == self.kinds.len()
        &&& forall|x: int, i: int|
            0 <= x < self.kinds.len() && 0 <= i < self.children(x).len() ==> #[trigger] self.children(x)[i] < x
        &&& forall|x: int| 0 <= x < self.kinds.len() ==> (#[trigger] self.kinds[x] matches Kind::Loop(ch) ==> ch.len() >= 1)
        &&& forall|x: int|
            0 <= x < self.kinds.len() ==> (#[trigger] self.kinds[x] matches Kind::Po(ch, before) ==> {
                &&& before.len() == ch.len()
                &&& forall|i: int| 0 <= i < ch.len() ==> #[trigger] before@[i].len() == ch.len()
            })
        &&& forall|x: int, s: int|
            0 <= x < self.kinds.len() && 0 <= s < self.owner[x].len() ==> (#[trigger] self.owner[x][s] matches Some(
                i,
            ) ==> i < self.children(x).len())
    }
}

impl Compiled {
    /// Well-formed nodes, and `nullable` is acceptance of the empty word.
    pub open spec fn wf(&self) -> bool {
        &&& self.nodes.wf()
        &&& self.nullable.len() == self.nodes.kinds.len()
        &&& forall|x: int| 0 <= x < self.nodes.kinds.len() ==> #[trigger] self.nullable[x] == self.nodes.accepts_spec(x, Seq::empty())
    }
}

/// `w[from..to]` as a new vector.
pub fn slice_of(w: &Vec<usize>, from: usize, to: usize) -> (r: Vec<usize>)
    requires
        from <= to <= w.len(),
    ensures
        r@ == w@.subrange(from as int, to as int),
{
    let mut r: Vec<usize> = Vec::new();
    let mut k = from;
    while k < to
        invariant
            from <= k <= to <= w.len(),
            r@ == w@.subrange(from as int, k as int),
        decreases to - k,
    {
        r.push(w[k]);
        k = k + 1;
    }
    r
}

/// Positions of child `i` in `w`: `first`/`last` are the first and last.
pub open spec fn first_ok(c: Nodes, x: int, w: Seq<usize>, i: int, first: Option<usize>) -> bool {
    match first {
        None => forall|k: int| 0 <= k < w.len() ==> #[trigger] c.own(x, w[k]) != Some(i as usize),
        Some(f) => f < w.len() && c.own(x, w[f as int]) == Some(i as usize) && forall|k: int|
            0 <= k < f ==> #[trigger] c.own(x, w[k]) != Some(i as usize),
    }
}

pub open spec fn last_ok(c: Nodes, x: int, w: Seq<usize>, i: int, last: Option<usize>) -> bool {
    match last {
        None => forall|k: int| 0 <= k < w.len() ==> #[trigger] c.own(x, w[k]) != Some(i as usize),
        Some(l) => l < w.len() && c.own(x, w[l as int]) == Some(i as usize) && forall|k: int|
            l < k < w.len() ==> #[trigger] c.own(x, w[k]) != Some(i as usize),
    }
}

/// `p` projects `w` on the `nc` children of node `x`.
pub open spec fn projects(c: Nodes, x: int, nc: int, w: Seq<usize>, p: Projections) -> bool {
    &&& p.parts.len() == nc
    &&& p.first.len() == nc
    &&& p.last.len() == nc
    &&& forall|i: int| 0 <= i < nc ==> #[trigger] p.parts[i]@ == c.proj(x, w, i)
    &&& forall|i: int| 0 <= i < nc ==> first_ok(c, x, w, i, #[trigger] p.first[i])
    &&& forall|i: int| 0 <= i < nc ==> last_ok(c, x, w, i, #[trigger] p.last[i])
}

pub proof fn lemma_proj_push(c: Nodes, x: int, w: Seq<usize>, k: int, i: int)
    requires
        0 <= k < w.len(),
    ensures
        c.proj(x, w.take(k + 1), i) == if c.own(x, w[k]) == Some(i as usize) {
            c.proj(x, w.take(k), i).push(w[k])
        } else {
            c.proj(x, w.take(k), i)
        },
{
    assert(w.take(k + 1).drop_last() =~= w.take(k));
}

/// The order between children `i` and `j` holds in `p`.
pub open spec fn pair_ok(before: Seq<Vec<bool>>, p: Projections, i: int, j: int) -> bool {
    before[i]@[j] ==> match (p.last[i], p.first[j]) {
        (Some(li), Some(fj)) => li <= fj,
        _ => true,
    }
}

impl Compiled {
    /// The child of node `x` owning symbol `s`.
    pub fn owner_of(&self, x: usize, s: usize) -> (r: Option<usize>)
        requires
            x < self.nodes.owner.len(),
        ensures
            r == self.nodes.own(x as int, s),
    {
        let row = &self.nodes.owner[x];
        if s < row.len() {
            row[s]
        } else {
            None
        }
    }

    /// Route every symbol of `w` to its child among the `nc` children of
    /// node `x`; none when some symbol has no owner.
    pub fn project(&self, x: usize, nc: usize, w: &Vec<usize>) -> (r: Option<Projections>)
        requires
            self.wf(),
            x < self.nodes.kinds.len(),
            nc == self.nodes.children(x as int).len(),
        ensures
            match r {
                None => exists|k: int| 0 <= k < w.len() && #[trigger] self.nodes.own(x as int, w[k]) is None,
                Some(p) => (forall|k: int| 0 <= k < w.len() ==> #[trigger] self.nodes.own(x as int, w[k]) is Some) && projects(
                    self.nodes,
                    x as int,
                    nc as int,
                    w@,
                    p,
                ),
            },
    {
        let mut parts: Vec<Vec<usize>> = Vec::new();
        let mut first: Vec<Option<usize>> = Vec::new();
        let mut last: Vec<Option<usize>> = Vec::new();
        for i in 0..nc
            invariant
                parts.len() == i,
                first.len() == i,
                last.len() == i,
                forall|j: int| 0 <= j < i ==> #[trigger] parts[j]@.len() == 0,
                forall|j: int| 0 <= j < i ==> #[trigger] first[j] is None,
                forall|j: int| 0 <= j < i ==> #[trigger] last[j] is None,
        {
            parts.push(Vec::new());
            first.push(None);
            last.push(None);
        }
        let n = w.len();
        for k in 0..n
            invariant
                self.wf(),
                x < self.nodes.kinds.len(),
                nc == self.nodes.children(x as int).len(),
                n == w.len(),
                parts.len() == nc,
                first.len() == nc,
                last.len() == nc,
                forall|j: int| 0 <= j < k ==> #[trigger] self.nodes.own(x as int, w[j]) is Some,
                forall|i: int| 0 <= i < nc ==> #[trigger] parts[i]@ == self.nodes.proj(x as int, w@.take(k as int), i),
                forall|i: int| 0 <= i < nc ==> first_ok(self.nodes, x as int, w@.take(k as int), i, #[trigger] first[i]),
                forall|i: int| 0 <= i < nc ==> last_ok(self.nodes, x as int, w@.take(k as int), i, #[trigger] last[i]),
        {
            let s = w[k];
            let child = match self.owner_of(x, s) {
                None => {
                    return None;
                },
                Some(c) => c,
            };
            proof {
                assert(self.nodes.owner[x as int][s as int] == Some(child));
            }
            let ghost parts0 = parts@;
            let ghost first0 = first@;
            let ghost last0 = last@;
            let mut row: Vec<usize> = Vec::new();
            std::mem::swap(&mut row, &mut parts[child]);
            row.push(s);
            parts.set(child, row);
            if first[child].is_none() {
                first.set(child, Some(k));
            }
            last.set(child, Some(k));
            proof {
                let wk = w@.take(k as int);
                let wk1 = w@.take(k as int + 1);
                assert forall|i: int| 0 <= i < nc implies #[trigger] parts[i]@ == self.nodes.proj(x as int, wk1, i) by {
                    lemma_proj_push(self.nodes, x as int, w@, k as int, i);
                    if i != child as int {
                        assert(parts[i] == parts0[i]);
                    }
                }
                assert forall|i: int| 0 <= i < nc implies first_ok(self.nodes, x as int, wk1, i, #[trigger] first[i]) by {
                    assert(first_ok(self.nodes, x as int, wk, i, first0[i]));
                    assert(wk1[k as int] == s);
                    assert forall|j: int| 0 <= j < k implies wk1[j] == wk[j] by {}
                }
                assert forall|i: int| 0 <= i < nc implies last_ok(self.nodes, x as int, wk1, i, #[trigger] last[i]) by {
                    assert(last_ok(self.nodes, x as int, wk, i, last0[i]));
                    assert(wk1[k as int] == s);
                    assert forall|j: int| 0 <= j < k implies wk1[j] == wk[j] by {}
                }
            }
        }
        proof {
            assert(w@.take(n as int) =~= w@);
        }
        Some(Projections { parts, first, last })
    }

    /// Every ordered pair of children with events on both sides is fully
    /// sequential: the earlier child's last event precedes the later
    /// child's first.
    pub fn order_respected(before: &Vec<Vec<bool>>, p: &Projections) -> (r: bool)
        requires
            before.len() == p.first.len(),
            p.last.len() == p.first.len(),
            forall|i: int| 0 <= i < before.len() ==> #[trigger] before[i].len() == before.len(),
        ensures
            r == forall|i: int, j: int|
                0 <= i < before.len() && 0 <= j < before.len() ==> #[trigger] pair_ok(before@, *p, i, j),
    {
        let n = before.len();
        for i in 0..n
            invariant
                n == before.len(),
                before.len() == p.first.len(),
                p.last.len() == p.first.len(),
                forall|i2: int| 0 <= i2 < before.len() ==> #[trigger] before[i2].len() == before.len(),
                forall|i2: int, j: int| 0 <= i2 < i && 0 <= j < n ==> #[trigger] pair_ok(before@, *p, i2, j),
        {
            assert(before[i as int].len() == n);
            for j in 0..n
                invariant
                    n == before.len(),
                    i < n,
                    before[i as int].len() == n,
                    before.len() == p.first.len(),
                    p.last.len() == p.first.len(),
                    forall|i2: int| 0 <= i2 < before.len() ==> #[trigger] before[i2].len() == before.len(),
                    forall|i2: int, j2: int| 0 <= i2 < i && 0 <= j2 < n ==> #[trigger] pair_ok(before@, *p, i2, j2),
                    forall|j2: int| 0 <= j2 < j ==> #[trigger] pair_ok(before@, *p, i as int, j2),
            {
                if before[i][j] {
                    if let (Some(li), Some(fj)) = (p.last[i], p.first[j]) {
                        if li > fj {
                            assert(!pair_ok(before@, *p, i as int, j as int));
                            return false;
                        }
                    }
                }
            }
        }
        true
    }
}

impl Compiled {
    /// Does node `x` accept `w`?
    pub fn accepts(&self, x: usize, w: &Vec<usize>) -> (r: bool)
        requires
            self.wf(),
            x < self.nodes.kinds.len(),
            w.len() < usize::MAX,
        ensures
            r == self.nodes.accepts_spec(x as int, w@),
        decreases x, 5int,
    {
        match &self.nodes.kinds[x] {
            Kind::Activity(a) => {
                let r = w.len() == 1 && w[0] == *a;
                proof {
                    if w.len() == 1 {
                        assert(r == (w@ =~= seq![*a]));
                    } else {
                        assert(w@.len() != seq![*a].len());
                    }
                }
                r
            },
            Kind::Tau => w.len() == 0,
            Kind::Exclusive(ch) => {
                proof {
                    assert(self.nodes.children(x as int) == ch@);
                }
                if w.len() == 0 {
                    let mut found = false;
                    let mut i: usize = 0;
                    while i < ch.len()
                        invariant
                            self.wf(),
                            x < self.nodes.kinds.len(),
                            self.nodes.children(x as int) == ch@,
                            0 <= i <= ch.len(),
                            found == self.nodes.any_nullable(x as int, i as int),
                        decreases ch.len() - i,
                    {
                        let c = ch[i];
                        assert(self.nodes.children(x as int)[i as int] == c);
                        found = found || self.nullable[c];
                        i = i + 1;
                    }
                    return found;
                }
                let i = match self.owner_of(x, w[0]) {
                    None => {
                        return false;
                    },
                    Some(i) => i,
                };
                proof {
                    assert(self.nodes.owner[x as int][w[0] as int] == Some(i));
                    assert(self.nodes.children(x as int)[i as int] == ch@[i as int]);
                }
                let mut k: usize = 1;
                while k < w.len()
                    invariant
                        self.wf(),
                        x < self.nodes.kinds.len(),
                        self.nodes.kinds[x as int] == Kind::Exclusive(*ch),
                        self.nodes.children(x as int) == ch@,
                        i < ch.len(),
                        1 <= k <= w.len(),
                        self.nodes.own(x as int, w[0]) == Some(i),
                        self.nodes.owned_run(x as int, w@, i as int, 0, k as int),
                    decreases w.len() - k,
                {
                    match self.owner_of(x, w[k]) {
                        Some(j) => {
                            if j != i {
                                assert(!self.nodes.owned_run(x as int, w@, i as int, 0, w.len() as int)) by {
                                    assert(self.nodes.own(x as int, w[k as int]) != Some(i));
                                }
                                return false;
                            }
                        },
                        None => {
                            assert(!self.nodes.owned_run(x as int, w@, i as int, 0, w.len() as int)) by {
                                assert(self.nodes.own(x as int, w[k as int]) != Some(i));
                            }
                            return false;
                        },
                    }
                    k = k + 1;
                }
                self.accepts(ch[i], w)
            },
            Kind::Loop(ch) => self.accepts_loop(x, ch, w),
            Kind::Po(ch, before) => {
                proof {
                    assert(self.nodes.children(x as int) == ch@);
                    assert(self.nodes.kinds[x as int] matches Kind::Po(c2, b2) && before.len() == ch.len());
                }
                let p = match self.project(x, ch.len(), w) {
                    None => {
                        return false;
                    },
                    Some(p) => p,
                };
                proof {
                    assert forall|k: int| 0 <= k < w.len() implies (#[trigger] self.nodes.own(x as int, w[k]) matches Some(i) && i < ch.len()) by {
                        let s = w[k];
                        assert(self.nodes.owner[x as int][s as int] == self.nodes.own(x as int, s));
                    }
                }
                let ordered = Compiled::order_respected(before, &p);
                proof {
                    lemma_order(self.nodes, x as int, w@, ch.len() as int, before@, p);
                }
                if !ordered {
                    return false;
                }
                let mut i: usize = 0;
                while i < ch.len()
                    invariant
                        self.wf(),
                        x < self.nodes.kinds.len(),
                        self.nodes.kinds[x as int] == Kind::Po(*ch, *before),
                        self.nodes.children(x as int) == ch@,
                        w.len() < usize::MAX,
                        forall|k: int| 0 <= k < w.len() ==> (#[trigger] self.nodes.own(x as int, w[k]) matches Some(i) && i < ch.len()),
                        forall|i2: int, j: int| 0 <= i2 < ch.len() && 0 <= j < ch.len() ==> #[trigger] pair_ok(before@, p, i2, j),
                        (forall|i2: int, j: int| 0 <= i2 < ch.len() && 0 <= j < ch.len() ==> #[trigger] pair_ok(before@, p, i2, j)) <==> (forall|
                            i2: int,
                            j: int,
                            k1: int,
                            k2: int,
                        |
                            0 <= i2 < ch.len() && 0 <= j < ch.len() && #[trigger] before@[i2]@[j] && 0 <= k1 < w.len() && 0 <= k2 < w.len()
                                && #[trigger] self.nodes.own(x as int, w[k1]) == Some(i2 as usize) && #[trigger] self.nodes.own(x as int, w[k2]) == Some(j as usize)
                                ==> k1 <= k2),
                        projects(self.nodes, x as int, ch.len() as int, w@, p),
                        0 <= i <= ch.len(),
                        self.nodes.all_children(x as int, w@, i as int),
                    decreases ch.len() - i,
                {
                    assert(self.nodes.children(x as int)[i as int] == ch@[i as int]);
                    proof {
                        lemma_proj_len(self.nodes, x as int, w@, i as int);
                    }
                    if !self.accepts(ch[i], &p.parts[i]) {
                        proof {
                            if self.nodes.all_children(x as int, w@, ch.len() as int) {
                                lemma_all_children_prefix(self.nodes, x as int, w@, ch.len() as int, i as int + 1);
                            }
                        }
                        return false;
                    }
                    i = i + 1;
                }
                true
            },
        }
    }

    /// Body then (redo body)*, decided over `w`.
    pub fn accepts_loop(&self, x: usize, ch: &Vec<usize>, w: &Vec<usize>) -> (r: bool)
        requires
            self.wf(),
            x < self.nodes.kinds.len(),
            self.nodes.kinds[x as int] == Kind::Loop(*ch),
            w.len() < usize::MAX,
        ensures
            r == self.nodes.accepts_spec(x as int, w@),
        decreases x, 4int,
    {
        let reach = self.loop_reach(x, ch, w);
        reach[w.len()]
    }

    /// Per prefix length `m`: does loop `x` parse `w[..m]`?
    pub fn loop_reach(&self, x: usize, ch: &Vec<usize>, w: &Vec<usize>) -> (reach: Vec<bool>)
        requires
            self.wf(),
            x < self.nodes.kinds.len(),
            self.nodes.kinds[x as int] == Kind::Loop(*ch),
            w.len() < usize::MAX,
        ensures
            reach.len() == w.len() + 1,
            forall|m: int| 0 <= m <= w.len() ==> #[trigger] reach[m] == self.nodes.loop_ok(x as int, w@, m),
        decreases x, 3int,
    {
        proof {
            assert(self.nodes.children(x as int) == ch@);
        }
        let n = w.len();
        let mut redo_nullable = false;
        let mut r: usize = 1;
        while r < ch.len()
            invariant
                self.wf(),
                x < self.nodes.kinds.len(),
                self.nodes.children(x as int) == ch@,
                1 <= r <= ch.len(),
                redo_nullable == self.nodes.redo_nullable(x as int, r as int),
            decreases ch.len() - r,
        {
            let c = ch[r];
            assert(self.nodes.children(x as int)[r as int] == c);
            redo_nullable = redo_nullable || self.nullable[c];
            r = r + 1;
        }
        let mut reach: Vec<bool> = Vec::new();
        let mut m: usize = 0;
        while m <= n
            invariant
                self.wf(),
                x < self.nodes.kinds.len(),
                self.nodes.kinds[x as int] == Kind::Loop(*ch),
                self.nodes.children(x as int) == ch@,
                n == w.len(),
                n < usize::MAX,
                0 <= m <= n + 1,
                reach.len() == m,
                redo_nullable == self.nodes.redo_nullable(x as int, ch.len() as int),
                forall|i: int| 0 <= i < m ==> #[trigger] reach[i] == self.nodes.loop_ok(x as int, w@, i),
            decreases n + 1 - m,
        {
            let ok = self.reach_at(x, ch, w, &reach, m, redo_nullable);
            reach.push(ok);
            m = m + 1;
        }
        reach
    }

    /// Does loop `x` parse `w[..m]`, given the answers for shorter prefixes?
    fn reach_at(&self, x: usize, ch: &Vec<usize>, w: &Vec<usize>, reach: &Vec<bool>, m: usize, redo_nullable: bool) -> (r: bool)
        requires
            self.wf(),
            x < self.nodes.kinds.len(),
            self.nodes.kinds[x as int] == Kind::Loop(*ch),
            m <= w.len(),
            w.len() < usize::MAX,
            reach.len() == m,
            forall|i: int| 0 <= i < m ==> #[trigger] reach[i] == self.nodes.loop_ok(x as int, w@, i),
            redo_nullable == self.nodes.redo_nullable(x as int, ch.len() as int),
        ensures
            r == self.nodes.loop_ok(x as int, w@, m as int),
        decreases x, 2int,
    {
        proof {
            assert(self.nodes.children(x as int) == ch@);
            assert(self.nodes.children(x as int)[0] == ch@[0]);
        }
        let first = self.body_at(x, ch, w, 0, m);
        assert(w@.subrange(0, m as int) =~= w@.take(m as int));
        let mut found = false;
        let mut i: usize = 0;
        while i < m
            invariant
                self.wf(),
                x < self.nodes.kinds.len(),
                self.nodes.kinds[x as int] == Kind::Loop(*ch),
                self.nodes.children(x as int) == ch@,
                m <= w.len(),
                w.len() < usize::MAX,
                reach.len() == m,
                forall|i2: int| 0 <= i2 < m ==> #[trigger] reach[i2] == self.nodes.loop_ok(x as int, w@, i2),
                redo_nullable == self.nodes.redo_nullable(x as int, ch.len() as int),
                0 <= i <= m,
                found == self.nodes.step_from(x as int, w@, m as int, i as int),
            decreases m - i,
        {
            if reach[i] {
                let here = self.split(x, ch, w, i, m, redo_nullable);
                found = found || here;
            }
            i = i + 1;
        }
        first || found
    }

    /// Is there `k` in `i..=m` with a redo instance at `i..k` and a body
    /// instance at `k..m`?
    fn split(&self, x: usize, ch: &Vec<usize>, w: &Vec<usize>, i: usize, m: usize, redo_nullable: bool) -> (r: bool)
        requires
            self.wf(),
            x < self.nodes.kinds.len(),
            self.nodes.kinds[x as int] == Kind::Loop(*ch),
            i < m <= w.len(),
            w.len() < usize::MAX,
            redo_nullable == self.nodes.redo_nullable(x as int, ch.len() as int),
        ensures
            r == self.nodes.split_at(x as int, w@, i as int, m as int, m as int + 1),
        decreases x, 1int,
    {
        proof {
            assert(self.nodes.children(x as int) == ch@);
        }
        let owner = self.owner_of(x, w[i]);
        proof {
            if let Some(c) = owner {
                assert(self.nodes.owner[x as int][w[i as int] as int] == Some(c));
            }
        }
        let mut found = false;
        let mut run = owner.is_some();
        let mut k: usize = i;
        while k <= m
            invariant
                self.wf(),
                x < self.nodes.kinds.len(),
                self.nodes.kinds[x as int] == Kind::Loop(*ch),
                self.nodes.children(x as int) == ch@,
                i < m <= w.len(),
                w.len() < usize::MAX,
                redo_nullable == self.nodes.redo_nullable(x as int, ch.len() as int),
                owner == self.nodes.own(x as int, w[i as int]),
                i <= k <= m + 1,
                found == self.nodes.split_at(x as int, w@, i as int, m as int, k as int),
                k > i ==> run == self.nodes.run_from(owner, x as int, w@, i as int, k as int - 1),
                k == i ==> run == owner is Some,
            decreases m + 1 - k,
        {
            if k > i {
                if let Some(c) = owner {
                    let next = match self.owner_of(x, w[k - 1]) {
                        Some(d) => d == c,
                        None => false,
                    };
                    let ghost run0 = run;
                    run = run && next;
                    proof {
                        assert(run0 == self.nodes.owned_run(x as int, w@, c as int, i as int, k as int - 1));
                        assert(next == (self.nodes.own(x as int, w@[k - 1]) == Some(c)));
                        if self.nodes.owned_run(x as int, w@, c as int, i as int, k as int - 1) && self.nodes.own(x as int, w@[k - 1]) == Some(c) {
                            assert forall|j: int| i <= j < k implies #[trigger] self.nodes.own(x as int, w@[j]) == Some(c) by {
                                if j < k - 1 {
                                    assert(self.nodes.own(x as int, w@[j]) == Some(c));
                                }
                            }
                        }
                        if self.nodes.owned_run(x as int, w@, c as int, i as int, k as int) {
                            assert(self.nodes.own(x as int, w@[k - 1]) == Some(c));
                        }
                        assert(run == self.nodes.owned_run(x as int, w@, c as int, i as int, k as int));
                    }
                }
            } else {
                proof {
                    if let Some(c) = owner {
                        assert(self.nodes.owned_run(x as int, w@, c as int, i as int, i as int));
                    }
                }
            }
            let redo = if k == i {
                redo_nullable
            } else {
                match owner {
                    Some(c) => {
                        if c >= 1 && c < ch.len() && run {
                            proof {
                                assert(self.nodes.children(x as int)[c as int] == ch@[c as int]);
                            }
                            let part = slice_of(w, i, k);
                            self.accepts(ch[c], &part)
                        } else {
                            false
                        }
                    },
                    None => false,
                }
            };
            proof {
                assert(redo == self.nodes.redo_part(x as int, w@, i as int, k as int));
            }
            let here = redo && self.body_at(x, ch, w, k, m);
            found = found || here;
            k = k + 1;
        }
        found
    }

    /// Do positions `k..m` hold one body instance?
    fn body_at(&self, x: usize, ch: &Vec<usize>, w: &Vec<usize>, k: usize, m: usize) -> (r: bool)
        requires
            self.wf(),
            x < self.nodes.kinds.len(),
            self.nodes.kinds[x as int] == Kind::Loop(*ch),
            k <= m <= w.len(),
            w.len() < usize::MAX,
        ensures
            r == self.nodes.body_part(x as int, w@, k as int, m as int),
        decreases x, 0int,
    {
        proof {
            assert(self.nodes.children(x as int) == ch@);
            assert(self.nodes.children(x as int)[0] == ch@[0]);
        }
        let mut j = k;
        while j < m
            invariant
                self.wf(),
                x < self.nodes.kinds.len(),
                k <= j <= m <= w.len(),
                self.nodes.owned_run(x as int, w@, 0, k as int, j as int),
            decreases m - j,
        {
            match self.owner_of(x, w[j]) {
                Some(c) => {
                    if c != 0 {
                        return false;
                    }
                },
                None => {
                    return false;
                },
            }
            j = j + 1;
        }
        let part = slice_of(w, k, m);
        self.accepts(ch[0], &part)
    }
}

proof fn lemma_all_children_prefix(c: Nodes, x: int, w: Seq<usize>, k: int, k2: int)
    requires
        c.all_children(x, w, k),
        0 <= k2 <= k,
    ensures
        c.all_children(x, w, k2),
    decreases k - k2,
{
    if k2 < k {
        lemma_all_children_prefix(c, x, w, k - 1, k2);
    }
}

impl Compiled {
    /// Is `w` a prefix that node `x` can still complete?
    pub fn prefix_ok(&self, x: usize, w: &Vec<usize>) -> (r: bool)
        requires
            self.wf(),
            x < self.nodes.kinds.len(),
            w.len() < usize::MAX,
        ensures
            r == self.nodes.prefix_spec(x as int, w@),
        decreases x, 3int,
    {
        if w.len() == 0 {
            return true;
        }
        match &self.nodes.kinds[x] {
            Kind::Activity(a) => {
                let r = w.len() == 1 && w[0] == *a;
                proof {
                    if w.len() == 1 {
                        assert(r == (w@ =~= seq![*a]));
                    } else {
                        assert(w@.len() != seq![*a].len());
                    }
                }
                r
            },
            Kind::Tau => false,
            Kind::Exclusive(ch) => {
                proof {
                    assert(self.nodes.children(x as int) == ch@);
                }
                let i = match self.owner_of(x, w[0]) {
                    None => {
                        return false;
                    },
                    Some(i) => i,
                };
                proof {
                    assert(self.nodes.owner[x as int][w[0] as int] == Some(i));
                    assert(self.nodes.children(x as int)[i as int] == ch@[i as int]);
                }
                let mut k: usize = 1;
                while k < w.len()
                    invariant
                        self.wf(),
                        x < self.nodes.kinds.len(),
                        self.nodes.kinds[x as int] == Kind::Exclusive(*ch),
                        self.nodes.children(x as int) == ch@,
                        i < ch.len(),
                        1 <= k <= w.len(),
                        self.nodes.own(x as int, w[0]) == Some(i),
                        self.nodes.owned_run(x as int, w@, i as int, 0, k as int),
                    decreases w.len() - k,
                {
                    let same = match self.owner_of(x, w[k]) {
                        Some(j) => j == i,
                        None => false,
                    };
                    if !same {
                        assert(!self.nodes.owned_run(x as int, w@, i as int, 0, w.len() as int)) by {
                            assert(self.nodes.own(x as int, w[k as int]) != Some(i));
                        }
                        return false;
                    }
                    k = k + 1;
                }
                self.prefix_ok(ch[i], w)
            },
            Kind::Loop(ch) => self.prefix_loop(x, ch, w),
            Kind::Po(ch, before) => {
                proof {
                    assert(self.nodes.children(x as int) == ch@);
                    assert(self.nodes.kinds[x as int] matches Kind::Po(c2, b2) && before.len() == ch.len());
                }
                let p = match self.project(x, ch.len(), w) {
                    None => {
                        return false;
                    },
                    Some(p) => p,
                };
                proof {
                    assert forall|k: int| 0 <= k < w.len() implies (#[trigger] self.nodes.own(x as int, w[k]) matches Some(i) && i < ch.len()) by {
                        let s = w[k];
                        assert(self.nodes.owner[x as int][s as int] == self.nodes.own(x as int, s));
                    }
                }
                let ordered = Compiled::order_respected(before, &p);
                proof {
                    lemma_order(self.nodes, x as int, w@, ch.len() as int, before@, p);
                }
                if !ordered {
                    return false;
                }
                let n = ch.len();
                let mut i: usize = 0;
                while i < n
                    invariant
                        self.wf(),
                        x < self.nodes.kinds.len(),
                        self.nodes.kinds[x as int] == Kind::Po(*ch, *before),
                        self.nodes.children(x as int) == ch@,
                        n == ch.len(),
                        before.len() == n,
                        w.len() < usize::MAX,
                        projects(self.nodes, x as int, n as int, w@, p),
                        0 <= i <= n,
                        self.nodes.po_prefix_all(x as int, w@, i as int),
                    decreases n - i,
                {
                    assert(self.nodes.children(x as int)[i as int] == ch@[i as int]);
                    let sealed = Compiled::started_after(before, &p, i);
                    proof {
                        assert forall|j: int| 0 <= j < n implies (#[trigger] p.first[j] is Some) == (self.nodes.proj(x as int, w@, j).len() > 0) by {
                            lemma_proj_nonempty(self.nodes, x as int, w@, j);
                            assert(first_ok(self.nodes, x as int, w@, j, p.first[j]));
                        }
                        assert(sealed == self.nodes.successor_started(x as int, w@, i as int));
                        lemma_proj_len(self.nodes, x as int, w@, i as int);
                        lemma_proj_nonempty(self.nodes, x as int, w@, i as int);
                        assert(first_ok(self.nodes, x as int, w@, i as int, p.first[i as int]));
                        assert(p.parts[i as int]@ == self.nodes.proj(x as int, w@, i as int));
                    }
                    let c = ch[i];
                    let ok = if p.first[i].is_none() {
                        proof {
                            assert(p.parts[i as int]@ =~= Seq::<usize>::empty());
                        }
                        !sealed || self.nullable[c]
                    } else if sealed {
                        self.accepts(c, &p.parts[i])
                    } else {
                        self.prefix_ok(c, &p.parts[i])
                    };
                    if !ok {
                        proof {
                            if self.nodes.po_prefix_all(x as int, w@, n as int) {
                                lemma_po_prefix_all_prefix(self.nodes, x as int, w@, n as int, i as int + 1);
                            }
                        }
                        return false;
                    }
                    i = i + 1;
                }
                true
            },
        }
    }

    /// Has some successor of child `i` (in the order `before`) started?
    pub fn started_after(before: &Vec<Vec<bool>>, p: &Projections, i: usize) -> (r: bool)
        requires
            i < before.len(),
            before[i as int].len() == p.first.len(),
        ensures
            r == exists|j: int| 0 <= j < p.first.len() && #[trigger] before[i as int]@[j] && p.first[j] is Some,
    {
        let mut j: usize = 0;
        while j < p.first.len()
            invariant
                i < before.len(),
                before[i as int].len() == p.first.len(),
                0 <= j <= p.first.len(),
                forall|j2: int| 0 <= j2 < j ==> !(#[trigger] before[i as int]@[j2] && p.first[j2] is Some),
            decreases p.first.len() - j,
        {
            if before[i][j] && p.first[j].is_some() {
                return true;
            }
            j = j + 1;
        }
        false
    }

    /// Loop `x` can still complete `w`.
    pub fn prefix_loop(&self, x: usize, ch: &Vec<usize>, w: &Vec<usize>) -> (r: bool)
        requires
            self.wf(),
            x < self.nodes.kinds.len(),
            self.nodes.kinds[x as int] == Kind::Loop(*ch),
            w.len() > 0,
            w.len() < usize::MAX,
        ensures
            r == self.nodes.prefix_spec(x as int, w@),
        decreases x, 2int,
    {
        proof {
            assert(self.nodes.children(x as int) == ch@);
            assert(self.nodes.children(x as int)[0] == ch@[0]);
            assert(self.nodes.prefix_spec(x as int, w@) == self.nodes.prefix_loop_spec(x as int, w@));
        }
        let body = ch[0];
        if self.prefix_ok(body, w) {
            return true;
        }
        let n = w.len();
        let reach = self.loop_reach(x, ch, w);
        if reach[n] {
            return true;
        }
        let mut redo_nullable = false;
        let mut r: usize = 1;
        while r < ch.len()
            invariant
                self.wf(),
                x < self.nodes.kinds.len(),
                self.nodes.children(x as int) == ch@,
                1 <= r <= ch.len(),
                redo_nullable == self.nodes.redo_nullable(x as int, r as int),
            decreases ch.len() - r,
        {
            let c = ch[r];
            assert(self.nodes.children(x as int)[r as int] == c);
            redo_nullable = redo_nullable || self.nullable[c];
            r = r + 1;
        }
        let mut found = false;
        let mut j: usize = 0;
        while j < n
            invariant
                self.wf(),
                x < self.nodes.kinds.len(),
                self.nodes.kinds[x as int] == Kind::Loop(*ch),
                self.nodes.children(x as int) == ch@,
                ch@[0] < x,
                body == ch@[0],
                n == w.len(),
                0 < n < usize::MAX,
                reach.len() == n + 1,
                forall|m: int| 0 <= m <= n ==> #[trigger] reach[m] == self.nodes.loop_ok(x as int, w@, m),
                redo_nullable == self.nodes.redo_nullable(x as int, ch.len() as int),
                0 <= j <= n,
                found == self.nodes.resume_any(x as int, w@, j as int),
            decreases n - j,
        {
            if reach[j] {
                let rest = slice_of(w, j, n);
                let mut here = redo_nullable && self.prefix_ok(body, &rest);
                match self.owner_of(x, w[j]) {
                    Some(c) => {
                        proof {
                            assert(self.nodes.owner[x as int][w[j as int] as int] == Some(c));
                        }
                        if c >= 1 {
                            proof {
                                assert(self.nodes.children(x as int)[c as int] == ch@[c as int]);
                            }
                            let inside = self.prefix_ok(ch[c], &rest);
                            let after = self.resume_from(x, ch, w, j, c);
                            here = here || inside || after;
                        }
                    },
                    None => {},
                }
                found = found || here;
            }
            j = j + 1;
        }
        found
    }

    /// Some `k` in `j + 1..=w.len()` with a complete instance of redo part
    /// `c` at `j..k` and a partial body after it?
    fn resume_from(&self, x: usize, ch: &Vec<usize>, w: &Vec<usize>, j: usize, c: usize) -> (r: bool)
        requires
            self.wf(),
            x < self.nodes.kinds.len(),
            self.nodes.kinds[x as int] == Kind::Loop(*ch),
            j < w.len() < usize::MAX,
            1 <= c < ch.len(),
        ensures
            r == self.nodes.resume_body(x as int, w@, j as int, c as int, w.len() as int + 1),
        decreases x, 1int,
    {
        proof {
            assert(self.nodes.children(x as int) == ch@);
            assert(self.nodes.children(x as int)[0] == ch@[0]);
            assert(self.nodes.children(x as int)[c as int] == ch@[c as int]);
        }
        let n = w.len();
        let mut found = false;
        let mut run = true;
        let mut k: usize = j + 1;
        while k <= n
            invariant
                self.wf(),
                x < self.nodes.kinds.len(),
                self.nodes.kinds[x as int] == Kind::Loop(*ch),
                self.nodes.children(x as int) == ch@,
                ch@[0] < x,
                ch@[c as int] < x,
                n == w.len(),
                j < n < usize::MAX,
                1 <= c < ch.len(),
                j + 1 <= k <= n + 1,
                run == self.nodes.owned_run(x as int, w@, c as int, j as int, k as int - 1),
                found == self.nodes.resume_body(x as int, w@, j as int, c as int, k as int),
            decreases n + 1 - k,
        {
            let next = match self.owner_of(x, w[k - 1]) {
                Some(d) => d == c,
                None => false,
            };
            let ghost run0 = run;
            run = run && next;
            proof {
                if self.nodes.owned_run(x as int, w@, c as int, j as int, k as int - 1) && self.nodes.own(x as int, w@[k - 1]) == Some(c) {
                    assert forall|i2: int| j <= i2 < k implies #[trigger] self.nodes.own(x as int, w@[i2]) == Some(c) by {
                        if i2 < k - 1 {
                            assert(self.nodes.own(x as int, w@[i2]) == Some(c));
                        }
                    }
                }
                if self.nodes.owned_run(x as int, w@, c as int, j as int, k as int) {
                    assert(self.nodes.own(x as int, w@[k - 1]) == Some(c));
                }
                assert(run == self.nodes.owned_run(x as int, w@, c as int, j as int, k as int));
            }
            if run {
                let part = slice_of(w, j, k);
                let tail = slice_of(w, k, n);
                if self.accepts(ch[c], &part) && self.prefix_ok(ch[0], &tail) {
                    found = true;
                }
            }
            k = k + 1;
        }
        found
    }
}

proof fn lemma_po_prefix_all_prefix(c: Nodes, x: int, w: Seq<usize>, k: int, k2: int)
    requires
        c.po_prefix_all(x, w, k),
        0 <= k2 <= k,
    ensures
        c.po_prefix_all(x, w, k2),
    decreases k - k2,
{
    if k2 < k {
        lemma_po_prefix_all_prefix(c, x, w, k - 1, k2);
    }
}

/// A projection is nonempty exactly when the child owns some symbol.
pub proof fn lemma_proj_nonempty(c: Nodes, x: int, w: Seq<usize>, i: int)
    ensures
        (c.proj(x, w, i).len() > 0) == exists|k: int| 0 <= k < w.len() && #[trigger] c.own(x, w[k]) == Some(i as usize),
    decreases w.len(),
{
    if w.len() > 0 {
        lemma_proj_nonempty(c, x, w.drop_last(), i);
        if exists|k: int| 0 <= k < w.drop_last().len() && #[trigger] c.own(x, w.drop_last()[k]) == Some(i as usize) {
            let k = choose|k: int| 0 <= k < w.drop_last().len() && #[trigger] c.own(x, w.drop_last()[k]) == Some(i as usize);
            assert(w[k] == w.drop_last()[k]);
        }
        if exists|k: int| 0 <= k < w.len() && #[trigger] c.own(x, w[k]) == Some(i as usize) {
            let k = choose|k: int| 0 <= k < w.len() && #[trigger] c.own(x, w[k]) == Some(i as usize);
            if k < w.len() - 1 {
                assert(w.drop_last()[k] == w[k]);
            }
        }
    }
}

/// Length of a projection.
pub proof fn lemma_proj_len(c: Nodes, x: int, w: Seq<usize>, i: int)
    ensures
        c.proj(x, w, i).len() <= w.len(),
    decreases w.len(),
{
    if w.len() > 0 {
        lemma_proj_len(c, x, w.drop_last(), i);
    }
}

/// The pairwise order check is the order clause of a partial order.
pub proof fn lemma_order(c: Nodes, x: int, w: Seq<usize>, nc: int, before: Seq<Vec<bool>>, p: Projections)
    requires
        projects(c, x, nc, w, p),
        before.len() == nc,
        forall|i: int| 0 <= i < nc ==> #[trigger] before[i].len() == nc,
    ensures
        (forall|i: int, j: int| 0 <= i < nc && 0 <= j < nc ==> #[trigger] pair_ok(before, p, i, j)) <==> (forall|
            i: int,
            j: int,
            k1: int,
            k2: int,
        |
            0 <= i < nc && 0 <= j < nc && #[trigger] before[i]@[j] && 0 <= k1 < w.len() && 0 <= k2 < w.len()
                && #[trigger] c.own(x, w[k1]) == Some(i as usize) && #[trigger] c.own(x, w[k2]) == Some(j as usize)
                ==> k1 <= k2),
{
    let lhs = forall|i: int, j: int| 0 <= i < nc && 0 <= j < nc ==> #[trigger] pair_ok(before, p, i, j);
    if lhs {
        assert forall|i: int, j: int, k1: int, k2: int|
            0 <= i < nc && 0 <= j < nc && #[trigger] before[i]@[j] && 0 <= k1 < w.len() && 0 <= k2 < w.len()
                && #[trigger] c.own(x, w[k1]) == Some(i as usize) && #[trigger] c.own(x, w[k2]) == Some(j as usize)
                implies k1 <= k2 by {
            assert(pair_ok(before, p, i, j));
            assert(last_ok(c, x, w, i, p.last[i]));
            assert(first_ok(c, x, w, j, p.first[j]));
        }
    } else {
        let (i, j) = choose|i: int, j: int| !(0 <= i < nc && 0 <= j < nc ==> #[trigger] pair_ok(before, p, i, j));
        assert(last_ok(c, x, w, i, p.last[i]));
        assert(first_ok(c, x, w, j, p.first[j]));
        let li = p.last[i].unwrap() as int;
        let fj = p.first[j].unwrap() as int;
        assert(c.own(x, w[li]) == Some(i as usize));
        assert(c.own(x, w[fj]) == Some(j as usize));
    }
}

/// Complete `nodes` with, per node, acceptance of the empty word.
pub fn complete(nodes: Nodes) -> (c: Compiled)
    requires
        nodes.wf(),
    ensures
        c.wf(),
        c.nodes == nodes,
{
    let n = nodes.kinds.len();
    let mut nullable: Vec<bool> = Vec::new();
    for x in 0..n
        invariant
            n == nodes.kinds.len(),
            nodes.wf(),
            nullable.len() == x,
            forall|y: int| 0 <= y < x ==> #[trigger] nullable[y] == nodes.accepts_spec(y, Seq::empty()),
    {
        let ghost e: Seq<usize> = Seq::empty();
        let v = match &nodes.kinds[x] {
            Kind::Activity(a) => {
                assert(e != seq![*a]) by {
                    assert(seq![*a].len() == 1);
                }
                false
            },
            Kind::Tau => true,
            Kind::Exclusive(ch) => {
                assert(nodes.children(x as int) == ch@);
                let mut any = false;
                let mut i: usize = 0;
                while i < ch.len()
                    invariant
                        nodes.wf(),
                        x < n,
                        n == nodes.kinds.len(),
                        nodes.children(x as int) == ch@,
                        nullable.len() == x,
                        forall|y: int| 0 <= y < x ==> #[trigger] nullable[y] == nodes.accepts_spec(y, Seq::empty()),
                        0 <= i <= ch.len(),
                        e == Seq::<usize>::empty(),
                        any == nodes.any_nullable(x as int, i as int),
                    decreases ch.len() - i,
                {
                    assert(nodes.children(x as int)[i as int] == ch@[i as int]);
                    any = any || nullable[ch[i]];
                    i = i + 1;
                }
                any
            },
            Kind::Loop(ch) => {
                assert(nodes.children(x as int) == ch@);
                assert(nodes.children(x as int)[0] == ch@[0]);
                assert(e.take(0) =~= e);
                assert(!nodes.step_from(x as int, e, 0, 0));
                nullable[ch[0]]
            },
            Kind::Po(ch, before) => {
                assert(nodes.children(x as int) == ch@);
                let mut all = true;
                let mut i: usize = 0;
                while i < ch.len()
                    invariant
                        nodes.wf(),
                        x < n,
                        n == nodes.kinds.len(),
                        nodes.children(x as int) == ch@,
                        nullable.len() == x,
                        forall|y: int| 0 <= y < x ==> #[trigger] nullable[y] == nodes.accepts_spec(y, Seq::empty()),
                        0 <= i <= ch.len(),
                        e == Seq::<usize>::empty(),
                        all == nodes.all_children(x as int, e, i as int),
                    decreases ch.len() - i,
                {
                    assert(nodes.children(x as int)[i as int] == ch@[i as int]);
                    assert(nodes.proj(x as int, e, i as int) =~= e);
                    all = all && nullable[ch[i]];
                    i = i + 1;
                }
                all
            },
        };
        proof {
            match nodes.kinds[x as int] {
                Kind::Loop(ch) => {
                    assert(nodes.owned_run(x as int, e, 0, 0, 0));
                    assert(v == nodes.loop_ok(x as int, e, 0));
                },
                _ => {},
            }
            assert(v == nodes.accepts_spec(x as int, e));
        }
        nullable.push(v);
    }
    Compiled { nodes, nullable }
}

} // verus!
