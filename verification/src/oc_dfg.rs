//! The object-centric directly-follows graph: per-type graphs overlaid,
//! nothing flattened. Every edge keeps its object type; activities carry
//! per-type annotations and an honest total, where an event touching several
//! included types counts once.
use vstd::prelude::*;
use crate::log::EventLog;
use crate::trace::{Traces, act};
use crate::dfg::{Dfg, DfgEdge, DfgNode, dfg, dfg_of};
use crate::keysort::{is_permutation, key_le, key_lt, occurs, sort_by_keys, sorted_by_keys};
use crate::text::{name_ranks, ranks_of, text_lt, texts, lemma_rank_pair};
use crate::variants::descending;
use crate::dfg::lemma_key_two;

verus! {

/// Per-type annotation of one activity.
#[derive(Clone, Debug)]
pub struct OcTypeCount {
    pub object_type: String,
    pub events: usize,
    pub objects: usize,
    pub starts: usize,
    pub ends: usize,
}

/// One activity of the overlay with its per-type annotations.
#[derive(Clone, Debug)]
pub struct OcActivity {
    pub activity: String,
    /// Events with this activity touching at least one included type,
    /// counted once even when they touch several types.
    pub events: usize,
    pub per_type: Vec<OcTypeCount>,
}

/// A per-type edge of the overlay.
#[derive(Clone, Debug)]
pub struct OcDfgEdge {
    pub object_type: String,
    pub edge: DfgEdge,
}

/// The object-centric directly-follows graph.
#[derive(Clone, Debug)]
pub struct OcDfg {
    pub object_types: Vec<String>,
    /// Sorted by descending total event count, ties by name.
    pub activities: Vec<OcActivity>,
    /// All per-type edges, by descending frequency.
    pub edges: Vec<OcDfgEdge>,
}

/// `g` is the directly-follows graph of type `ty`.
pub open spec fn graph_ok(log: EventLog, ty: Seq<char>, g: Dfg) -> bool {
    exists|t: Traces| #[trigger] t.describes(log, ty) && dfg_of(t, ty, g)
}

/// Event `e` touches an object whose type is one of `types`.
pub open spec fn touches_any(log: EventLog, types: Seq<Seq<char>>, e: int) -> bool {
    exists|k: int| 0 <= k < log.events[e].objects.len() && types.contains(#[trigger] log.objects[log.events[e].objects[k] as int].object_type@)
}

/// Events among the first `k` with activity `x` touching one of `types`.
pub open spec fn event_total(log: EventLog, types: Seq<Seq<char>>, x: Seq<char>, k: int) -> nat
    decreases k,
{
    if k <= 0 {
        0
    } else {
        event_total(log, types, x, k - 1) + if act(log, k - 1) == x && touches_any(log, types, k - 1) {
            1nat
        } else {
            0nat
        }
    }
}

/// The first node among the first `k` of `nodes` with activity `x`, or -1.
pub open spec fn node_index(nodes: Seq<DfgNode>, x: Seq<char>, k: int) -> int
    decreases k,
{
    if k <= 0 {
        -1
    } else if node_index(nodes, x, k - 1) >= 0 {
        node_index(nodes, x, k - 1)
    } else if nodes[k - 1].activity@ == x {
        k - 1
    } else {
        -1
    }
}

/// The (type, node) positions of activity `x` over the first `k` graphs.
pub open spec fn hits(gs: Seq<Dfg>, x: Seq<char>, k: int) -> Seq<(int, int)>
    decreases k,
{
    if k <= 0 {
        Seq::empty()
    } else {
        let j = node_index(gs[k - 1].nodes@, x, gs[k - 1].nodes.len() as int);
        if j >= 0 {
            hits(gs, x, k - 1).push((k - 1, j))
        } else {
            hits(gs, x, k - 1)
        }
    }
}

/// Annotation `c` is node `v` of type `ty`.
pub open spec fn count_of(c: OcTypeCount, ty: Seq<char>, v: DfgNode) -> bool {
    &&& c.object_type@ == ty
    &&& c.events == v.events
    &&& c.objects == v.objects
    &&& c.starts == v.starts
    &&& c.ends == v.ends
}

/// Annotation `q` of `per_type` is the node of its hit among the first `k`
/// graphs.
pub open spec fn hit_ok(types: Seq<String>, gs: Seq<Dfg>, x: Seq<char>, k: int, per_type: Seq<OcTypeCount>, q: int) -> bool {
    let h = hits(gs, x, k);
    &&& 0 <= h[q].0 < k
    &&& 0 <= h[q].1 < gs[h[q].0].nodes.len()
    &&& count_of(per_type[q], types[h[q].0]@, gs[h[q].0].nodes[h[q].1])
}

/// `a` annotates activity `x` from the graphs `gs` of the types `types`.
pub open spec fn activity_of(log: EventLog, types: Seq<String>, gs: Seq<Dfg>, a: OcActivity) -> bool {
    let x = a.activity@;
    let h = hits(gs, x, gs.len() as int);
    &&& a.events == event_total(log, texts(types), x, log.events.len() as int)
    &&& a.per_type.len() == h.len()
    &&& forall|q: int| 0 <= q < h.len() ==> #[trigger] hit_ok(types, gs, x, gs.len() as int, a.per_type@, q)
}

/// Some graph has a node with activity `x`.
pub open spec fn in_some_graph(gs: Seq<Dfg>, x: Seq<char>) -> bool {
    exists|i: int, j: int| 0 <= i < gs.len() && 0 <= j < gs[i].nodes.len() && #[trigger] gs[i].nodes[j].activity@ == x
}

/// The (type, edge) positions of all per-type edges over the first `k`
/// graphs, in type order and then edge order.
pub open spec fn tagged(gs: Seq<Dfg>, k: int) -> Seq<(int, int)>
    decreases k,
{
    if k <= 0 {
        Seq::empty()
    } else {
        tagged(gs, k - 1) + Seq::new(gs[k - 1].edges.len() as nat, |j: int| (k - 1, j))
    }
}

/// Edge `x` is edge `y` of type `ty`.
pub open spec fn tagged_edge(x: OcDfgEdge, ty: Seq<char>, y: DfgEdge) -> bool {
    &&& x.object_type@ == ty
    &&& x.edge.from@ == y.from@
    &&& x.edge.to@ == y.to@
    &&& x.edge.frequency == y.frequency
    &&& x.edge.objects == y.objects
    &&& x.edge.gaps == y.gaps
}

/// `r` overlays the graphs `gs` of the types `types`.
pub open spec fn overlay_ok(log: EventLog, types: Seq<String>, gs: Seq<Dfg>, r: OcDfg) -> bool {
    let tg = tagged(gs, gs.len() as int);
    &&& texts(r.object_types@) == texts(types)
    &&& forall|j: int| 0 <= j < r.activities.len() ==> activity_of(log, types, gs, #[trigger] r.activities[j])
    &&& forall|j: int| 0 <= j < r.activities.len() ==> in_some_graph(gs, #[trigger] r.activities[j].activity@)
    &&& forall|i: int, j: int| 0 <= i < gs.len() && 0 <= j < gs[i].nodes.len() ==> listed_activity(r.activities@, #[trigger] gs[i].nodes[j].activity@)
    &&& forall|i: int, j: int|
        0 <= i < j < r.activities.len() ==> activity_before(#[trigger] r.activities[i], #[trigger] r.activities[j])
    &&& exists|perm: Seq<usize>|
        is_permutation(perm, tg.len()) && #[trigger] edges_from(types, gs, tg, perm, r.edges@)
    &&& forall|i: int, j: int| 0 <= i < j < r.edges.len() ==> (#[trigger] r.edges[i]).edge.frequency >= (#[trigger] r.edges[j]).edge.frequency
}

/// Some activity of the list is `x`.
pub open spec fn listed_activity(acts: Seq<OcActivity>, x: Seq<char>) -> bool {
    exists|j: int| 0 <= j < acts.len() && #[trigger] acts[j].activity@ == x
}

/// More events, or as many and a smaller name.
pub open spec fn activity_before(a: OcActivity, b: OcActivity) -> bool {
    a.events > b.events || (a.events == b.events && text_lt(a.activity@, b.activity@))
}

/// Edge `q` of the overlay is the tagged edge `perm[q]`.
pub open spec fn edges_from(types: Seq<String>, gs: Seq<Dfg>, tg: Seq<(int, int)>, perm: Seq<usize>, edges: Seq<OcDfgEdge>) -> bool {
    &&& edges.len() == perm.len()
    &&& forall|q: int| 0 <= q < edges.len() ==> {
        let (i, j) = #[trigger] tg[perm[q] as int];
        tagged_edge(edges[q], types[i]@, gs[i].edges[j])
    }
}


/// The graphs of the types, in order.
fn graphs(log: &EventLog, types: &Vec<String>) -> (gs: Vec<Dfg>)
    requires
        log.wf(),
        log.objects.len() * log.events.len() <= usize::MAX,
    ensures
        gs.len() == types.len(),
        forall|i: int| 0 <= i < types.len() ==> #[trigger] graph_ok(*log, types[i]@, gs[i]),
{
    let mut gs: Vec<Dfg> = Vec::new();
    let mut i: usize = 0;
    while i < types.len()
        invariant
            log.wf(),
            log.objects.len() * log.events.len() <= usize::MAX,
            i <= types.len(),
            gs.len() == i,
            forall|h: int| 0 <= h < i ==> #[trigger] graph_ok(*log, types[h]@, gs[h]),
        decreases types.len() - i,
    {
        let g = dfg(log, types[i].as_str());
        gs.push(g);
        i = i + 1;
    }
    gs
}

/// Is `x` one of `names`?
pub fn has_name(names: &Vec<String>, x: &String) -> (r: bool)
    ensures
        r == texts(names@).contains(x@),
{
    let mut k: usize = 0;
    while k < names.len()
        invariant
            k <= names.len(),
            forall|k2: int| 0 <= k2 < k ==> names@[k2]@ != x@,
        decreases names.len() - k,
    {
        if names[k] == *x {
            assert(texts(names@)[k as int] == x@);
            return true;
        }
        k = k + 1;
    }
    proof {
        if texts(names@).contains(x@) {
            let k2 = choose|k2: int| 0 <= k2 < texts(names@).len() && texts(names@)[k2] == x@;
            assert(names@[k2]@ == x@);
        }
    }
    false
}

/// Per event: does it touch an object of one of `types`?
fn touching(log: &EventLog, types: &Vec<String>) -> (r: Vec<bool>)
    requires
        log.wf(),
    ensures
        r.len() == log.events.len(),
        forall|e: int| 0 <= e < log.events.len() ==> #[trigger] r[e] == touches_any(*log, texts(types@), e),
{
    let mut r: Vec<bool> = Vec::new();
    let mut e: usize = 0;
    while e < log.events.len()
        invariant
            log.wf(),
            e <= log.events.len(),
            r.len() == e,
            forall|e2: int| 0 <= e2 < e ==> #[trigger] r[e2] == touches_any(*log, texts(types@), e2),
        decreases log.events.len() - e,
    {
        let objects = &log.events[e].objects;
        let mut hit = false;
        let mut k: usize = 0;
        while k < objects.len()
            invariant
                log.wf(),
                e < log.events.len(),
                objects == &log.events[e as int].objects,
                k <= objects.len(),
                hit == exists|k2: int| 0 <= k2 < k && texts(types@).contains(#[trigger] log.objects[objects[k2] as int].object_type@),
            decreases objects.len() - k,
        {
            let o = objects[k];
            if has_name(types, &log.objects[o].object_type) {
                hit = true;
            }
            k = k + 1;
        }
        r.push(hit);
        e = e + 1;
    }
    r
}

/// Events with activity `x` touching one of the types.
fn total_of(log: &EventLog, touch: &Vec<bool>, types: Ghost<Seq<Seq<char>>>, x: &String) -> (r: usize)
    requires
        touch.len() == log.events.len(),
        forall|e: int| 0 <= e < log.events.len() ==> #[trigger] touch[e] == touches_any(*log, types@, e),
    ensures
        r == event_total(*log, types@, x@, log.events.len() as int),
{
    let mut r: usize = 0;
    let mut e: usize = 0;
    while e < log.events.len()
        invariant
            touch.len() == log.events.len(),
            forall|e2: int| 0 <= e2 < log.events.len() ==> #[trigger] touch[e2] == touches_any(*log, types@, e2),
            e <= log.events.len(),
            r <= e,
            r == event_total(*log, types@, x@, e as int),
        decreases log.events.len() - e,
    {
        if touch[e] && log.events[e].activity == *x {
            r = r + 1;
        }
        e = e + 1;
    }
    r
}

/// The annotations of activity `x` over the graphs.
fn type_counts(types: &Vec<String>, gs: &Vec<Dfg>, x: &String) -> (r: Vec<OcTypeCount>)
    requires
        gs.len() == types.len(),
    ensures
        r.len() == hits(gs@, x@, gs.len() as int).len(),
        forall|q: int| 0 <= q < r.len() ==> #[trigger] hit_ok(types@, gs@, x@, gs.len() as int, r@, q),
{
    let mut r: Vec<OcTypeCount> = Vec::new();
    let mut i: usize = 0;
    while i < gs.len()
        invariant
            gs.len() == types.len(),
            i <= gs.len(),
            r.len() == hits(gs@, x@, i as int).len(),
            forall|q: int| 0 <= q < r.len() ==> #[trigger] hit_ok(types@, gs@, x@, i as int, r@, q),
        decreases gs.len() - i,
    {
        let nodes = &gs[i].nodes;
        let mut found: usize = nodes.len();
        let mut j: usize = 0;
        while j < nodes.len()
            invariant
                i < gs.len(),
                nodes == &gs[i as int].nodes,
                j <= nodes.len(),
                found <= nodes.len(),
                found == nodes.len() ==> node_index(nodes@, x@, j as int) == -1,
                found < nodes.len() ==> found == node_index(nodes@, x@, j as int) && found < j,
            decreases nodes.len() - j,
        {
            if found == nodes.len() && nodes[j].activity == *x {
                found = j;
            }
            j = j + 1;
        }
        let ghost r0 = r@;
        proof {
            let ni = node_index(gs[i as int].nodes@, x@, gs[i as int].nodes.len() as int);
            assert(j == nodes.len());
            assert(nodes@ == gs[i as int].nodes@);
            if found < nodes.len() {
                assert(ni == found as int);
            } else {
                assert(node_index(nodes@, x@, j as int) == -1);
                assert(ni == -1);
            }
            assert(hits(gs@, x@, i + 1) == if ni >= 0 { hits(gs@, x@, i as int).push((i as int, ni)) } else { hits(gs@, x@, i as int) });
        }
        if found < nodes.len() {
            let v = &nodes[found];
            r.push(OcTypeCount { object_type: types[i].clone(), events: v.events, objects: v.objects, starts: v.starts, ends: v.ends });
        }
        proof {
            let h = hits(gs@, x@, i + 1);
            assert forall|q: int| 0 <= q < r.len() implies #[trigger] hit_ok(types@, gs@, x@, i + 1, r@, q) by {
                if q < r0.len() {
                    assert(hit_ok(types@, gs@, x@, i as int, r0, q));
                    assert(r[q] == r0[q]);
                    assert(h[q] == hits(gs@, x@, i as int)[q]);
                } else {
                    assert(found < nodes.len());
                    assert(h[q] == (i as int, found as int));
                    assert(gs[i as int].nodes[found as int] == nodes[found as int]);
                }
            }
        }
        i = i + 1;
    }
    r
}

/// The activities of the graphs' nodes, each once, in order of first
/// appearance.
fn activity_names(gs: &Vec<Dfg>) -> (names: Vec<String>)
    ensures
        forall|a: int, b: int| 0 <= a < b < names.len() ==> names[a]@ != names[b]@,
        forall|k: int| 0 <= k < names.len() ==> in_some_graph(gs@, #[trigger] names[k]@),
        forall|i: int, j: int| 0 <= i < gs.len() && 0 <= j < gs[i].nodes.len() ==> texts(names@).contains(#[trigger] gs[i].nodes[j].activity@),
{
    let mut names: Vec<String> = Vec::new();
    let mut i: usize = 0;
    while i < gs.len()
        invariant
            i <= gs.len(),
            forall|a: int, b: int| 0 <= a < b < names.len() ==> names[a]@ != names[b]@,
            forall|k: int| 0 <= k < names.len() ==> in_some_graph(gs@, #[trigger] names[k]@),
            forall|i2: int, j: int| 0 <= i2 < i && 0 <= j < gs[i2].nodes.len() ==> texts(names@).contains(#[trigger] gs[i2].nodes[j].activity@),
        decreases gs.len() - i,
    {
        let nodes = &gs[i].nodes;
        let mut j: usize = 0;
        while j < nodes.len()
            invariant
                i < gs.len(),
                nodes == &gs[i as int].nodes,
                j <= nodes.len(),
                forall|a: int, b: int| 0 <= a < b < names.len() ==> names[a]@ != names[b]@,
                forall|k: int| 0 <= k < names.len() ==> in_some_graph(gs@, #[trigger] names[k]@),
                forall|i2: int, j2: int| 0 <= i2 < i && 0 <= j2 < gs[i2].nodes.len() ==> texts(names@).contains(#[trigger] gs[i2].nodes[j2].activity@),
                forall|j2: int| 0 <= j2 < j ==> texts(names@).contains(#[trigger] nodes[j2].activity@),
            decreases nodes.len() - j,
        {
            let ghost n0 = names@;
            if !has_name(&names, &nodes[j].activity) {
                let x = nodes[j].activity.clone();
                names.push(x);
                proof {
                    assert(in_some_graph(gs@, gs[i as int].nodes[j as int].activity@));
                    assert forall|a: int, b: int| 0 <= a < b < names.len() implies names[a]@ != names[b]@ by {
                        if b == names.len() - 1 {
                            assert(texts(n0)[a] == names[a]@);
                        }
                    }
                    assert(texts(names@) == texts(n0).push(x@));
                    assert forall|y: Seq<char>| texts(n0).contains(y) implies texts(names@).contains(y) by {
                        let k = choose|k: int| 0 <= k < texts(n0).len() && texts(n0)[k] == y;
                        assert(texts(names@)[k] == y);
                    }
                    assert(texts(names@)[names.len() - 1] == x@);
                }
            }
            j = j + 1;
        }
        i = i + 1;
    }
    names
}


/// The per-type edges of the graphs, in type order and then edge order.
fn tag_edges(gs: &Vec<Dfg>) -> (r: (Vec<usize>, Vec<usize>))
    ensures
        r.0.len() == tagged(gs@, gs.len() as int).len(),
        r.1.len() == r.0.len(),
        forall|p: int| 0 <= p < r.0.len() ==> (r.0[p] as int, r.1[p] as int) == #[trigger] tagged(gs@, gs.len() as int)[p],
        forall|p: int| 0 <= p < r.0.len() ==> #[trigger] r.0[p] < gs.len() && r.1[p] < gs[r.0[p] as int].edges.len(),
{
    let mut ti: Vec<usize> = Vec::new();
    let mut tj: Vec<usize> = Vec::new();
    let mut i: usize = 0;
    while i < gs.len()
        invariant
            i <= gs.len(),
            ti.len() == tagged(gs@, i as int).len(),
            tj.len() == ti.len(),
            forall|p: int| 0 <= p < ti.len() ==> (ti[p] as int, tj[p] as int) == #[trigger] tagged(gs@, i as int)[p],
            forall|p: int| 0 <= p < ti.len() ==> #[trigger] ti[p] < gs.len() && tj[p] < gs[ti[p] as int].edges.len() && ti[p] < i,
        decreases gs.len() - i,
    {
        let ghost base = tagged(gs@, i as int);
        let ne = gs[i].edges.len();
        let mut j: usize = 0;
        while j < ne
            invariant
                i < gs.len(),
                ne == gs[i as int].edges.len(),
                base == tagged(gs@, i as int),
                j <= ne,
                ti.len() == base.len() + j,
                tj.len() == ti.len(),
                forall|p: int| 0 <= p < base.len() ==> (#[trigger] ti[p] as int, tj[p] as int) == base[p],
                forall|p: int| base.len() <= p < ti.len() ==> #[trigger] ti[p] == i && tj[p] == p - base.len(),
                forall|p: int| 0 <= p < ti.len() ==> #[trigger] ti[p] < gs.len() && tj[p] < gs[ti[p] as int].edges.len() && ti[p] <= i,
            decreases ne - j,
        {
            let ghost (i0, j0) = (ti@, tj@);
            ti.push(i);
            tj.push(j);
            proof {
                assert forall|p: int| 0 <= p < base.len() implies (#[trigger] ti[p] as int, tj[p] as int) == base[p] by {
                    assert(ti[p] == i0[p] && tj[p] == j0[p]);
                }
                assert forall|p: int| base.len() <= p < ti.len() implies #[trigger] ti[p] == i && tj[p] == p - base.len() by {
                    if p < i0.len() {
                        assert(ti[p] == i0[p] && tj[p] == j0[p]);
                    }
                }
                assert forall|p: int| 0 <= p < ti.len() implies #[trigger] ti[p] < gs.len() && tj[p] < gs[ti[p] as int].edges.len() && ti[p] <= i by {
                    if p < i0.len() {
                        assert(ti[p] == i0[p] && tj[p] == j0[p]);
                    }
                }
            }
            j = j + 1;
        }
        proof {
            let next = tagged(gs@, i + 1);
            assert(next == base + Seq::new(ne as nat, |jj: int| (i as int, jj)));
            assert forall|p: int| 0 <= p < ti.len() implies (ti[p] as int, tj[p] as int) == #[trigger] next[p] by {
                if p < base.len() {
                    assert((ti[p] as int, tj[p] as int) == base[p]);
                } else {
                    assert(ti[p] == i && tj[p] == p - base.len());
                }
            }
        }
        i = i + 1;
    }
    (ti, tj)
}

/// Compute the object-centric overlay of the graphs of `object_types`.
pub fn oc_dfg(log: &EventLog, object_types: &Vec<String>) -> (r: OcDfg)
    requires
        log.wf(),
        log.objects.len() * log.events.len() <= usize::MAX,
    ensures
        exists|gs: Seq<Dfg>|
            {
                &&& gs.len() == object_types.len()
                &&& forall|i: int| 0 <= i < object_types.len() ==> #[trigger] graph_ok(*log, object_types[i]@, gs[i])
                &&& #[trigger] overlay_ok(*log, object_types@, gs, r)
            },
{
    let gs = graphs(log, object_types);
    let touch = touching(log, object_types);
    let names = activity_names(&gs);
    let ranks = name_ranks(&names);
    proof {
        assert(ranks_of(names@, ranks@));
    }
    let na = names.len();
    let mut totals: Vec<usize> = Vec::new();
    let mut keys: Vec<Vec<i128>> = Vec::new();
    let mut k: usize = 0;
    while k < na
        invariant
            na == names.len(),
            ranks@.len() == na,
            touch.len() == log.events.len(),
            forall|e: int| 0 <= e < log.events.len() ==> #[trigger] touch[e] == touches_any(*log, texts(object_types@), e),
            k <= na,
            totals.len() == k,
            keys.len() == k,
            forall|c: int| 0 <= c < k ==> #[trigger] totals[c] == event_total(*log, texts(object_types@), names[c]@, log.events.len() as int),
            forall|c: int| 0 <= c < k ==> #[trigger] keys[c]@ == seq![descending(totals[c]), ranks@[c] as i128],
        decreases na - k,
    {
        let total = total_of(log, &touch, Ghost(texts(object_types@)), &names[k]);
        totals.push(total);
        let d: i128 = 0 - (total as i128);
        keys.push(vec![d, ranks[k] as i128]);
        k = k + 1;
    }
    let perm = sort_by_keys(&keys);
    let ghost ks = keys@.map_values(|x: Vec<i128>| x@);
    let mut activities: Vec<OcActivity> = Vec::new();
    let mut j: usize = 0;
    while j < na
        invariant
            na == names.len(),
            gs.len() == object_types.len(),
            is_permutation(perm@, na as nat),
            totals.len() == na,
            forall|c: int| 0 <= c < na ==> #[trigger] totals[c] == event_total(*log, texts(object_types@), names[c]@, log.events.len() as int),
            j <= na,
            activities.len() == j,
            forall|h: int| 0 <= h < j ==> #[trigger] activities[h].activity@ == names[perm[h] as int]@,
            forall|h: int| 0 <= h < j ==> activity_of(*log, object_types@, gs@, #[trigger] activities[h]),
            forall|h: int| 0 <= h < j ==> #[trigger] activities[h].events == totals[perm[h] as int],
        decreases na - j,
    {
        let c = perm[j];
        let per_type = type_counts(object_types, &gs, &names[c]);
        let a = OcActivity { activity: names[c].clone(), events: totals[c], per_type };
        activities.push(a);
        j = j + 1;
    }
    let (ti, tj) = tag_edges(&gs);
    let ghost tg = tagged(gs@, gs.len() as int);
    let nt = ti.len();
    let mut ekeys: Vec<Vec<i128>> = Vec::new();
    let mut p: usize = 0;
    while p < nt
        invariant
            nt == ti.len(),
            tj.len() == nt,
            forall|p2: int| 0 <= p2 < nt ==> #[trigger] ti[p2] < gs.len() && tj[p2] < gs[ti[p2] as int].edges.len(),
            p <= nt,
            ekeys.len() == p,
            forall|p2: int| 0 <= p2 < p ==> #[trigger] ekeys[p2]@ == seq![descending(gs[ti[p2] as int].edges[tj[p2] as int].frequency), p2 as i128],
        decreases nt - p,
    {
        let f = gs[ti[p]].edges[tj[p]].frequency;
        let d: i128 = 0 - (f as i128);
        ekeys.push(vec![d, p as i128]);
        p = p + 1;
    }
    let eperm = sort_by_keys(&ekeys);
    let ghost eks = ekeys@.map_values(|x: Vec<i128>| x@);
    let mut edges: Vec<OcDfgEdge> = Vec::new();
    let mut q: usize = 0;
    while q < nt
        invariant
            nt == ti.len(),
            tj.len() == nt,
            gs.len() == object_types.len(),
            tg == tagged(gs@, gs.len() as int),
            nt == tg.len(),
            forall|p2: int| 0 <= p2 < nt ==> (ti[p2] as int, tj[p2] as int) == #[trigger] tg[p2],
            forall|p2: int| 0 <= p2 < nt ==> #[trigger] ti[p2] < gs.len() && tj[p2] < gs[ti[p2] as int].edges.len(),
            is_permutation(eperm@, nt as nat),
            q <= nt,
            edges.len() == q,
            forall|h: int| 0 <= h < q ==> {
                let (i, jj) = #[trigger] tg[eperm[h] as int];
                tagged_edge(edges[h], object_types[i]@, gs[i].edges[jj])
            },
            forall|h: int| 0 <= h < q ==> #[trigger] edges[h].edge.frequency == gs[ti[eperm[h] as int] as int].edges[tj[eperm[h] as int] as int].frequency,
        decreases nt - q,
    {
        let c = eperm[q];
        let e = &gs[ti[c]].edges[tj[c]];
        let edge = DfgEdge { from: e.from.clone(), to: e.to.clone(), frequency: e.frequency, objects: e.objects, gaps: e.gaps };
        edges.push(OcDfgEdge { object_type: object_types[ti[c]].clone(), edge });
        proof {
            assert(tg[c as int] == (ti[c as int] as int, tj[c as int] as int));
        }
        q = q + 1;
    }
    let mut types_out: Vec<String> = Vec::new();
    let mut i: usize = 0;
    while i < object_types.len()
        invariant
            i <= object_types.len(),
            types_out.len() == i,
            forall|h: int| 0 <= h < i ==> #[trigger] types_out[h]@ == object_types[h]@,
        decreases object_types.len() - i,
    {
        types_out.push(object_types[i].clone());
        i = i + 1;
    }
    let r = OcDfg { object_types: types_out, activities, edges };
    proof {
        assert(texts(r.object_types@) =~= texts(object_types@));
        assert forall|j2: int| 0 <= j2 < r.activities.len() implies in_some_graph(gs@, #[trigger] r.activities[j2].activity@) by {
            assert(r.activities[j2].activity@ == names[perm[j2] as int]@);
        }
        assert forall|i2: int, j2: int| 0 <= i2 < gs.len() && 0 <= j2 < gs[i2].nodes.len() implies listed_activity(r.activities@, #[trigger] gs[i2].nodes[j2].activity@) by {
            let x = gs[i2].nodes[j2].activity@;
            assert(texts(names@).contains(x));
            let c = choose|c: int| 0 <= c < texts(names@).len() && texts(names@)[c] == x;
            assert(occurs(perm@, c));
            let h = choose|h: int| 0 <= h < perm.len() && perm[h] == c;
            assert(r.activities[h].activity@ == x);
        }
        assert forall|i2: int, j2: int| 0 <= i2 < j2 < r.activities.len() implies activity_before(#[trigger] r.activities[i2], #[trigger] r.activities[j2]) by {
            let ci = perm[i2] as int;
            let cj = perm[j2] as int;
            assert(key_le(ks[ci], ks[cj]));
            lemma_key_two(descending(totals[ci]), ranks@[ci] as i128, descending(totals[cj]), ranks@[cj] as i128);
            lemma_key_two(descending(totals[cj]), ranks@[cj] as i128, descending(totals[ci]), ranks@[ci] as i128);
            lemma_rank_pair(names@, ranks@, ci, cj);
            assert(ci != cj);
        }
        assert(edges_from(object_types@, gs@, tg, eperm@, r.edges@));
        assert forall|i2: int, j2: int| 0 <= i2 < j2 < r.edges.len() implies (#[trigger] r.edges[i2]).edge.frequency >= (#[trigger] r.edges[j2]).edge.frequency by {
            let ci = eperm[i2] as int;
            let cj = eperm[j2] as int;
            assert(key_le(eks[ci], eks[cj]));
            lemma_key_two(descending(gs[ti[ci] as int].edges[tj[ci] as int].frequency), ci as i128, descending(gs[ti[cj] as int].edges[tj[cj] as int].frequency), cj as i128);
        }
        assert(overlay_ok(*log, object_types@, gs@, r));
    }
    r
}

} // verus!
