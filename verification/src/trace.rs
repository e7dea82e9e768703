//! Per-type traces: the one construction every analysis reads.
//!
//! A trace is one object's events in log order (time, then position in the
//! log); an event that names the same object twice counts once. Activity
//! names are interned in order of first appearance among the events that
//! touch the type.
use vstd::prelude::*;
use crate::keysort::{is_permutation, key_le, key_lt, occurs, sort_by_keys};
use crate::log::{EventLog, Timestamp, is_trace, trace_of, lemma_trace_of};

verus! {

/// One step of a trace.
#[derive(Clone, Copy, Debug)]
pub struct Step {
    /// Index of the event in the log.
    pub event: usize,
    /// Interned activity id.
    pub activity: usize,
    pub time: Timestamp,
}

/// The traces of one object type.
pub struct Traces {
    /// Object indices of the type, one per slot, in log order.
    pub object_ids: Vec<usize>,
    /// Interned activity names.
    pub activity_names: Vec<String>,
    /// Per slot: the object's steps in trace order.
    pub steps: Vec<Vec<Step>>,
}

/// The activity of event `e`.
pub open spec fn act(log: EventLog, e: int) -> Seq<char> {
    log.events[e].activity@
}

/// The events of a list of steps.
pub open spec fn step_events(steps: Seq<Step>) -> Seq<int> {
    steps.map_values(|x: Step| x.event as int)
}

impl Traces {
    pub open spec fn names(&self) -> Seq<Seq<char>> {
        self.activity_names@.map_values(|s: String| s@)
    }

    /// Slot `s`'s step `k` is event `e` of its object, carrying its time and
    /// activity.
    pub open spec fn step_ok(&self, log: EventLog, s: int, k: int) -> bool {
        let x = self.steps[s][k];
        &&& x.event < log.events.len()
        &&& log.related(x.event as int, self.object_ids[s] as int)
        &&& x.time == log.events[x.event as int].time
        &&& x.activity < self.activity_names.len()
        &&& self.activity_names[x.activity as int]@ == act(log, x.event as int)
    }

}

/// Some event touching type `ty` carries activity `x`.
pub open spec fn carried_by_target(log: EventLog, ty: Seq<char>, x: Seq<char>) -> bool {
    exists|e: int| 0 <= e < log.events.len() && log.is_target(e, ty) && #[trigger] act(log, e) == x
}

/// Some event touching type `ty` carries activity `x` before event `e`.
pub open spec fn carried_before_event(log: EventLog, ty: Seq<char>, x: Seq<char>, e: int) -> bool {
    exists|e2: int|
        0 <= e2 < log.events.len() && log.is_target(e2, ty) && #[trigger] act(log, e2) == x && log.before(
            e2,
            e,
        )
}

/// `x` is one of `names`.
pub open spec fn named(names: Seq<String>, x: Seq<char>) -> bool {
    exists|i: int| 0 <= i < names.len() && #[trigger] names[i]@ == x
}

/// The activity names: distinct, exactly the activities of the events
/// touching the type, in order of first appearance.
pub open spec fn names_ok(log: EventLog, ty: Seq<char>, names: Seq<String>) -> bool {
    &&& forall|i: int, j: int| 0 <= i < j < names.len() ==> names[i]@ != names[j]@
    &&& forall|i: int| 0 <= i < names.len() ==> carried_by_target(log, ty, #[trigger] names[i]@)
    &&& forall|e: int|
        0 <= e < log.events.len() && #[trigger] log.is_target(e, ty) ==> named(names, act(log, e))
    &&& forall|i: int, j: int, e: int|
        0 <= i < j < names.len() && 0 <= e < log.events.len() && log.is_target(e, ty) && #[trigger] act(
            log,
            e,
        ) == #[trigger] names[j]@ ==> carried_before_event(log, ty, #[trigger] names[i]@, e)
}

impl Traces {
    /// These are the traces of type `ty` in `log`.
    pub open spec fn describes(&self, log: EventLog, ty: Seq<char>) -> bool {
        &&& self.object_ids@ == log.members(ty)
        &&& self.steps.len() == self.object_ids.len()
        &&& forall|s: int, k: int|
            0 <= s < self.steps.len() && 0 <= k < self.steps[s].len() ==> self.step_ok(log, s, k)
        &&& forall|s: int, k1: int, k2: int|
            0 <= s < self.steps.len() && 0 <= k1 < k2 < self.steps[s].len() ==> log.before(
                self.steps[s][k1].event as int,
                self.steps[s][k2].event as int,
            )
        &&& forall|s: int, e: int|
            0 <= s < self.steps.len() && 0 <= e < log.events.len() && log.related(
                e,
                self.object_ids[s] as int,
            ) ==> exists|k: int| 0 <= k < self.steps[s].len() && self.steps[s][k].event == e
        &&& names_ok(log, ty, self.activity_names@)
        &&& forall|s: int|
            0 <= s < self.steps.len() ==> step_events(#[trigger] self.steps[s]@) == trace_of(
                log,
                self.object_ids[s] as int,
            )
    }
}

/// There are no more activity names than events.
pub proof fn lemma_names_within_events(log: EventLog, ty: Seq<char>, names: Seq<String>)
    requires
        names_ok(log, ty, names),
    ensures
        names.len() <= log.events.len(),
{
    let ne = log.events.len() as int;
    let nn = names.len() as int;
    let f = |i: int| choose|e: int| 0 <= e < ne && log.is_target(e, ty) && #[trigger] act(log, e) == names[i]@;
    let x = vstd::set_lib::set_int_range(0, nn);
    let y = vstd::set_lib::set_int_range(0, ne);
    vstd::set_lib::lemma_int_range(0, nn);
    vstd::set_lib::lemma_int_range(0, ne);
    assert forall|i: int| #[trigger] x.contains(i) implies 0 <= f(i) < ne && act(log, f(i)) == names[i]@ by {
        assert(carried_by_target(log, ty, names[i]@));
    }
    assert forall|i: int, j: int| x.contains(i) && x.contains(j) && #[trigger] f(i) == #[trigger] f(j) implies i == j by {
        assert(act(log, f(i)) == names[i]@);
        assert(act(log, f(j)) == names[j]@);
        if i < j {
            assert(names[i]@ != names[j]@);
        } else if j < i {
            assert(names[j]@ != names[i]@);
        }
    }
    assert(vstd::relations::injective_on(f, x));
    vstd::set_lib::lemma_map_size(x, x.map(f), f);
    assert forall|e: int| #[trigger] x.map(f).contains(e) implies y.contains(e) by {
        let i = choose|i: int| x.contains(i) && f(i) == e;
        assert(x.contains(i));
    }
    vstd::set_lib::lemma_len_subset(x.map(f), y);
}

/// Index of `name` in `names`, appending it when absent.
pub fn intern(names: &mut Vec<String>, name: &String) -> (a: usize)
    ensures
        a < final(names).len(),
        final(names)[a as int]@ == name@,
        (exists|i: int| 0 <= i < old(names).len() && old(names)[i]@ == name@) ==> final(names)@
            == old(names)@,
        !(exists|i: int| 0 <= i < old(names).len() && old(names)[i]@ == name@) ==> final(names)@.len() == old(names)@.len() + 1 && final(names)@.drop_last() == old(names)@
            && a == old(names).len(),
{
    let mut i: usize = 0;
    while i < names.len()
        invariant
            0 <= i <= names.len(),
            names@ == old(names)@,
            forall|j: int| 0 <= j < i ==> names[j]@ != name@,
        decreases names.len() - i,
    {
        if names[i] == *name {
            return i;
        }
        i = i + 1;
    }
    let copy = name.clone();
    names.push(copy);
    i
}

/// Slots of the objects of type `ty`: their indices, and per object its slot
/// (`usize::MAX` for other types).
pub fn collect_slots(log: &EventLog, ty: &String) -> (r: (Vec<usize>, Vec<usize>))
    ensures
        r.0@ == log.members(ty@),
        r.1.len() == log.objects.len(),
        forall|s: int| 0 <= s < r.0.len() ==> r.0[s] < log.objects.len() && r.1[r.0[s] as int] == s,
        forall|o: int|
            0 <= o < log.objects.len() ==> (log.is_member(o, ty@) <==> r.1[o] != usize::MAX),
        forall|o: int|
            0 <= o < log.objects.len() && r.1[o] != usize::MAX ==> r.1[o] < r.0.len()
                && r.0[r.1[o] as int] == o,
{
    let mut ids: Vec<usize> = Vec::new();
    let mut slot_of: Vec<usize> = Vec::new();
    for o in 0..log.objects.len()
        invariant
            ids@ == log.members_upto(ty@, o as int),
            slot_of.len() == o,
            forall|s: int| 0 <= s < ids.len() ==> ids[s] < o && slot_of[ids[s] as int] == s,
            forall|j: int| 0 <= j < o ==> (log.is_member(j, ty@) <==> slot_of[j] != usize::MAX),
            forall|j: int|
                0 <= j < o && slot_of[j] != usize::MAX ==> slot_of[j] < ids.len() && ids[slot_of[j] as int]
                    == j,
            ids.len() <= o,
    {
        if log.objects[o].object_type == *ty {
            slot_of.push(ids.len());
            ids.push(o);
        } else {
            slot_of.push(usize::MAX);
        }
    }
    (ids, slot_of)
}

proof fn lemma_key3(a: Seq<i128>, b: Seq<i128>)
    requires
        a.len() == 3,
        b.len() == 3,
    ensures
        key_lt(a, b) <==> (a[0] < b[0] || (a[0] == b[0] && a[1] < b[1]) || (a[0] == b[0] && a[1]
            == b[1] && a[2] < b[2])),
{
    reveal_with_fuel(key_lt, 4);
    assert(a.drop_first().drop_first().drop_first().len() == 0);
    assert(b.drop_first().drop_first().drop_first().len() == 0);
}

/// All events in trace order.
pub fn event_order(log: &EventLog) -> (order: Vec<usize>)
    requires
        log.wf(),
    ensures
        is_permutation(order@, log.events.len() as nat),
        forall|q1: int, q2: int|
            0 <= q1 < q2 < order.len() ==> log.before(order[q1] as int, order[q2] as int),
{
    let n = log.events.len();
    let mut keys: Vec<Vec<i128>> = Vec::new();
    for e in 0..n
        invariant
            n == log.events.len(),
            keys.len() == e,
            forall|j: int|
                0 <= j < e ==> #[trigger] keys[j]@ == seq![
                    log.events[j].time.secs as i128,
                    log.events[j].time.nanos as i128,
                    j as i128,
                ],
    {
        let t = log.events[e].time;
        let key: Vec<i128> = vec![t.secs as i128, t.nanos as i128, e as i128];
        keys.push(key);
    }
    let order = sort_by_keys(&keys);
    proof {
        let ks = keys@.map_values(|k: Vec<i128>| k@);
        assert forall|q1: int, q2: int| 0 <= q1 < q2 < order.len() implies log.before(
            order[q1] as int,
            order[q2] as int,
        ) by {
            let a = order[q1] as int;
            let b = order[q2] as int;
            assert(ks[a] == keys[a]@);
            assert(ks[b] == keys[b]@);
            assert(key_le(ks[a], ks[b]));
            lemma_key3(ks[a], ks[b]);
            lemma_key3(ks[b], ks[a]);
            assert(a != b);
        }
    }
    order
}

/// Event `e` touches an object whose slot is set.
fn touches_slot(log: &EventLog, slot_of: &Vec<usize>, e: usize) -> (r: bool)
    requires
        log.wf(),
        e < log.events.len(),
        slot_of.len() == log.objects.len(),
    ensures
        r == exists|k: int|
            0 <= k < log.events[e as int].objects.len() && slot_of[log.events[e as int].objects[k] as int]
                != usize::MAX,
{
    let objects = &log.events[e].objects;
    let mut k: usize = 0;
    while k < objects.len()
        invariant
            log.wf(),
            e < log.events.len(),
            slot_of.len() == log.objects.len(),
            objects == log.events[e as int].objects,
            0 <= k <= objects.len(),
            forall|j: int| 0 <= j < k ==> slot_of[objects[j] as int] == usize::MAX,
        decreases objects.len() - k,
    {
        if slot_of[objects[k]] != usize::MAX {
            return true;
        }
        k = k + 1;
    }
    false
}

/// The step of event `e` in a trace.
pub open spec fn step_of(log: EventLog, e: int, a: int) -> Step {
    Step { event: e as usize, activity: a as usize, time: log.events[e].time }
}

/// Append event `e`, with activity id `a`, to the trace of every slot it
/// touches.
fn append_event(
    log: &EventLog,
    slot_of: &Vec<usize>,
    object_ids: &Vec<usize>,
    steps: &mut Vec<Vec<Step>>,
    last: &mut Vec<usize>,
    e: usize,
    a: usize,
)
    requires
        log.wf(),
        e < log.events.len(),
        slot_of.len() == log.objects.len(),
        old(steps).len() == object_ids.len(),
        old(last).len() == object_ids.len(),
        forall|s: int|
            0 <= s < object_ids.len() ==> object_ids[s] < log.objects.len() && slot_of[object_ids[s] as int] == s,
        forall|o: int|
            0 <= o < log.objects.len() && slot_of[o] != usize::MAX ==> slot_of[o] < object_ids.len()
                && object_ids[slot_of[o] as int] == o,
        forall|s: int| 0 <= s < object_ids.len() ==> old(last)[s] != e,
    ensures
        final(steps).len() == object_ids.len(),
        final(last).len() == object_ids.len(),
        forall|s: int|
            0 <= s < object_ids.len() ==> if log.related(e as int, object_ids[s] as int) {
                final(steps)[s]@ == old(steps)[s]@.push(step_of(*log, e as int, a as int))
                    && final(last)[s] == e
            } else {
                final(steps)[s] == old(steps)[s] && final(last)[s] == old(last)[s]
            },
{
    let objects = &log.events[e].objects;
    let ns = object_ids.len();
    let m = objects.len();
    let ghost steps0 = steps@;
    let ghost last0 = last@;
    for k in 0..m
        invariant
            log.wf(),
            e < log.events.len(),
            objects == log.events[e as int].objects,
            m == objects.len(),
            ns == object_ids.len(),
            slot_of.len() == log.objects.len(),
            steps.len() == ns,
            last.len() == ns,
            steps0.len() == ns,
            last0.len() == ns,
            forall|s: int|
                0 <= s < ns ==> object_ids[s] < log.objects.len() && slot_of[object_ids[s] as int] == s,
            forall|o: int|
                0 <= o < log.objects.len() && slot_of[o] != usize::MAX ==> slot_of[o] < ns
                    && object_ids[slot_of[o] as int] == o,
            forall|s: int| 0 <= s < ns ==> last0[s] != e,
            forall|s: int|
                #![trigger object_ids[s]]
                0 <= s < ns ==> if seen(objects@, k as int, object_ids[s] as int) {
                    steps[s]@ == steps0[s]@.push(step_of(*log, e as int, a as int)) && last[s] == e
                } else {
                    steps[s] == steps0[s] && last[s] == last0[s]
                },
    {
        let o = objects[k];
        let s = slot_of[o];
        if s != usize::MAX && last[s] != e {
            let ghost steps1 = steps@;
            let ghost last1 = last@;
            proof {
                assert(object_ids[s as int] == o);
                if seen(objects@, k as int, o as int) {
                    assert(last[s as int] == e);
                }
                assert(steps1[s as int] == steps0[s as int]);
            }
            last.set(s, e);
            let step = Step { event: e, activity: a, time: log.events[e].time };
            let mut row: Vec<Step> = Vec::new();
            std::mem::swap(&mut row, &mut steps[s]);
            assert(row == steps1[s as int]);
            row.push(step);
            steps.set(s, row);
            proof {
                assert(step == step_of(*log, e as int, a as int));
                assert(steps[s as int]@ == steps0[s as int]@.push(step_of(*log, e as int, a as int)));
                assert forall|s2: int| 0 <= s2 < ns && s2 != s implies steps[s2] == steps1[s2] && last[s2] == last1[s2] by {}
                assert forall|s2: int| #![trigger object_ids[s2]] 0 <= s2 < ns implies if seen(objects@, k + 1, object_ids[s2] as int) {
                    steps[s2]@ == steps0[s2]@.push(step_of(*log, e as int, a as int)) && last[s2] == e
                } else {
                    steps[s2] == steps0[s2] && last[s2] == last0[s2]
                } by {
                    lemma_seen_step(objects@, k as int, object_ids[s2] as int);
                    if s2 == s as int {
                        assert(objects[k as int] == object_ids[s2]);
                    } else {
                        if objects[k as int] == object_ids[s2] {
                            assert(slot_of[object_ids[s2] as int] == s2);
                        }
                    }
                }
            }
        } else {
            proof {
                assert forall|s2: int| #![trigger object_ids[s2]] 0 <= s2 < ns implies if seen(objects@, k + 1, object_ids[s2] as int) {
                    steps[s2]@ == steps0[s2]@.push(step_of(*log, e as int, a as int)) && last[s2] == e
                } else {
                    steps[s2] == steps0[s2] && last[s2] == last0[s2]
                } by {
                    lemma_seen_step(objects@, k as int, object_ids[s2] as int);
                    if objects[k as int] == object_ids[s2] {
                        assert(slot_of[object_ids[s2] as int] == s2);
                        if !seen(objects@, k as int, object_ids[s2] as int) {
                            assert(last[s2] == last0[s2]);
                        }
                    }
                }
            }
        }
    }
    proof {
        assert forall|s: int| 0 <= s < ns implies (log.related(e as int, object_ids[s] as int) <==> seen(
            objects@,
            m as int,
            object_ids[s] as int,
        )) by {
            if log.related(e as int, object_ids[s] as int) {
                let j = choose|j: int|
                    0 <= j < log.events[e as int].objects.len() && #[trigger] log.events[e as int].objects[j]
                        == object_ids[s] as int;
                assert(objects@[j] == object_ids[s]);
            }
            if seen(objects@, m as int, object_ids[s] as int) {
                let j = choose|j: int| 0 <= j < m && objects@[j] == object_ids[s] as int;
                assert(log.events[e as int].objects[j] == object_ids[s]);
            }
        }
    }
}

/// `o` is among the first `k` entries of `objects`.
pub open spec fn seen(objects: Seq<usize>, k: int, o: int) -> bool {
    exists|j: int| 0 <= j < k && objects[j] == o
}

proof fn lemma_seen_step(objects: Seq<usize>, k: int, o: int)
    requires
        0 <= k < objects.len(),
    ensures
        seen(objects, k + 1, o) <==> (seen(objects, k, o) || objects[k] == o),
{
    if seen(objects, k + 1, o) {
        let j = choose|j: int| 0 <= j < k + 1 && objects[j] == o;
        if j < k {
            assert(seen(objects, k, o));
        }
    }
    if seen(objects, k, o) {
        let j = choose|j: int| 0 <= j < k && objects[j] == o;
        assert(0 <= j < k + 1 && objects[j] == o);
    }
    if objects[k] == o {
        assert(0 <= k < k + 1 && objects[k] == o);
    }
}

/// The event at position `q` of `order` touches a slot and carries activity `x`.
pub open spec fn carries(log: EventLog, slot_of: Vec<usize>, order: Seq<usize>, q: int, x: Seq<char>) -> bool {
    touched(log, slot_of, order[q] as int) && act(log, order[q] as int) == x
}

/// Some event before position `p` of `order` touches a slot and carries `x`.
pub open spec fn carried_before(
    log: EventLog,
    slot_of: Vec<usize>,
    order: Seq<usize>,
    p: int,
    x: Seq<char>,
) -> bool {
    exists|q: int| 0 <= q < p && #[trigger] carries(log, slot_of, order, q, x)
}

/// The interning state after the first `p` events in trace order: `names`
/// are distinct, each carried by an earlier touching event, named in order of
/// first appearance; `ids` gives every earlier touching event its name.
pub open spec fn intern_inv(
    log: EventLog,
    slot_of: Vec<usize>,
    order: Seq<usize>,
    names: Seq<String>,
    ids: Seq<usize>,
    p: int,
) -> bool {
    &&& ids.len() == log.events.len()
    &&& forall|q: int|
        0 <= q < p && touched(log, slot_of, order[q] as int) ==> ids[order[q] as int] < names.len()
            && names[ids[order[q] as int] as int]@ == act(log, order[q] as int)
    &&& forall|i: int, j: int| 0 <= i < j < names.len() ==> names[i]@ != names[j]@
    &&& forall|i: int|
        0 <= i < names.len() ==> #[trigger] carried_before(log, slot_of, order, p, names[i]@)
    &&& forall|i: int, j: int, q: int|
        0 <= i < j < names.len() && 0 <= q < p && #[trigger] carries(log, slot_of, order, q, names[j]@)
            ==> #[trigger] carried_before(log, slot_of, order, q, names[i]@)
}

proof fn lemma_carried_extend(
    log: EventLog,
    slot_of: Vec<usize>,
    order: Seq<usize>,
    p: int,
    p2: int,
    x: Seq<char>,
)
    requires
        carried_before(log, slot_of, order, p, x),
        p <= p2,
    ensures
        carried_before(log, slot_of, order, p2, x),
{
    let q = choose|q: int| 0 <= q < p && #[trigger] carries(log, slot_of, order, q, x);
    assert(0 <= q < p2 && carries(log, slot_of, order, q, x));
}

proof fn lemma_intern_skip(
    log: EventLog,
    slot_of: Vec<usize>,
    order: Seq<usize>,
    names: Seq<String>,
    ids: Seq<usize>,
    p: int,
)
    requires
        intern_inv(log, slot_of, order, names, ids, p),
        !touched(log, slot_of, order[p] as int),
    ensures
        intern_inv(log, slot_of, order, names, ids, p + 1),
{
    assert forall|i: int| 0 <= i < names.len() implies #[trigger] carried_before(
        log,
        slot_of,
        order,
        p + 1,
        names[i]@,
    ) by {
        lemma_carried_extend(log, slot_of, order, p, p + 1, names[i]@);
    }
}

proof fn lemma_intern_found(
    log: EventLog,
    slot_of: Vec<usize>,
    order: Seq<usize>,
    names: Seq<String>,
    ids0: Seq<usize>,
    p: int,
    a: usize,
)
    requires
        is_permutation(order, log.events.len() as nat),
        0 <= p < log.events.len(),
        intern_inv(log, slot_of, order, names, ids0, p),
        touched(log, slot_of, order[p] as int),
        a < names.len(),
        names[a as int]@ == act(log, order[p] as int),
    ensures
        intern_inv(log, slot_of, order, names, ids0.update(order[p] as int, a), p + 1),
{
    let ids = ids0.update(order[p] as int, a);
    assert(order[p] < log.events.len());
    assert(ids[order[p] as int] == a);
    assert forall|q: int|
        0 <= q < p + 1 && touched(log, slot_of, order[q] as int) implies ids[order[q] as int] < names.len()
            && names[ids[order[q] as int] as int]@ == act(log, order[q] as int) by {
        if q < p {
            assert(order[q] != order[p]);
            assert(order[q] < log.events.len());
            assert(ids[order[q] as int] == ids0[order[q] as int]);
        }
    }
    assert forall|i: int| 0 <= i < names.len() implies #[trigger] carried_before(
        log,
        slot_of,
        order,
        p + 1,
        names[i]@,
    ) by {
        lemma_carried_extend(log, slot_of, order, p, p + 1, names[i]@);
    }
    assert forall|i: int, j: int, q: int|
        0 <= i < j < names.len() && 0 <= q < p + 1 && #[trigger] carries(log, slot_of, order, q, names[j]@)
            implies #[trigger] carried_before(log, slot_of, order, q, names[i]@) by {
        if q == p {
            assert(carried_before(log, slot_of, order, p, names[j]@));
            let q3 = choose|q3: int| 0 <= q3 < p && #[trigger] carries(log, slot_of, order, q3, names[j]@);
            assert(carried_before(log, slot_of, order, q3, names[i]@));
            lemma_carried_extend(log, slot_of, order, q3, q, names[i]@);
        }
    }
}

proof fn lemma_intern_new(
    log: EventLog,
    slot_of: Vec<usize>,
    order: Seq<usize>,
    names0: Seq<String>,
    names: Seq<String>,
    ids0: Seq<usize>,
    p: int,
    a: usize,
)
    requires
        is_permutation(order, log.events.len() as nat),
        0 <= p < log.events.len(),
        a == names0.len(),
        intern_inv(log, slot_of, order, names0, ids0, p),
        touched(log, slot_of, order[p] as int),
        names.len() == names0.len() + 1,
        names.drop_last() == names0,
        names[names0.len() as int]@ == act(log, order[p] as int),
        forall|i: int| 0 <= i < names0.len() ==> names0[i]@ != act(log, order[p] as int),
    ensures
        intern_inv(log, slot_of, order, names, ids0.update(order[p] as int, a), p + 1),
{
    let ids = ids0.update(order[p] as int, a);
    assert(order[p] < log.events.len());
    assert(ids[order[p] as int] == a);
    assert forall|i: int| 0 <= i < names0.len() implies names[i] == names0[i] by {
        assert(names[i] == names.drop_last()[i]);
    }
    assert forall|q: int|
        0 <= q < p + 1 && touched(log, slot_of, order[q] as int) implies ids[order[q] as int] < names.len()
            && names[ids[order[q] as int] as int]@ == act(log, order[q] as int) by {
        if q < p {
            assert(order[q] != order[p]);
            assert(order[q] < log.events.len());
            assert(ids[order[q] as int] == ids0[order[q] as int]);
        }
    }
    assert forall|i: int, j: int| 0 <= i < j < names.len() implies names[i]@ != names[j]@ by {
        assert(names[i] == names0[i]);
        if j < names0.len() {
            assert(names[j] == names0[j]);
        }
    }
    assert forall|i: int| 0 <= i < names.len() implies #[trigger] carried_before(
        log,
        slot_of,
        order,
        p + 1,
        names[i]@,
    ) by {
        if i < names0.len() {
            assert(names[i] == names0[i]);
            lemma_carried_extend(log, slot_of, order, p, p + 1, names[i]@);
        } else {
            assert(carries(log, slot_of, order, p, names[i]@));
        }
    }
    assert forall|i: int, j: int, q: int|
        0 <= i < j < names.len() && 0 <= q < p + 1 && #[trigger] carries(log, slot_of, order, q, names[j]@)
            implies #[trigger] carried_before(log, slot_of, order, q, names[i]@) by {
        assert(names[i] == names0[i]);
        if j < names0.len() {
            assert(names[j] == names0[j]);
            if q == p {
                assert(false);
            }
        } else {
            if q < p {
                let x = ids0[order[q] as int] as int;
                assert(names0[x]@ == names[j]@);
                assert(false);
            }
            assert(carried_before(log, slot_of, order, p, names0[i]@));
        }
    }
}

/// Intern the activity of the event at position `p` of the trace order.
fn intern_step(
    log: &EventLog,
    slot_of: &Vec<usize>,
    order: &Vec<usize>,
    names: &mut Vec<String>,
    ids: &mut Vec<usize>,
    p: usize,
)
    requires
        log.wf(),
        slot_of.len() == log.objects.len(),
        is_permutation(order@, log.events.len() as nat),
        p < log.events.len(),
        intern_inv(*log, *slot_of, order@, old(names)@, old(ids)@, p as int),
    ensures
        intern_inv(*log, *slot_of, order@, final(names)@, final(ids)@, p + 1),
{
    let e = order[p];
    let ghost names0 = names@;
    let ghost ids0 = ids@;
    if touches_slot(log, slot_of, e) {
        let a = intern(names, &log.events[e].activity);
        ids.set(e, a);
        proof {
            if names@ == names0 {
                lemma_intern_found(*log, *slot_of, order@, names@, ids0, p as int, a);
            } else {
                lemma_intern_new(*log, *slot_of, order@, names0, names@, ids0, p as int, a);
            }
        }
    } else {
        proof {
            lemma_intern_skip(*log, *slot_of, order@, names@, ids@, p as int);
        }
    }
}

/// Activity ids in order of first appearance: per event, its interned id
/// when it touches a slot.
fn intern_activities(log: &EventLog, slot_of: &Vec<usize>, order: &Vec<usize>) -> (r: (
    Vec<String>,
    Vec<usize>,
))
    requires
        log.wf(),
        slot_of.len() == log.objects.len(),
        is_permutation(order@, log.events.len() as nat),
    ensures
        r.1.len() == log.events.len(),
        forall|e: int|
            #![trigger touched(*log, *slot_of, e)]
            0 <= e < log.events.len() && touched(*log, *slot_of, e) ==> r.1@[e] < r.0@.len()
                && r.0@[r.1@[e] as int]@ == act(*log, e),
        intern_inv(*log, *slot_of, order@, r.0@, r.1@, log.events.len() as int),
{
    let n = log.events.len();
    let mut names: Vec<String> = Vec::new();
    let mut ids: Vec<usize> = Vec::new();
    let mut e: usize = 0;
    while e < n
        invariant
            0 <= e <= n,
            ids.len() == e,
        decreases n - e,
    {
        ids.push(0);
        e = e + 1;
    }
    let mut p: usize = 0;
    while p < n
        invariant
            0 <= p <= n,
            n == log.events.len(),
            log.wf(),
            slot_of.len() == log.objects.len(),
            is_permutation(order@, n as nat),
            intern_inv(*log, *slot_of, order@, names@, ids@, p as int),
        decreases n - p,
    {
        intern_step(log, slot_of, order, &mut names, &mut ids, p);
        p = p + 1;
    }
    proof {
        assert forall|e2: int|
            #![trigger touched(*log, *slot_of, e2)]
            0 <= e2 < n && touched(*log, *slot_of, e2) implies ids[e2] < names.len() && names[ids[e2] as int]@
                == act(*log, e2) by {
            assert(occurs(order@, e2));
            let q = choose|q: int| 0 <= q < order.len() && order[q] == e2;
            assert(0 <= q < p && touched(*log, *slot_of, order[q] as int));
            assert(ids@[e2] < names@.len());
        }
        assert(names@.len() == names.len());
    }
    (names, ids)
}

/// Event `e` touches an object whose slot is set.
pub open spec fn touched(log: EventLog, slot_of: Vec<usize>, e: int) -> bool {
    exists|k: int|
        0 <= k < log.events[e].objects.len() && slot_of[log.events[e].objects[k] as int] != usize::MAX
}

proof fn lemma_names_cover(
    log: EventLog,
    ty: Seq<char>,
    slot_of: Vec<usize>,
    order: Seq<usize>,
    names: Seq<String>,
)
    requires
        is_permutation(order, log.events.len() as nat),
        forall|e: int|
            #![trigger touched(log, slot_of, e)]
            0 <= e < log.events.len() ==> (touched(log, slot_of, e) <==> log.is_target(e, ty)),
        forall|i: int|
            0 <= i < names.len() ==> #[trigger] carried_before(log, slot_of, order, log.events.len() as int, names[i]@),
    ensures
        forall|i: int| 0 <= i < names.len() ==> carried_by_target(log, ty, #[trigger] names[i]@),
{
    let n = log.events.len();
    assert forall|i: int| 0 <= i < names.len() implies carried_by_target(log, ty, #[trigger] names[i]@) by {
        assert(carried_before(log, slot_of, order, n as int, names[i]@));
        let q = choose|q: int| 0 <= q < n && #[trigger] carries(log, slot_of, order, q, names[i]@);
        assert(order[q] < n);
        assert(touched(log, slot_of, order[q] as int));
        assert(act(log, order[q] as int) == names[i]@);
    }
}

proof fn lemma_names_first(
    log: EventLog,
    ty: Seq<char>,
    slot_of: Vec<usize>,
    order: Seq<usize>,
    names: Seq<String>,
)
    requires
        is_permutation(order, log.events.len() as nat),
        forall|q1: int, q2: int|
            0 <= q1 < q2 < order.len() ==> log.before(order[q1] as int, order[q2] as int),
        forall|e: int|
            #![trigger touched(log, slot_of, e)]
            0 <= e < log.events.len() ==> (touched(log, slot_of, e) <==> log.is_target(e, ty)),
        forall|i: int, j: int, q: int|
            0 <= i < j < names.len() && 0 <= q < log.events.len() && #[trigger] carries(log, slot_of, order, q, names[j]@)
                ==> #[trigger] carried_before(log, slot_of, order, q, names[i]@),
    ensures
        forall|i: int, j: int, e: int|
            0 <= i < j < names.len() && 0 <= e < log.events.len() && log.is_target(e, ty) && #[trigger] act(
                log,
                e,
            ) == #[trigger] names[j]@ ==> carried_before_event(log, ty, #[trigger] names[i]@, e),
{
    let n = log.events.len();
    assert forall|i: int, j: int, e: int|
        0 <= i < j < names.len() && 0 <= e < n && log.is_target(e, ty) && #[trigger] act(log, e)
            == #[trigger] names[j]@ implies carried_before_event(log, ty, #[trigger] names[i]@, e) by {
        assert(occurs(order, e));
        let q = choose|q: int| 0 <= q < order.len() && order[q] == e;
        assert(touched(log, slot_of, e));
        assert(carries(log, slot_of, order, q, names[j]@));
        assert(carried_before(log, slot_of, order, q, names[i]@));
        let q2 = choose|q2: int| 0 <= q2 < q && #[trigger] carries(log, slot_of, order, q2, names[i]@);
        let e2 = order[q2] as int;
        assert(e2 < n);
        assert(touched(log, slot_of, e2));
        assert(log.before(e2, e));
        assert(act(log, e2) == names[i]@);
    }
}

/// The interned names, read against the trace order, are the names of
/// [`names_ok`].
proof fn lemma_names_ok(
    log: EventLog,
    ty: Seq<char>,
    slot_of: Vec<usize>,
    order: Seq<usize>,
    names: Vec<String>,
    ids: Seq<usize>,
)
    requires
        is_permutation(order, log.events.len() as nat),
        forall|q1: int, q2: int|
            0 <= q1 < q2 < order.len() ==> log.before(order[q1] as int, order[q2] as int),
        forall|e: int|
            #![trigger touched(log, slot_of, e)]
            0 <= e < log.events.len() ==> (touched(log, slot_of, e) <==> log.is_target(e, ty)),
        forall|e: int|
            #![trigger touched(log, slot_of, e)]
            0 <= e < log.events.len() && touched(log, slot_of, e) ==> ids[e] < names@.len()
                && names@[ids[e] as int]@ == act(log, e),
        intern_inv(log, slot_of, order, names@, ids, log.events.len() as int),
    ensures
        names_ok(log, ty, names@),
{
    let n = log.events.len();
    lemma_names_cover(log, ty, slot_of, order, names@);
    lemma_names_first(log, ty, slot_of, order, names@);
    assert forall|e: int|
        0 <= e < n && #[trigger] log.is_target(e, ty) implies named(names@, act(log, e)) by {
        assert(touched(log, slot_of, e));
        assert(ids[e] < names.len());
        assert(names@[ids[e] as int]@ == act(log, e));
    }
}

/// The traces of `object_type`.
pub fn build(log: &EventLog, object_type: &str) -> (t: Traces)
    requires
        log.wf(),
    ensures
        t.describes(*log, object_type@),
{
    let ty: String = object_type.to_owned();
    let (object_ids, slot_of) = collect_slots(log, &ty);
    let ns = object_ids.len();
    let n = log.events.len();
    let order = event_order(log);
    let (names, ids) = intern_activities(log, &slot_of, &order);
    let ghost tyv = ty@;
    proof {
        assert forall|e: int| #![trigger touched(*log, slot_of, e)] 0 <= e < n implies (touched(*log, slot_of, e) <==> log.is_target(e, tyv)) by {
            if touched(*log, slot_of, e) {
                let k = choose|k: int|
                    0 <= k < log.events[e].objects.len() && slot_of[log.events[e].objects[k] as int]
                        != usize::MAX;
                assert(log.is_member(log.events[e].objects[k] as int, tyv));
            }
            if log.is_target(e, tyv) {
                let k = choose|k: int|
                    0 <= k < log.events[e].objects.len() && log.is_member(
                        #[trigger] log.events[e].objects[k] as int,
                        tyv,
                    );
                assert(slot_of[log.events[e].objects[k] as int] != usize::MAX);
            }
        }
    }
    let ghost pos: Seq<int> = Seq::new(n as nat, |e: int| choose|q: int| 0 <= q < n && order[q] == e);
    proof {
        assert forall|e: int| 0 <= e < n implies 0 <= #[trigger] pos[e] < n && order[pos[e]] == e by {
            assert(occurs(order@, e));
        }
        assert forall|q: int| 0 <= q < n implies #[trigger] pos[order[q] as int] == q by {
            let e = order[q] as int;
            assert(occurs(order@, e));
            let q2 = pos[e];
            if q2 != q {
                if q2 < q {
                    assert(order[q2] != order[q]);
                } else {
                    assert(order[q] != order[q2]);
                }
            }
        }
    }
    let mut steps: Vec<Vec<Step>> = Vec::new();
    let mut last: Vec<usize> = Vec::new();
    let mut s: usize = 0;
    while s < ns
        invariant
            0 <= s <= ns,
            steps.len() == s,
            last.len() == s,
            forall|j: int| #![trigger steps[j]] 0 <= j < s ==> steps[j]@.len() == 0,
            forall|j: int| #![trigger last[j]] 0 <= j < s ==> last[j] == usize::MAX,
        decreases ns - s,
    {
        let ghost steps0 = steps@;
        let ghost last0 = last@;
        let row: Vec<Step> = Vec::new();
        steps.push(row);
        last.push(usize::MAX);
        proof {
            assert forall|j: int| #![trigger steps[j]] 0 <= j < s + 1 implies steps[j]@.len() == 0 by {
                if j < s {
                    assert(steps[j] == steps0[j]);
                }
            }
            assert forall|j: int| #![trigger last[j]] 0 <= j < s + 1 implies last[j] == usize::MAX by {
                if j < s {
                    assert(last[j] == last0[j]);
                }
            }
        }
        s = s + 1;
    }
    for p in 0..n
        invariant
            n == log.events.len(),
            log.wf(),
            ns == object_ids.len(),
            slot_of.len() == log.objects.len(),
            forall|s2: int|
                0 <= s2 < ns ==> object_ids[s2] < log.objects.len() && slot_of[object_ids[s2] as int] == s2,
            forall|o: int|
                0 <= o < log.objects.len() && slot_of[o] != usize::MAX ==> slot_of[o] < ns
                    && object_ids[slot_of[o] as int] == o,
            is_permutation(order@, n as nat),
            forall|e: int| 0 <= e < n ==> 0 <= #[trigger] pos[e] < n && order[pos[e]] == e,
            forall|q: int| 0 <= q < n ==> #[trigger] pos[order[q] as int] == q,
            ids.len() == n,
            forall|e: int|
                0 <= e < n && touched(*log, slot_of, e) ==> ids[e] < names.len() && names[ids[e] as int]@
                    == act(*log, e),
            steps.len() == ns,
            last.len() == ns,
            forall|s2: int, k: int|
                0 <= s2 < ns && 0 <= k < steps[s2].len() ==> {
                    let x = #[trigger] steps[s2][k];
                    &&& x.event < n
                    &&& pos[x.event as int] < p
                    &&& log.related(x.event as int, object_ids[s2] as int)
                    &&& x.time == log.events[x.event as int].time
                    &&& x.activity == ids[x.event as int]
                },
            forall|s2: int, k1: int, k2: int|
                0 <= s2 < ns && 0 <= k1 < k2 < steps[s2].len() ==> pos[steps[s2][k1].event as int]
                    < pos[steps[s2][k2].event as int],
            forall|s2: int, q: int|
                0 <= s2 < ns && 0 <= q < p && log.related(order[q] as int, object_ids[s2] as int)
                    ==> exists|k: int| 0 <= k < steps[s2].len() && steps[s2][k].event == order[q],
            forall|s2: int|
                #![trigger last[s2]]
                0 <= s2 < ns ==> last[s2] == usize::MAX || (last[s2] < n && pos[last[s2] as int] < p),
    {
        let e = order[p];
        let ghost steps0 = steps@;
        let ghost last0 = last@;
        proof {
            assert forall|s2: int| 0 <= s2 < ns implies last[s2] != e by {
                assert(pos[order[p as int] as int] == p);
            }
        }
        append_event(log, &slot_of, &object_ids, &mut steps, &mut last, e, ids[e]);
        proof {
            assert(pos[e as int] == p);
            assert forall|s2: int, k: int|
                0 <= s2 < ns && 0 <= k < steps[s2].len() implies {
                    let x = #[trigger] steps[s2][k];
                    &&& x.event < n
                    &&& pos[x.event as int] < p + 1
                    &&& log.related(x.event as int, object_ids[s2] as int)
                    &&& x.time == log.events[x.event as int].time
                    &&& x.activity == ids[x.event as int]
                } by {
                if k < steps0[s2].len() {
                    assert(steps[s2][k] == steps0[s2][k]);
                }
            }
            assert forall|s2: int, k1: int, k2: int|
                0 <= s2 < ns && 0 <= k1 < k2 < steps[s2].len() implies pos[steps[s2][k1].event as int]
                    < pos[steps[s2][k2].event as int] by {
                assert(steps[s2][k1] == steps0[s2][k1]);
                if k2 < steps0[s2].len() {
                    assert(steps[s2][k2] == steps0[s2][k2]);
                }
            }
            assert forall|s2: int, q: int|
                0 <= s2 < ns && 0 <= q < p + 1 && log.related(order[q] as int, object_ids[s2] as int)
                    implies exists|k: int| 0 <= k < steps[s2].len() && steps[s2][k].event == order[q] by {
                if q < p {
                    let k = choose|k: int| 0 <= k < steps0[s2].len() && steps0[s2][k].event == order[q];
                    assert(steps[s2][k] == steps0[s2][k]);
                } else {
                    assert(steps[s2][steps0[s2].len() as int].event == e);
                }
            }
        }
    }
    let t = Traces { object_ids, activity_names: names, steps };
    proof {
        assert forall|s2: int, k: int|
            0 <= s2 < t.steps.len() && 0 <= k < t.steps[s2].len() implies t.step_ok(*log, s2, k) by {
            let x = t.steps[s2][k];
            let o = t.object_ids[s2] as int;
            let j = choose|j: int| 0 <= j < log.events[x.event as int].objects.len() && #[trigger] log.events[x.event as int].objects[j] == o;
            assert(slot_of[o] != usize::MAX);
        }
        assert forall|s2: int, k1: int, k2: int|
            0 <= s2 < t.steps.len() && 0 <= k1 < k2 < t.steps[s2].len() implies log.before(
                t.steps[s2][k1].event as int,
                t.steps[s2][k2].event as int,
            ) by {
            let a = t.steps[s2][k1].event as int;
            let b = t.steps[s2][k2].event as int;
            assert(pos[a] < pos[b]);
            assert(order[pos[a]] == a);
            assert(order[pos[b]] == b);
        }
        assert forall|s2: int, e: int|
            0 <= s2 < t.steps.len() && 0 <= e < n && log.related(e, t.object_ids[s2] as int) implies exists|k: int|
                0 <= k < t.steps[s2].len() && t.steps[s2][k].event == e by {
            assert(order[pos[e]] == e);
        }
        lemma_names_ok(*log, tyv, slot_of, order@, names, ids@);
        assert forall|s2: int|
            0 <= s2 < t.steps.len() implies step_events(#[trigger] t.steps[s2]@) == trace_of(
                *log,
                t.object_ids[s2] as int,
            ) by {
            let ev = step_events(t.steps[s2]@);
            let o = t.object_ids[s2] as int;
            assert forall|k: int| 0 <= k < ev.len() implies 0 <= #[trigger] ev[k] < log.events.len() && log.related(ev[k], o) by {
                assert(t.step_ok(*log, s2, k));
            }
            assert forall|e: int| 0 <= e < log.events.len() && #[trigger] log.related(e, o) implies ev.contains(e) by {
                let k = choose|k: int| 0 <= k < t.steps[s2].len() && t.steps[s2][k].event == e;
                assert(ev[k] == e);
            }
            assert(is_trace(*log, o, ev));
            lemma_trace_of(*log, o, ev);
        }
    }
    t
}

} // verus!
