//! The token game on a Petri net, and token-based replay.
//!
//! Transitions are found by name (the last of equal names wins, as a lookup
//! table filled in transition order keeps it). A place lists as outputs the
//! transitions that consume from it, as inputs those that produce into it;
//! a name listed twice is an arc of weight two. The initial marking is one
//! token on every place without inputs; a word fits when every step finds
//! its transition enabled and the final marking is one token on every place
//! without outputs and none elsewhere.
use vstd::prelude::*;
use crate::petri::PetriNet;
use crate::log::EventLog;
use crate::text::name_seq;
use crate::trace::build;
use crate::variants::{collect_variants, groups_inv};
use crate::replay::{ReplayReport, replay_ok, report};
use crate::trace::Traces;
use crate::precision::{PrecisionReport, precision_ok, score, slot_sum, tables_ok, trace_allowed};

verus! {

/// The transition named `name`: the last one of that name.
pub open spec fn tr_index(ts: Seq<String>, name: Seq<char>) -> Option<int>
    decreases ts.len(),
{
    if ts.len() == 0 {
        None
    } else if ts.last()@ == name {
        Some(ts.len() - 1)
    } else {
        tr_index(ts.drop_last(), name)
    }
}

/// How many of `names` name transition `t`.
pub open spec fn arc_count(ts: Seq<String>, names: Seq<String>, t: int) -> nat
    decreases names.len(),
{
    if names.len() == 0 {
        0
    } else {
        arc_count(ts, names.drop_last(), t) + if tr_index(ts, names.last()@) == Some(t) {
            1nat
        } else {
            0nat
        }
    }
}

/// Tokens transition `t` takes from place `p`.
pub open spec fn arcs_in(net: PetriNet, t: int, p: int) -> nat {
    arc_count(net.transitions@, net.places[p].outputs@, t)
}

/// Tokens transition `t` puts into place `p`.
pub open spec fn arcs_out(net: PetriNet, t: int, p: int) -> nat {
    arc_count(net.transitions@, net.places[p].inputs@, t)
}

/// One token on each place without inputs.
pub open spec fn initial_marking(net: PetriNet) -> Seq<int> {
    Seq::new(net.places.len() as nat, |p: int| if net.places[p].inputs.len() == 0 { 1int } else { 0int })
}

/// One token on each place without outputs.
pub open spec fn final_marking(net: PetriNet) -> Seq<int> {
    Seq::new(net.places.len() as nat, |p: int| if net.places[p].outputs.len() == 0 { 1int } else { 0int })
}

/// Transition `t` can fire at marking `m`.
pub open spec fn enabled(net: PetriNet, m: Seq<int>, t: int) -> bool {
    forall|p: int| 0 <= p < m.len() ==> #[trigger] m[p] >= arcs_in(net, t, p)
}

/// The marking after `t` fires at `m`.
pub open spec fn fire(net: PetriNet, m: Seq<int>, t: int) -> Seq<int> {
    Seq::new(m.len(), |p: int| m[p] - arcs_in(net, t, p) + arcs_out(net, t, p))
}

/// The marking after the word `x` of activity names, or `None` where a name
/// has no transition or a transition is not enabled.
pub open spec fn run(net: PetriNet, x: Seq<Seq<char>>) -> Option<Seq<int>>
    decreases x.len(),
{
    if x.len() == 0 {
        Some(initial_marking(net))
    } else {
        match run(net, x.drop_last()) {
            None => None,
            Some(m) => match tr_index(net.transitions@, x.last()) {
                None => None,
                Some(t) => if enabled(net, m, t) {
                    Some(fire(net, m, t))
                } else {
                    None
                },
            },
        }
    }
}

/// The word `x` replays on the net: no token missing, and the final marking
/// reached.
pub open spec fn net_fits(net: PetriNet, x: Seq<Seq<char>>) -> bool {
    net.places.len() > 0 && run(net, x) == Some(final_marking(net))
}

/// How often `p` occurs in `s`.
pub open spec fn count_of(s: Seq<usize>, p: int) -> nat
    decreases s.len(),
{
    if s.len() == 0 {
        0
    } else {
        count_of(s.drop_last(), p) + if s.last() == p {
            1nat
        } else {
            0nat
        }
    }
}

pub proof fn lemma_count_of_take(s: Seq<usize>, j: int, p: int)
    requires
        0 <= j < s.len(),
    ensures
        count_of(s.take(j + 1), p) == count_of(s.take(j), p) + if s[j] == p { 1nat } else { 0nat },
{
    assert(s.take(j + 1).drop_last() =~= s.take(j));
}

pub proof fn lemma_count_of_le(s: Seq<usize>, j: int, p: int)
    requires
        0 <= j <= s.len(),
    ensures
        count_of(s.take(j), p) <= count_of(s, p),
        count_of(s, p) <= s.len(),
    decreases s.len() - j,
{
    if j < s.len() {
        lemma_count_of_take(s, j, p);
        lemma_count_of_le(s, j + 1, p);
    } else {
        assert(s.take(j) =~= s);
        lemma_count_of_len(s, p);
    }
}

pub proof fn lemma_count_of_len(s: Seq<usize>, p: int)
    ensures
        count_of(s, p) <= s.len(),
    decreases s.len(),
{
    if s.len() > 0 {
        lemma_count_of_len(s.drop_last(), p);
    }
}

pub proof fn lemma_arc_count_take(ts: Seq<String>, names: Seq<String>, k: int, t: int)
    requires
        0 <= k < names.len(),
    ensures
        arc_count(ts, names.take(k + 1), t) == arc_count(ts, names.take(k), t) + if tr_index(ts, names[k]@) == Some(t) {
            1nat
        } else {
            0nat
        },
{
    assert(names.take(k + 1).drop_last() =~= names.take(k));
}

/// The transition named `name`, looked up as the table keeps it.
pub fn transition_of(transitions: &Vec<String>, name: &String) -> (r: Option<usize>)
    ensures
        match r {
            None => tr_index(transitions@, name@) is None,
            Some(t) => tr_index(transitions@, name@) == Some(t as int) && t < transitions.len(),
        },
{
    let mut found: Option<usize> = None;
    let mut i: usize = 0;
    while i < transitions.len()
        invariant
            i <= transitions.len(),
            match found {
                None => tr_index(transitions@.take(i as int), name@) is None,
                Some(t) => tr_index(transitions@.take(i as int), name@) == Some(t as int) && t < i,
            },
        decreases transitions.len() - i,
    {
        let ghost prev = transitions@.take(i as int);
        proof {
            assert(transitions@.take(i + 1).drop_last() =~= prev);
            assert(transitions@.take(i + 1).last() == transitions@[i as int]);
        }
        if transitions[i] == *name {
            found = Some(i);
        }
        i = i + 1;
    }
    assert(transitions@.take(transitions.len() as int) =~= transitions@);
    found
}

/// Per transition, the places it consumes from (`inputs == false`: places
/// whose outputs name it) or produces into, one entry per arc.
pub fn arcs(net: &PetriNet, inputs: bool) -> (r: Vec<Vec<usize>>)
    ensures
        r.len() == net.transitions.len(),
        forall|t: int, j: int| 0 <= t < r.len() && 0 <= j < r[t].len() ==> #[trigger] r[t]@[j] < net.places.len(),
        forall|t: int, p: int|
            0 <= t < r.len() && 0 <= p < net.places.len() ==> #[trigger] count_of(r[t]@, p) == if inputs {
                arcs_out(*net, t, p)
            } else {
                arcs_in(*net, t, p)
            },
{
    let nt = net.transitions.len();
    let np = net.places.len();
    let ghost ts = net.transitions@;
    let mut r: Vec<Vec<usize>> = Vec::new();
    let mut t: usize = 0;
    while t < nt
        invariant
            t <= nt,
            r.len() == t,
            forall|t2: int| 0 <= t2 < t ==> #[trigger] r[t2]@ == Seq::<usize>::empty(),
        decreases nt - t,
    {
        r.push(Vec::new());
        t = t + 1;
    }
    let mut p: usize = 0;
    while p < np
        invariant
            nt == net.transitions.len(),
            np == net.places.len(),
            ts == net.transitions@,
            p <= np,
            r.len() == nt,
            forall|t2: int, j: int| 0 <= t2 < nt && 0 <= j < r[t2].len() ==> #[trigger] r[t2]@[j] < p,
            forall|t2: int, q: int|
                0 <= t2 < nt && 0 <= q < np ==> #[trigger] count_of(r[t2]@, q) == if q < p {
                    if inputs { arcs_out(*net, t2, q) } else { arcs_in(*net, t2, q) }
                } else {
                    0
                },
        decreases np - p,
    {
        let names: &Vec<String> = if inputs { &net.places[p].inputs } else { &net.places[p].outputs };
        let mut k: usize = 0;
        while k < names.len()
            invariant
                nt == net.transitions.len(),
                np == net.places.len(),
                ts == net.transitions@,
                p < np,
                names@ == if inputs { net.places[p as int].inputs@ } else { net.places[p as int].outputs@ },
                k <= names.len(),
                r.len() == nt,
                forall|t2: int, j: int| 0 <= t2 < nt && 0 <= j < r[t2].len() ==> #[trigger] r[t2]@[j] <= p,
                forall|t2: int, q: int|
                    0 <= t2 < nt && 0 <= q < np ==> #[trigger] count_of(r[t2]@, q) == if q < p {
                        if inputs { arcs_out(*net, t2, q) } else { arcs_in(*net, t2, q) }
                    } else if q == p {
                        arc_count(ts, names@.take(k as int), t2)
                    } else {
                        0
                    },
            decreases names.len() - k,
        {
            let found = transition_of(&net.transitions, &names[k]);
            let ghost r0 = r@;
            proof {
                assert forall|t2: int| 0 <= t2 < nt implies arc_count(ts, names@.take(k + 1), t2) == arc_count(ts, names@.take(k as int), t2)
                    + if tr_index(ts, names@[k as int]@) == Some(t2) { 1nat } else { 0nat } by {
                    lemma_arc_count_take(ts, names@, k as int, t2);
                }
            }
            match found {
                Some(tr) => {
                    let mut list: Vec<usize> = Vec::new();
                    std::mem::swap(&mut list, &mut r[tr]);
                    let ghost before = list@;
                    list.push(p);
                    r.set(tr, list);
                    proof {
                        assert(r@[tr as int]@.drop_last() =~= before);
                        assert forall|t2: int, j: int| 0 <= t2 < nt && 0 <= j < r[t2].len() implies #[trigger] r[t2]@[j] <= p by {
                            if t2 != tr {
                                assert(r@[t2] == r0[t2]);
                            } else if j < before.len() {
                                assert(r[t2]@[j] == before[j]);
                            }
                        }
                        assert forall|t2: int, q: int| 0 <= t2 < nt && 0 <= q < np implies #[trigger] count_of(r[t2]@, q) == if q < p {
                            if inputs { arcs_out(*net, t2, q) } else { arcs_in(*net, t2, q) }
                        } else if q == p {
                            arc_count(ts, names@.take(k + 1), t2)
                        } else {
                            0
                        } by {
                            if t2 != tr {
                                assert(r@[t2] == r0[t2]);
                            } else {
                                assert(before == r0[t2]@);
                                assert(r[t2]@.last() == p);
                                assert(count_of(r[t2]@, q) == count_of(before, q) + if p == q { 1nat } else { 0nat });
                            }
                        }
                    }
                },
                None => {},
            }
            k = k + 1;
        }
        proof {
            assert(names@.take(names.len() as int) =~= names@);
            assert forall|t2: int, j: int| 0 <= t2 < nt && 0 <= j < r[t2].len() implies #[trigger] r[t2]@[j] < p + 1 by {
                assert(r[t2]@[j] <= p);
            }
        }
        p = p + 1;
    }
    r
}


/// A marking as integers.
pub open spec fn ints(m: Seq<u128>) -> Seq<int> {
    m.map_values(|v: u128| v as int)
}

/// `consumes` and `produces` list the arcs of `net`, per transition.
pub open spec fn arcs_ok(net: PetriNet, consumes: Seq<Vec<usize>>, produces: Seq<Vec<usize>>) -> bool {
    &&& consumes.len() == net.transitions.len()
    &&& produces.len() == net.transitions.len()
    &&& forall|t: int, j: int| 0 <= t < consumes.len() && 0 <= j < consumes[t].len() ==> #[trigger] consumes[t]@[j] < net.places.len()
    &&& forall|t: int, j: int| 0 <= t < produces.len() && 0 <= j < produces[t].len() ==> #[trigger] produces[t]@[j] < net.places.len()
    &&& forall|t: int, p: int| 0 <= t < consumes.len() && 0 <= p < net.places.len() ==> #[trigger] count_of(consumes[t]@, p) == arcs_in(net, t, p)
    &&& forall|t: int, p: int| 0 <= t < produces.len() && 0 <= p < net.places.len() ==> #[trigger] count_of(produces[t]@, p) == arcs_out(net, t, p)
}

/// `act_tr` maps each activity name to its transition.
pub open spec fn act_ok(net: PetriNet, names: Seq<String>, act_tr: Seq<Option<usize>>) -> bool {
    &&& act_tr.len() == names.len()
    &&& forall|a: int| 0 <= a < names.len() ==> match #[trigger] act_tr[a] {
        None => tr_index(net.transitions@, names[a]@) is None,
        Some(t) => tr_index(net.transitions@, names[a]@) == Some(t as int) && t < net.transitions.len(),
    }
}

/// Take one token per entry of `list`; fails, at some point, when a place
/// runs out.
fn consume(marking: &mut Vec<u128>, list: &Vec<usize>) -> (ok: bool)
    requires
        forall|j: int| 0 <= j < list.len() ==> #[trigger] list[j] < old(marking).len(),
    ensures
        final(marking).len() == old(marking).len(),
        ok == forall|p: int| 0 <= p < old(marking).len() ==> #[trigger] old(marking)[p] >= count_of(list@, p),
        ok ==> forall|p: int| 0 <= p < old(marking).len() ==> #[trigger] final(marking)[p] == old(marking)[p] - count_of(list@, p),
{
    let ghost m0 = marking@;
    let mut j: usize = 0;
    while j < list.len()
        invariant
            forall|i: int| 0 <= i < list.len() ==> #[trigger] list[i] < m0.len(),
            m0 == old(marking)@,
            j <= list.len(),
            marking.len() == m0.len(),
            forall|p: int| 0 <= p < m0.len() ==> #[trigger] marking[p] == m0[p] - count_of(list@.take(j as int), p),
            forall|p: int| 0 <= p < m0.len() ==> m0[p] >= #[trigger] count_of(list@.take(j as int), p),
        decreases list.len() - j,
    {
        let p = list[j];
        proof {
            assert forall|q: int| 0 <= q < m0.len() implies #[trigger] count_of(list@.take(j + 1), q) == count_of(list@.take(j as int), q) + if list@[j as int] == q { 1nat } else { 0nat } by {
                lemma_count_of_take(list@, j as int, q);
            }
        }
        if marking[p] == 0 {
            proof {
                lemma_count_of_le(list@, j + 1, p as int);
                assert(m0[p as int] < count_of(list@, p as int));
            }
            return false;
        }
        marking.set(p, marking[p] - 1);
        j = j + 1;
    }
    assert(list@.take(list.len() as int) =~= list@);
    true
}

/// Put one token per entry of `list`.
fn produce(marking: &mut Vec<u128>, list: &Vec<usize>, bound: Ghost<int>)
    requires
        forall|j: int| 0 <= j < list.len() ==> #[trigger] list[j] < old(marking).len(),
        forall|p: int| 0 <= p < old(marking).len() ==> #[trigger] old(marking)[p] <= bound@,
        bound@ + list.len() <= u128::MAX,
    ensures
        final(marking).len() == old(marking).len(),
        forall|p: int| 0 <= p < old(marking).len() ==> #[trigger] final(marking)[p] == old(marking)[p] + count_of(list@, p),
{
    let ghost m0 = marking@;
    let mut j: usize = 0;
    while j < list.len()
        invariant
            forall|i: int| 0 <= i < list.len() ==> #[trigger] list[i] < m0.len(),
            forall|p: int| 0 <= p < m0.len() ==> #[trigger] m0[p] <= bound@,
            bound@ + list.len() <= u128::MAX,
            j <= list.len(),
            marking.len() == m0.len(),
            forall|p: int| 0 <= p < m0.len() ==> #[trigger] marking[p] == m0[p] + count_of(list@.take(j as int), p),
        decreases list.len() - j,
    {
        let p = list[j];
        proof {
            assert forall|q: int| 0 <= q < m0.len() implies #[trigger] count_of(list@.take(j + 1), q) == count_of(list@.take(j as int), q) + if list@[j as int] == q { 1nat } else { 0nat } by {
                lemma_count_of_take(list@, j as int, q);
            }
            lemma_count_of_len(list@.take(j as int), p as int);
        }
        marking.set(p, marking[p] + 1);
        j = j + 1;
    }
    assert(list@.take(list.len() as int) =~= list@);
}

/// Once a prefix fails to replay, the whole word does.
pub proof fn lemma_run_none(net: PetriNet, x: Seq<Seq<char>>, k: int)
    requires
        0 <= k <= x.len(),
        run(net, x.take(k)) is None,
    ensures
        run(net, x) is None,
    decreases x.len() - k,
{
    if k < x.len() {
        assert(x.take(k + 1).drop_last() =~= x.take(k));
        lemma_run_none(net, x, k + 1);
    } else {
        assert(x.take(k) =~= x);
    }
}

proof fn lemma_token_bound(k: int, u: int)
    requires
        0 <= k < u,
        u <= 0xffff_ffff_ffff_ffff,
    ensures
        1 + k * u + u <= u128::MAX,
        1 + k * u + u == 1 + (k + 1) * u,
{
    assert(1 + k * u + u <= 1 + u * u) by (nonlinear_arith)
        requires
            0 <= k < u;
    assert(u * u <= 0xffff_ffff_ffff_ffff * 0xffff_ffff_ffff_ffff) by (nonlinear_arith)
        requires
            0 <= u <= 0xffff_ffff_ffff_ffff;
    assert(1 + k * u + u == 1 + (k + 1) * u) by (nonlinear_arith);
}

/// The marking after replaying the activity ids `w`, or `None` on a
/// missing token, an unknown activity or a net without places.
pub fn marking_after(
    net: &PetriNet,
    consumes: &Vec<Vec<usize>>,
    produces: &Vec<Vec<usize>>,
    act_tr: &Vec<Option<usize>>,
    names: Ghost<Seq<String>>,
    w: &Vec<usize>,
) -> (r: Option<Vec<u128>>)
    requires
        arcs_ok(*net, consumes@, produces@),
        act_ok(*net, names@, act_tr@),
        forall|k: int| 0 <= k < w.len() ==> #[trigger] w[k] < names@.len(),
    ensures
        match r {
            None => net.places.len() == 0 || run(*net, name_seq(names@, w@)) is None,
            Some(m) => net.places.len() > 0 && m.len() == net.places.len() && run(*net, name_seq(names@, w@)) == Some(ints(m@)),
        },
{
    let np = net.places.len();
    if np == 0 {
        return None;
    }
    let ghost x = name_seq(names@, w@);
    let mut marking: Vec<u128> = Vec::new();
    let mut p: usize = 0;
    while p < np
        invariant
            np == net.places.len(),
            p <= np,
            marking.len() == p,
            forall|q: int| 0 <= q < p ==> #[trigger] marking@[q] as int == initial_marking(*net)[q],
        decreases np - p,
    {
        if net.places[p].inputs.len() == 0 {
            marking.push(1);
        } else {
            marking.push(0);
        }
        p = p + 1;
    }
    proof {
        assert(x.take(0) =~= Seq::<Seq<char>>::empty());
        assert(ints(marking@) =~= initial_marking(*net));
    }
    let mut k: usize = 0;
    while k < w.len()
        invariant
            np == net.places.len(),
            np > 0,
            arcs_ok(*net, consumes@, produces@),
            act_ok(*net, names@, act_tr@),
            forall|k2: int| 0 <= k2 < w.len() ==> #[trigger] w[k2] < names@.len(),
            x == name_seq(names@, w@),
            k <= w.len(),
            marking.len() == np,
            run(*net, x.take(k as int)) == Some(ints(marking@)),
            forall|q: int| 0 <= q < np ==> #[trigger] marking@[q] <= 1 + k * (usize::MAX as int),
        decreases w.len() - k,
    {
        let a = w[k];
        proof {
            assert(x.take(k + 1).drop_last() =~= x.take(k as int));
            assert(x.take(k + 1).last() == names@[a as int]@);
        }
        match act_tr[a] {
            None => {
                proof {
                    lemma_run_none(*net, x, k + 1);
                }
                return None;
            },
            Some(t) => {
                let ghost m0 = marking@;
                let ok = consume(&mut marking, &consumes[t]);
                if !ok {
                    proof {
                        let p = choose|p: int| 0 <= p < m0.len() && !(#[trigger] m0[p] >= count_of(consumes@[t as int]@, p));
                        assert(ints(m0)[p] < arcs_in(*net, t as int, p));
                        assert(!enabled(*net, ints(m0), t as int));
                        lemma_run_none(*net, x, k + 1);
                    }
                    return None;
                }
                let ghost m1 = marking@;
                proof {
                    lemma_token_bound(k as int, usize::MAX as int);
                    assert forall|q: int| 0 <= q < np implies #[trigger] m1[q] <= 1 + k * (usize::MAX as int) by {
                        assert(m1[q] <= m0[q]);
                    }
                }
                produce(&mut marking, &produces[t], Ghost(1 + k * (usize::MAX as int)));
                proof {
                    assert(enabled(*net, ints(m0), t as int));
                    assert(ints(marking@) =~= fire(*net, ints(m0), t as int));
                    assert forall|q: int| 0 <= q < np implies #[trigger] marking@[q] <= 1 + (k + 1) * (usize::MAX as int) by {
                        lemma_count_of_len(produces@[t as int]@, q);
                    }
                }
            },
        }
        k = k + 1;
    }
    assert(x.take(w.len() as int) =~= x);
    Some(marking)
}

/// Does the word of activity ids `w` replay on the net?
pub fn fits_word(
    net: &PetriNet,
    consumes: &Vec<Vec<usize>>,
    produces: &Vec<Vec<usize>>,
    act_tr: &Vec<Option<usize>>,
    names: Ghost<Seq<String>>,
    w: &Vec<usize>,
) -> (r: bool)
    requires
        arcs_ok(*net, consumes@, produces@),
        act_ok(*net, names@, act_tr@),
        forall|k: int| 0 <= k < w.len() ==> #[trigger] w[k] < names@.len(),
    ensures
        r == net_fits(*net, name_seq(names@, w@)),
{
    match marking_after(net, consumes, produces, act_tr, names, w) {
        None => false,
        Some(m) => {
            let np = net.places.len();
            let mut p: usize = 0;
            while p < np
                invariant
                    np == net.places.len(),
                    np > 0,
                    m.len() == np,
                    run(*net, name_seq(names@, w@)) == Some(ints(m@)),
                    p <= np,
                    forall|q: int| 0 <= q < p ==> #[trigger] ints(m@)[q] == final_marking(*net)[q],
                decreases np - p,
            {
                let want: u128 = if net.places[p].outputs.len() == 0 { 1 } else { 0 };
                if m[p] != want {
                    assert(ints(m@)[p as int] != final_marking(*net)[p as int]);
                    assert(ints(m@) != final_marking(*net));
                    return false;
                }
                p = p + 1;
            }
            assert(ints(m@) =~= final_marking(*net));
            true
        },
    }
}

/// Per activity name: its transition.
pub fn activity_transitions(net: &PetriNet, names: &Vec<String>) -> (r: Vec<Option<usize>>)
    ensures
        act_ok(*net, names@, r@),
{
    let mut r: Vec<Option<usize>> = Vec::new();
    let mut a: usize = 0;
    while a < names.len()
        invariant
            a <= names.len(),
            r.len() == a,
            forall|a2: int| 0 <= a2 < a ==> match #[trigger] r@[a2] {
                None => tr_index(net.transitions@, names@[a2]@) is None,
                Some(t) => tr_index(net.transitions@, names@[a2]@) == Some(t as int) && t < net.transitions.len(),
            },
        decreases names.len() - a,
    {
        let found = transition_of(&net.transitions, &names[a]);
        r.push(found);
        a = a + 1;
    }
    r
}

/// Token-based replay of one object type's traces on a Petri net without
/// silent transitions: a trace fits iff no token is ever missing and the
/// final marking is one token on each place without outputs.
pub fn net_replay(log: &EventLog, object_type: &str, net: &PetriNet) -> (r: ReplayReport)
    requires
        log.wf(),
    ensures
        replay_ok(*log, object_type@, |x: Seq<Seq<char>>| net_fits(*net, x), r),
{
    let t = build(log, object_type);
    let ghost ty = object_type@;
    let ghost names = t.activity_names@;
    let consumes = arcs(net, false);
    let produces = arcs(net, true);
    let act_tr = activity_transitions(net, &t.activity_names);
    let (seqs, counts, firsts, busy_count) = collect_variants(log, Ghost(ty), &t);
    let ghost fit_spec = |x: Seq<Seq<char>>| net_fits(*net, x);
    let mut fit: Vec<bool> = Vec::new();
    let mut g: usize = 0;
    while g < seqs.len()
        invariant
            names == t.activity_names@,
            groups_inv(*log, ty, names, seqs@, counts@, firsts@, t.steps.len() as int),
            arcs_ok(*net, consumes@, produces@),
            act_ok(*net, names, act_tr@),
            fit_spec == (|x: Seq<Seq<char>>| net_fits(*net, x)),
            g <= seqs.len(),
            fit.len() == g,
            forall|h: int| 0 <= h < g ==> #[trigger] fit[h] == fit_spec(name_seq(names, seqs[h]@)),
        decreases seqs.len() - g,
    {
        let ok = fits_word(net, &consumes, &produces, &act_tr, Ghost(names), &seqs[g]);
        fit.push(ok);
        g = g + 1;
    }
    report(log, object_type, &t, &seqs, &counts, &firsts, busy_count, &fit, Ghost(fit_spec))
}


/// Every place `t` takes from holds a token (the check precision makes,
/// one token per input place whatever the arc's weight).
pub open spec fn inputs_marked(net: PetriNet, m: Seq<int>, t: int) -> bool {
    forall|p: int| 0 <= p < m.len() && #[trigger] arcs_in(net, t, p) > 0 ==> m[p] > 0
}

/// Some activity of `names` has transition `t`.
pub open spec fn logged(net: PetriNet, names: Seq<String>, t: int) -> bool {
    exists|k: int| 0 <= k < names.len() && #[trigger] tr_index(net.transitions@, names[k]@) == Some(t)
}

/// How many of the first `k` transitions satisfy `pred`.
pub open spec fn count_transitions(pred: spec_fn(int) -> bool, k: int) -> nat
    decreases k,
{
    if k <= 0 {
        0
    } else {
        count_transitions(pred, k - 1) + if pred(k - 1) {
            1nat
        } else {
            0nat
        }
    }
}

/// A prefix is replayable on the net.
pub open spec fn net_valid(net: PetriNet) -> spec_fn(Seq<Seq<char>>) -> bool {
    |p: Seq<Seq<char>>| net.places.len() > 0 && run(net, p) is Some
}

/// After a replayable prefix, the net allows activity `a` when its
/// transition's input places all hold a token.
pub open spec fn net_allowed(net: PetriNet) -> spec_fn(Seq<Seq<char>>, Seq<char>) -> bool {
    |p: Seq<Seq<char>>, a: Seq<char>|
        net.places.len() > 0 && run(net, p) is Some && match tr_index(net.transitions@, a) {
            Some(t) => inputs_marked(net, run(net, p).unwrap(), t),
            None => false,
        }
}

/// After a replayable prefix, the transitions no activity of the log
/// names that can fire.
pub open spec fn net_unlogged(net: PetriNet, names: Seq<String>) -> spec_fn(Seq<Seq<char>>) -> nat {
    |p: Seq<Seq<char>>|
        if net.places.len() > 0 && run(net, p) is Some {
            count_transitions(|t: int| !logged(net, names, t) && inputs_marked(net, run(net, p).unwrap(), t), net.transitions.len() as int)
        } else {
            0
        }
}

pub proof fn lemma_count_of_pos(s: Seq<usize>, p: int)
    requires
        0 <= p <= usize::MAX,
    ensures
        (count_of(s, p) > 0) == s.contains(p as usize),
    decreases s.len(),
{
    if s.len() > 0 {
        lemma_count_of_pos(s.drop_last(), p);
        if s.drop_last().contains(p as usize) {
            let j = choose|j: int| 0 <= j < s.drop_last().len() && s.drop_last()[j] == p as usize;
            assert(s[j] == p as usize);
        }
        if s.contains(p as usize) {
            let j = choose|j: int| 0 <= j < s.len() && s[j] == p as usize;
            if j < s.len() - 1 {
                assert(s.drop_last()[j] == p as usize);
            }
        }
    }
}

/// Does every place of `list` hold a token?
fn all_marked(m: &Vec<u128>, list: &Vec<usize>) -> (r: bool)
    requires
        forall|j: int| 0 <= j < list.len() ==> #[trigger] list[j] < m.len(),
    ensures
        r == forall|p: int| 0 <= p < m.len() && #[trigger] count_of(list@, p) > 0 ==> m[p] > 0,
{
    let mut j: usize = 0;
    while j < list.len()
        invariant
            forall|i: int| 0 <= i < list.len() ==> #[trigger] list[i] < m.len(),
            j <= list.len(),
            forall|i: int| 0 <= i < j ==> m[#[trigger] list[i] as int] > 0,
        decreases list.len() - j,
    {
        if m[list[j]] == 0 {
            proof {
                lemma_count_of_pos(list@, list@[j as int] as int);
                assert(list@.contains(list@[j as int]));
            }
            return false;
        }
        j = j + 1;
    }
    proof {
        assert forall|p: int| 0 <= p < m.len() && #[trigger] count_of(list@, p) > 0 implies m[p] > 0 by {
            lemma_count_of_pos(list@, p);
            let i = choose|i: int| 0 <= i < list.len() && list@[i] == p as usize;
            assert(m[list[i] as int] > 0);
        }
    }
    true
}

/// The net's answers after the prefix `w` of activity ids.
fn net_answers(
    net: &PetriNet,
    consumes: &Vec<Vec<usize>>,
    produces: &Vec<Vec<usize>>,
    act_tr: &Vec<Option<usize>>,
    known: &Vec<bool>,
    names: Ghost<Seq<String>>,
    w: &Vec<usize>,
) -> (r: (bool, Vec<bool>, usize))
    requires
        arcs_ok(*net, consumes@, produces@),
        act_ok(*net, names@, act_tr@),
        known.len() == net.transitions.len(),
        forall|t: int| 0 <= t < known.len() ==> #[trigger] known[t] == logged(*net, names@, t),
        forall|k: int| 0 <= k < w.len() ==> #[trigger] w[k] < names@.len(),
    ensures
        r.0 == net_valid(*net)(name_seq(names@, w@)),
        r.1.len() == names@.len(),
        forall|k: int| 0 <= k < names@.len() ==> #[trigger] r.1[k] == net_allowed(*net)(name_seq(names@, w@), names@[k]@),
        r.2 == net_unlogged(*net, names@)(name_seq(names@, w@)),
{
    let ghost x = name_seq(names@, w@);
    let n_names = act_tr.len();
    let mut row: Vec<bool> = Vec::new();
    match marking_after(net, consumes, produces, act_tr, names, w) {
        None => {
            let mut k: usize = 0;
            while k < n_names
                invariant
                    k <= n_names,
                    row.len() == k,
                    forall|k2: int| 0 <= k2 < k ==> !#[trigger] row[k2],
                decreases n_names - k,
            {
                row.push(false);
                k = k + 1;
            }
            (false, row, 0)
        },
        Some(m) => {
            let ghost mi = ints(m@);
            let mut k: usize = 0;
            while k < n_names
                invariant
                    n_names == names@.len(),
                    arcs_ok(*net, consumes@, produces@),
                    act_ok(*net, names@, act_tr@),
                    m.len() == net.places.len(),
                    net.places.len() > 0,
                    run(*net, x) == Some(mi),
                    mi == ints(m@),
                    k <= n_names,
                    row.len() == k,
                    forall|k2: int| 0 <= k2 < k ==> #[trigger] row[k2] == net_allowed(*net)(x, names@[k2]@),
                decreases n_names - k,
            {
                match act_tr[k] {
                    None => {
                        row.push(false);
                    },
                    Some(t) => {
                        let ok = all_marked(&m, &consumes[t]);
                        proof {
                            if ok {
                            assert forall|p: int| 0 <= p < mi.len() && #[trigger] arcs_in(*net, t as int, p) > 0 implies mi[p] > 0 by {
                                assert(count_of(consumes@[t as int]@, p) == arcs_in(*net, t as int, p));
                            }
                        } else {
                            let p = choose|p: int| 0 <= p < m.len() && #[trigger] count_of(consumes@[t as int]@, p) > 0 && !(m[p] > 0);
                            assert(count_of(consumes@[t as int]@, p) == arcs_in(*net, t as int, p));
                            assert(mi[p] == 0);
                        }
                        assert(ok == inputs_marked(*net, mi, t as int));
                        }
                        row.push(ok);
                    },
                }
                k = k + 1;
            }
            let nt = net.transitions.len();
            let mut free: usize = 0;
            let mut t: usize = 0;
            while t < nt
                invariant
                    nt == net.transitions.len(),
                    arcs_ok(*net, consumes@, produces@),
                    known.len() == nt,
                    forall|t2: int| 0 <= t2 < nt ==> #[trigger] known[t2] == logged(*net, names@, t2),
                    m.len() == net.places.len(),
                    mi == ints(m@),
                    t <= nt,
                    free <= t,
                    free == count_transitions(|t2: int| !logged(*net, names@, t2) && inputs_marked(*net, mi, t2), t as int),
                decreases nt - t,
            {
                if !known[t] {
                    let ok = all_marked(&m, &consumes[t]);
                    proof {
                        if ok {
                            assert forall|p: int| 0 <= p < mi.len() && #[trigger] arcs_in(*net, t as int, p) > 0 implies mi[p] > 0 by {
                                assert(count_of(consumes@[t as int]@, p) == arcs_in(*net, t as int, p));
                            }
                        } else {
                            let p = choose|p: int| 0 <= p < m.len() && #[trigger] count_of(consumes@[t as int]@, p) > 0 && !(m[p] > 0);
                            assert(count_of(consumes@[t as int]@, p) == arcs_in(*net, t as int, p));
                            assert(mi[p] == 0);
                        }
                        assert(ok == inputs_marked(*net, mi, t as int));
                    }
                    if ok {
                        free = free + 1;
                    }
                }
                t = t + 1;
            }
            (true, row, free)
        },
    }
}

/// Per transition: does some activity of the log map to it?
fn known_transitions(net: &PetriNet, act_tr: &Vec<Option<usize>>, names: Ghost<Seq<String>>) -> (r: Vec<bool>)
    requires
        act_ok(*net, names@, act_tr@),
    ensures
        r.len() == net.transitions.len(),
        forall|t: int| 0 <= t < r.len() ==> #[trigger] r[t] == logged(*net, names@, t),
{
    let nt = net.transitions.len();
    let mut r: Vec<bool> = Vec::new();
    let mut t: usize = 0;
    while t < nt
        invariant
            nt == net.transitions.len(),
            t <= nt,
            r.len() == t,
            forall|t2: int| 0 <= t2 < t ==> !#[trigger] r[t2],
        decreases nt - t,
    {
        r.push(false);
        t = t + 1;
    }
    let mut k: usize = 0;
    while k < act_tr.len()
        invariant
            nt == net.transitions.len(),
            act_ok(*net, names@, act_tr@),
            k <= act_tr.len(),
            r.len() == nt,
            forall|t2: int| 0 <= t2 < nt ==> #[trigger] r[t2] == exists|k2: int|
                0 <= k2 < k && #[trigger] tr_index(net.transitions@, names@[k2]@) == Some(t2),
        decreases act_tr.len() - k,
    {
        match act_tr[k] {
            Some(t) => {
                r.set(t, true);
            },
            None => {},
        }
        k = k + 1;
    }
    r
}

/// The net's answers on every prefix of every group.
fn net_tables(
    net: &PetriNet,
    consumes: &Vec<Vec<usize>>,
    produces: &Vec<Vec<usize>>,
    act_tr: &Vec<Option<usize>>,
    names: Ghost<Seq<String>>,
    seqs: &Vec<Vec<usize>>,
) -> (r: (Vec<Vec<bool>>, Vec<Vec<Vec<bool>>>, Vec<Vec<usize>>))
    requires
        arcs_ok(*net, consumes@, produces@),
        act_ok(*net, names@, act_tr@),
        forall|g: int, k: int| 0 <= g < seqs.len() && 0 <= k < seqs[g].len() ==> #[trigger] seqs[g]@[k] < names@.len(),
    ensures
        tables_ok(names@, seqs@, r.0@, r.1@, r.2@, net_valid(*net), net_allowed(*net), net_unlogged(*net, names@)),
{
    let known = known_transitions(net, act_tr, names);
    let mut vt: Vec<Vec<bool>> = Vec::new();
    let mut at: Vec<Vec<Vec<bool>>> = Vec::new();
    let mut ut: Vec<Vec<usize>> = Vec::new();
    let mut g: usize = 0;
    while g < seqs.len()
        invariant
            arcs_ok(*net, consumes@, produces@),
            act_ok(*net, names@, act_tr@),
            known.len() == net.transitions.len(),
            forall|t: int| 0 <= t < known.len() ==> #[trigger] known[t] == logged(*net, names@, t),
            forall|h: int, k: int| 0 <= h < seqs.len() && 0 <= k < seqs[h].len() ==> #[trigger] seqs[h]@[k] < names@.len(),
            g <= seqs.len(),
            vt.len() == g,
            at.len() == g,
            ut.len() == g,
            forall|h: int| 0 <= h < g ==> #[trigger] vt[h].len() == seqs[h].len(),
            forall|h: int| 0 <= h < g ==> #[trigger] at[h].len() == seqs[h].len(),
            forall|h: int| 0 <= h < g ==> #[trigger] ut[h].len() == seqs[h].len(),
            forall|h: int, i: int| 0 <= h < g && 0 <= i < seqs[h].len() ==> #[trigger] vt[h]@[i] == net_valid(*net)(name_seq(names@, seqs[h]@).take(i)),
            forall|h: int, i: int| 0 <= h < g && 0 <= i < seqs[h].len() ==> #[trigger] at[h][i].len() == names@.len(),
            forall|h: int, i: int, k: int| 0 <= h < g && 0 <= i < seqs[h].len() && 0 <= k < names@.len() ==> #[trigger] at[h][i]@[k]
                == net_allowed(*net)(name_seq(names@, seqs[h]@).take(i), names@[k]@),
            forall|h: int, i: int| 0 <= h < g && 0 <= i < seqs[h].len() ==> #[trigger] ut[h]@[i] == net_unlogged(*net, names@)(name_seq(names@, seqs[h]@).take(i)),
        decreases seqs.len() - g,
    {
        let w = &seqs[g];
        let ghost x = name_seq(names@, w@);
        let mut vrow: Vec<bool> = Vec::new();
        let mut arow: Vec<Vec<bool>> = Vec::new();
        let mut urow: Vec<usize> = Vec::new();
        let mut prefix: Vec<usize> = Vec::new();
        let mut i: usize = 0;
        while i < w.len()
            invariant
                arcs_ok(*net, consumes@, produces@),
                act_ok(*net, names@, act_tr@),
                known.len() == net.transitions.len(),
                forall|t: int| 0 <= t < known.len() ==> #[trigger] known[t] == logged(*net, names@, t),
                forall|k: int| 0 <= k < w.len() ==> #[trigger] w[k] < names@.len(),
                x == name_seq(names@, w@),
                i <= w.len(),
                prefix@ == w@.take(i as int),
                vrow.len() == i,
                arow.len() == i,
                urow.len() == i,
                forall|i2: int| 0 <= i2 < i ==> #[trigger] vrow@[i2] == net_valid(*net)(x.take(i2)),
                forall|i2: int| 0 <= i2 < i ==> #[trigger] arow[i2].len() == names@.len(),
                forall|i2: int, k: int| 0 <= i2 < i && 0 <= k < names@.len() ==> #[trigger] arow[i2]@[k] == net_allowed(*net)(x.take(i2), names@[k]@),
                forall|i2: int| 0 <= i2 < i ==> #[trigger] urow@[i2] == net_unlogged(*net, names@)(x.take(i2)),
            decreases w.len() - i,
        {
            proof {
                assert(name_seq(names@, prefix@) =~= x.take(i as int));
            }
            let (v, a, u) = net_answers(net, consumes, produces, act_tr, &known, names, &prefix);
            vrow.push(v);
            arow.push(a);
            urow.push(u);
            prefix.push(w[i]);
            proof {
                assert(prefix@ =~= w@.take(i + 1));
            }
            i = i + 1;
        }
        vt.push(vrow);
        at.push(arow);
        ut.push(urow);
        g = g + 1;
    }
    (vt, at, ut)
}

/// Escaping-edges precision of a Petri net: after each prefix walked, the
/// net allows the transitions whose input places all hold a token; `None`
/// when the allowed moves do not fit in a `usize`.
pub fn net_precision(log: &EventLog, object_type: &str, net: &PetriNet) -> (r: Option<PrecisionReport>)
    requires
        log.wf(),
    ensures
        exists|t: Traces| #[trigger] t.describes(*log, object_type@) && match r {
            None => slot_sum(*log, object_type@, trace_allowed(t.activity_names@, net_valid(*net), net_allowed(*net), net_unlogged(*net, t.activity_names@)),
                log.members(object_type@).len() as int) > usize::MAX,
            Some(rep) => precision_ok(*log, object_type@, t.activity_names@, net_valid(*net), net_allowed(*net), net_unlogged(*net, t.activity_names@), rep),
        },
{
    let t = build(log, object_type);
    let ghost ty = object_type@;
    let ghost names = t.activity_names@;
    let consumes = arcs(net, false);
    let produces = arcs(net, true);
    let act_tr = activity_transitions(net, &t.activity_names);
    let (seqs, counts, firsts, _busy) = collect_variants(log, Ghost(ty), &t);
    let (vt, at, ut) = net_tables(net, &consumes, &produces, &act_tr, Ghost(names), &seqs);
    score(log, object_type, &t, &seqs, Ghost(counts@), Ghost(firsts@), &vt, &at, &ut, Ghost(net_valid(*net)), Ghost(net_allowed(*net)),
        Ghost(net_unlogged(*net, names)))
}

} // verus!
