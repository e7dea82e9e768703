//! Synthetic noise injection for robustness benchmarking.
//!
//! Take a log you trust, inject a known rate of order swaps, event drops or
//! duplicate events into one object type's traces, discover on the noisy log
//! and evaluate against the clean one. Injection is deterministic per seed:
//! the same log, type, spec and seed give the same output. The perturbed
//! order is written into both the times and the position of the events, so
//! trace order reflects every swap even between same-time events.
use vstd::prelude::*;
use crate::keysort::is_permutation;
use crate::log::{EventLog, LogEvent, LogObject, Timestamp, time_ok};
use crate::trace::{collect_slots, event_order};

verus! {

/// How often a noise kind fires. A draw is a 64-bit output of the
/// generator; its 53 high bits, read as an integer `u`, stand for the unit
/// number `u / 2^53`, so `Below(t)` fires with probability `t / 2^53`.
/// `Never` and `Always` decide without drawing.
#[derive(Clone, Copy, Debug, PartialEq, Eq)]
pub enum Chance {
    Never,
    Always,
    Below(u64),
}

/// Independent chances for each noise kind, applied in the order
/// drop, swap, duplicate.
#[derive(Clone, Copy, Debug, PartialEq, Eq)]
pub struct NoiseSpec {
    /// Each adjacent pair of a surviving trace is swapped; boundaries are
    /// walked left to right over the current order.
    pub swap: Chance,
    /// Each event touching the type is removed.
    pub drop: Chance,
    /// Each surviving event touching the type is followed by a copy.
    pub duplicate: Chance,
    pub seed: u64,
}

/// The xorshift64* generator.
pub struct Rng {
    state: u64,
}

/// One xorshift step of the state.
pub open spec fn xorshift(x: u64) -> u64 {
    let a = x ^ (x << 13u64);
    let b = a ^ (a >> 7u64);
    b ^ (b << 17u64)
}

/// The output scrambling of xorshift64*.
pub open spec fn scramble(x: u64) -> u64 {
    vstd::wrapping::u64_specs::wrapping_mul(x, 0x2545_F491_4F6C_DD1Du64)
}

/// The 53 high bits of a draw.
pub open spec fn unit_bits(x: u64) -> u64 {
    x >> 11u64
}

/// The state after one decision of chance `c` from state `st`: only
/// `Below` draws.
pub open spec fn after(c: Chance, st: u64) -> u64 {
    match c {
        Chance::Below(_) => xorshift(st),
        _ => st,
    }
}

/// Whether a decision of chance `c` from state `st` fires.
pub open spec fn fires(c: Chance, st: u64) -> bool {
    match c {
        Chance::Never => false,
        Chance::Always => true,
        Chance::Below(t) => unit_bits(scramble(xorshift(st))) < t,
    }
}

impl Rng {
    pub closed spec fn state(&self) -> u64 {
        self.state
    }

    /// A generator seeded with `seed` (the state is kept non-zero).
    pub fn new(seed: u64) -> (r: Rng)
        ensures
            r.state() == seed | 1u64,
    {
        Rng { state: seed | 1 }
    }

    /// Advance the state and return the scrambled output.
    pub fn next_u64(&mut self) -> (r: u64)
        ensures
            final(self).state() == xorshift(old(self).state()),
            r == scramble(xorshift(old(self).state())),
    {
        let mut x = self.state;
        x = x ^ (x << 13u64);
        x = x ^ (x >> 7u64);
        x = x ^ (x << 17u64);
        self.state = x;
        x.wrapping_mul(0x2545_F491_4F6C_DD1Du64)
    }

    /// Decide one event of chance `c`, drawing only for `Below`.
    pub fn chance(&mut self, c: Chance) -> (hit: bool)
        ensures
            final(self).state() == after(c, old(self).state()),
            hit == fires(c, old(self).state()),
            match c {
                Chance::Never => !hit && final(self).state() == old(self).state(),
                Chance::Always => hit && final(self).state() == old(self).state(),
                Chance::Below(t) => {
                    &&& final(self).state() == xorshift(old(self).state())
                    &&& hit == (unit_bits(scramble(xorshift(old(self).state()))) < t)
                },
            },
    {
        match c {
            Chance::Never => false,
            Chance::Always => true,
            Chance::Below(t) => {
                let x = self.next_u64();
                (x >> 11u64) < t
            },
        }
    }
}

/// One event of the noisy log: a copy of `log.events[source]` at `time`
/// under `id`; `copy` marks an injected duplicate.
#[derive(Clone, Debug)]
pub struct NoisyEvent {
    pub source: usize,
    pub time: Timestamp,
    pub id: String,
    pub copy: bool,
}

pub open spec fn digit(d: nat) -> char {
    (48 + d) as char
}

/// The decimal digits of `n`.
pub open spec fn decimal(n: nat) -> Seq<char>
    decreases n,
{
    if n < 10 {
        seq![digit(n)]
    } else {
        decimal(n / 10).push(digit(n % 10))
    }
}

/// The id of the `n`-th injected copy, copying an event with id `id`.
pub open spec fn copy_id(id: Seq<char>, n: nat) -> Seq<char> {
    id + seq!['~', 'd', 'u', 'p'] + decimal(n)
}

/// Copies among `out`.
pub open spec fn copies(out: Seq<NoisyEvent>) -> nat
    decreases out.len(),
{
    if out.len() == 0 {
        0
    } else {
        copies(out.drop_last()) + if out.last().copy {
            1nat
        } else {
            0nat
        }
    }
}

/// The text of the single digit `d`.
fn digit_text(d: usize) -> (r: &'static str)
    requires
        d < 10,
    ensures
        r@ == seq![digit(d as nat)],
{
    proof {
        reveal_strlit("0");
        reveal_strlit("1");
        reveal_strlit("2");
        reveal_strlit("3");
        reveal_strlit("4");
        reveal_strlit("5");
        reveal_strlit("6");
        reveal_strlit("7");
        reveal_strlit("8");
        reveal_strlit("9");
    }
    if d == 0 {
        "0"
    } else if d == 1 {
        "1"
    } else if d == 2 {
        "2"
    } else if d == 3 {
        "3"
    } else if d == 4 {
        "4"
    } else if d == 5 {
        "5"
    } else if d == 6 {
        "6"
    } else if d == 7 {
        "7"
    } else if d == 8 {
        "8"
    } else {
        "9"
    }
}

/// `n` written in decimal.
pub fn decimal_text(n: usize) -> (r: String)
    ensures
        r@ == decimal(n as nat),
    decreases n,
{
    if n < 10 {
        String::from_str(digit_text(n))
    } else {
        let mut r = decimal_text(n / 10);
        r.append(digit_text(n % 10));
        r
    }
}

/// The id followed by `~dup` and `n` in decimal.
fn copy_name(id: &String, n: usize) -> (r: String)
    ensures
        r@ == copy_id(id@, n as nat),
{
    let mut r = String::from_str(id.as_str());
    r.append("~dup");
    let d = decimal_text(n);
    r.append(d.as_str());
    proof {
        reveal_strlit("~dup");
    }
    r
}

/// Per event: does it touch an object of type `ty`?
fn target_flags(log: &EventLog, ty: &String) -> (r: Vec<bool>)
    requires
        log.wf(),
    ensures
        r.len() == log.events.len(),
        forall|e: int| 0 <= e < log.events.len() ==> r[e] == log.is_target(e, ty@),
{
    let n = log.events.len();
    let mut flags: Vec<bool> = Vec::new();
    for e in 0..n
        invariant
            n == log.events.len(),
            log.wf(),
            flags.len() == e,
            forall|j: int| 0 <= j < e ==> flags[j] == log.is_target(j, ty@),
    {
        let objects = &log.events[e].objects;
        let mut hit = false;
        for k in 0..objects.len()
            invariant
                e < log.events.len(),
                log.wf(),
                objects == log.events[e as int].objects,
                hit <==> exists|j: int| 0 <= j < k && log.is_member(#[trigger] objects[j] as int, ty@),
        {
            let o = objects[k];
            if log.objects[o].object_type == *ty {
                hit = true;
            }
        }
        flags.push(hit);
    }
    flags
}

/// `g` lists every event once, in trace order (time, then position).
pub open spec fn time_order(log: EventLog, g: Seq<usize>) -> bool {
    &&& is_permutation(g, log.events.len() as nat)
    &&& forall|q1: int, q2: int| 0 <= q1 < q2 < g.len() ==> log.before(g[q1] as int, g[q2] as int)
}

proof fn lemma_time_order_at(log: EventLog, g1: Seq<usize>, g2: Seq<usize>, q: int)
    requires
        time_order(log, g1),
        time_order(log, g2),
        0 <= q < g1.len(),
    ensures
        g1[q] == g2[q],
    decreases q,
{
    let n = g1.len() as int;
    let a = g1[q];
    let b = g2[q];
    if a != b {
        assert(crate::keysort::occurs(g1, b as int));
        let p = choose|p: int| 0 <= p < n && g1[p] == b;
        if p < q {
            lemma_time_order_at(log, g1, g2, p);
            assert(g2[p] == g2[q]);
        }
        assert(crate::keysort::occurs(g2, a as int));
        let p2 = choose|p2: int| 0 <= p2 < n && g2[p2] == a;
        if p2 < q {
            lemma_time_order_at(log, g1, g2, p2);
            assert(g1[p2] == g1[q]);
        }
        assert(p != q && p2 != q);
        assert(log.before(g1[q] as int, g1[p] as int));
        assert(log.before(g2[q] as int, g2[p2] as int));
        crate::log::lemma_before_strict(log, a as int, b as int);
    }
}

/// The trace order is unique: two orders that both list every event once,
/// by time and then by position in the log, are the same order.
pub proof fn lemma_time_order_unique(log: EventLog, g1: Seq<usize>, g2: Seq<usize>)
    requires
        time_order(log, g1),
        time_order(log, g2),
    ensures
        g1 == g2,
{
    assert forall|q: int| 0 <= q < g1.len() implies g1[q] == g2[q] by {
        lemma_time_order_at(log, g1, g2, q);
    }
    assert(g1 =~= g2);
}

/// The generator's state after the drop decisions on the first `q`
/// events of `g`: one decision per event touching type `ty`.
pub open spec fn drop_state(log: EventLog, ty: Seq<char>, g: Seq<usize>, c: Chance, s0: u64, q: int) -> u64
    decreases q,
{
    if q <= 0 {
        s0
    } else {
        let st = drop_state(log, ty, g, c, s0, q - 1);
        if log.is_target(g[q - 1] as int, ty) {
            after(c, st)
        } else {
            st
        }
    }
}

/// Event `g[q]` touches type `ty` and its drop decision fires.
pub open spec fn dropped_at(log: EventLog, ty: Seq<char>, g: Seq<usize>, c: Chance, s0: u64, q: int) -> bool {
    log.is_target(g[q] as int, ty) && fires(c, drop_state(log, ty, g, c, s0, q))
}

/// The surviving trace of object `o` among the first `q` places of `g`:
/// the events there that touch `o` and were not dropped, in that order.
pub open spec fn survivors(log: EventLog, ty: Seq<char>, g: Seq<usize>, c: Chance, s0: u64, o: int, q: int) -> Seq<usize>
    decreases q,
{
    if q <= 0 {
        Seq::empty()
    } else {
        let kept = survivors(log, ty, g, c, s0, o, q - 1);
        if log.related(g[q - 1] as int, o) && !dropped_at(log, ty, g, c, s0, q - 1) {
            kept.push(g[q - 1])
        } else {
            kept
        }
    }
}

/// One row per object of type `ty`, in log order: its surviving trace.
pub open spec fn trace_rows(log: EventLog, ty: Seq<char>, g: Seq<usize>, c: Chance, s0: u64) -> Seq<Seq<usize>> {
    Seq::new(
        log.members(ty).len(),
        |s: int| survivors(log, ty, g, c, s0, log.members(ty)[s] as int, g.len() as int),
    )
}

/// Events `a` and `b` trade places in the order `g`.
pub open spec fn exchange(g: Seq<usize>, a: usize, b: usize) -> Seq<usize> {
    Seq::new(g.len(), |q: int| if g[q] == a { b } else if g[q] == b { a } else { g[q] })
}

/// Walk `row` from boundary `b` on, from `w` = (event times, order,
/// generator state): each boundary draws one decision of `c`; when it
/// fires, the two events there trade times and places, in the row too.
pub open spec fn walk_row(row: Seq<usize>, b: int, c: Chance, w: (Seq<Timestamp>, Seq<usize>, u64)) -> (Seq<Timestamp>, Seq<usize>, u64)
    decreases row.len() - b,
{
    if b < 0 || b + 1 >= row.len() {
        w
    } else {
        let (times, g, st) = w;
        let x = row[b];
        let y = row[b + 1];
        if fires(c, st) {
            walk_row(
                row.update(b, y).update(b + 1, x),
                b + 1,
                c,
                (times.update(x as int, times[y as int]).update(y as int, times[x as int]), exchange(g, x, y), after(c, st)),
            )
        } else {
            walk_row(row, b + 1, c, (times, g, after(c, st)))
        }
    }
}

/// Walk the rows from row `s` on, one after the other.
pub open spec fn walk_rows(rows: Seq<Seq<usize>>, s: int, c: Chance, w: (Seq<Timestamp>, Seq<usize>, u64)) -> (Seq<Timestamp>, Seq<usize>, u64)
    decreases rows.len() - s,
{
    if s < 0 || s >= rows.len() {
        w
    } else {
        walk_rows(rows, s + 1, c, walk_row(rows[s], 0, c, w))
    }
}

/// The swap stage on the trace order `g`: the drop decisions come first,
/// then every surviving trace is walked, from the generator state they left.
pub open spec fn swept(log: EventLog, ty: Seq<char>, g: Seq<usize>, spec: NoiseSpec) -> (Seq<Timestamp>, Seq<usize>, u64) {
    let s0 = spec.seed | 1u64;
    walk_rows(
        trace_rows(log, ty, g, spec.drop, s0),
        0,
        spec.swap,
        (Seq::new(log.events.len() as nat, |e: int| log.events[e].time), g, drop_state(log, ty, g, spec.drop, s0, g.len() as int)),
    )
}

/// `a` stands before `b` in the order `g`.
pub open spec fn placed_before(g: Seq<usize>, a: usize, b: usize) -> bool {
    exists|p1: int, p2: int| 0 <= p1 < p2 < g.len() && #[trigger] g[p1] == a && #[trigger] g[p2] == b
}

/// Per object of type `ty`, in log order, its surviving trace: the events
/// that touch it and were not dropped, in the order `global`.
fn surviving_rows(
    log: &EventLog,
    ty: &String,
    spec: &NoiseSpec,
    dropped: &Vec<bool>,
    global: &Vec<usize>,
    position: &Vec<usize>,
) -> (rows: Vec<Vec<usize>>)
    requires
        log.wf(),
        dropped.len() == log.events.len(),
        global.len() == log.events.len(),
        position.len() == log.events.len(),
        forall|e: int| 0 <= e < log.events.len() ==> #[trigger] position[e] < log.events.len() && global[position[e] as int] == e,
        forall|q: int| 0 <= q < log.events.len() ==> #[trigger] global[q] < log.events.len() && position[global[q] as int] == q,
        forall|q: int|
            0 <= q < log.events.len() ==> #[trigger] dropped[global[q] as int] == dropped_at(
                *log,
                ty@,
                global@,
                spec.drop,
                spec.seed | 1u64,
                q,
            ),
    ensures
        rows.len() == log.members(ty@).len(),
        forall|s: int|
            0 <= s < rows.len() ==> #[trigger] rows[s]@ == survivors(
                *log,
                ty@,
                global@,
                spec.drop,
                spec.seed | 1u64,
                log.members(ty@)[s] as int,
                log.events.len() as int,
            ),
        forall|s: int, i: int|
            0 <= s < rows.len() && 0 <= i < rows[s].len() ==> #[trigger] rows[s][i] < log.events.len() && log.is_target(
                rows[s][i] as int,
                ty@,
            ),
{
    let n = log.events.len();
    let ghost s0 = spec.seed | 1u64;
    let (slots, slot_of) = collect_slots(log, ty);
    let ns = slots.len();
    let mut rows: Vec<Vec<usize>> = Vec::new();
    let mut last: Vec<usize> = Vec::new();
    for s in 0..ns
        invariant
            rows.len() == s,
            last.len() == s,
            forall|j: int| 0 <= j < s ==> #[trigger] rows[j]@.len() == 0,
            forall|j: int| 0 <= j < s ==> #[trigger] last[j] == usize::MAX,
    {
        rows.push(Vec::new());
        last.push(usize::MAX);
    }
    proof {
        assert forall|j: int| 0 <= j < ns implies #[trigger] rows[j]@ == survivors(*log, ty@, global@, spec.drop, s0, slots[j] as int, 0) by {
            assert(rows[j]@.len() == 0);
        }
    }
    for q in 0..n
        invariant
            n == log.events.len(),
            log.wf(),
            s0 == spec.seed | 1u64,
            dropped.len() == n,
            global.len() == n,
            position.len() == n,
            forall|e: int| 0 <= e < n ==> #[trigger] position[e] < n && global[position[e] as int] == e,
            forall|q2: int| 0 <= q2 < n ==> #[trigger] global[q2] < n && position[global[q2] as int] == q2,
            forall|q2: int| 0 <= q2 < n ==> #[trigger] dropped[global[q2] as int] == dropped_at(*log, ty@, global@, spec.drop, s0, q2),
            slots@ == log.members(ty@),
            ns == slots.len(),
            slot_of.len() == log.objects.len(),
            forall|j: int| 0 <= j < ns ==> #[trigger] slots[j] < log.objects.len() && slot_of[slots[j] as int] == j,
            forall|o: int| 0 <= o < log.objects.len() ==> (log.is_member(o, ty@) <==> #[trigger] slot_of[o] != usize::MAX),
            forall|o: int| 0 <= o < log.objects.len() && #[trigger] slot_of[o] != usize::MAX ==> slot_of[o] < ns && slots[slot_of[o] as int] == o,
            rows.len() == ns,
            last.len() == ns,
            forall|j: int| 0 <= j < ns ==> #[trigger] rows[j]@ == survivors(*log, ty@, global@, spec.drop, s0, slots[j] as int, q as int),
            forall|j: int| 0 <= j < ns ==> #[trigger] last[j] == usize::MAX || (last[j] < n && position[last[j] as int] < q),
            forall|j: int, i: int|
                0 <= j < ns && 0 <= i < rows[j].len() ==> #[trigger] rows[j][i] < n && log.is_target(rows[j][i] as int, ty@),
    {
        let e = global[q];
        let ghost r0 = rows@;
        if !dropped[e] {
            let objects = &log.events[e].objects;
            for k in 0..objects.len()
                invariant
                    n == log.events.len(),
                    log.wf(),
                    e < n,
                    e == global[q as int],
                    position[e as int] == q,
                    !dropped[e as int],
                    objects == log.events[e as int].objects,
                    position.len() == n,
                    slots@ == log.members(ty@),
                    ns == slots.len(),
                    slot_of.len() == log.objects.len(),
                    forall|j: int| 0 <= j < ns ==> #[trigger] slots[j] < log.objects.len() && slot_of[slots[j] as int] == j,
                    forall|o: int| 0 <= o < log.objects.len() ==> (log.is_member(o, ty@) <==> #[trigger] slot_of[o] != usize::MAX),
                    forall|o: int| 0 <= o < log.objects.len() && #[trigger] slot_of[o] != usize::MAX ==> slot_of[o] < ns && slots[slot_of[o] as int] == o,
                    rows.len() == ns,
                    last.len() == ns,
                    r0.len() == ns,
                    forall|j: int| 0 <= j < ns ==> (#[trigger] last[j] == e) == (exists|k2: int| 0 <= k2 < k && objects[k2] == slots[j]),
                    forall|j: int| 0 <= j < ns && last[j] != e ==> (#[trigger] last[j] == usize::MAX || (last[j] < n && position[last[j] as int] < q)),
                    forall|j: int| 0 <= j < ns ==> #[trigger] rows[j]@ == (if last[j] == e { r0[j]@.push(e) } else { r0[j]@ }),
                    forall|j: int, i: int|
                        0 <= j < ns && 0 <= i < rows[j].len() ==> #[trigger] rows[j][i] < n && log.is_target(rows[j][i] as int, ty@),
            {
                let o = objects[k];
                let s = slot_of[o];
                let ghost l0 = last@;
                let ghost t0 = rows@;
                if s != usize::MAX && last[s] != e {
                    proof {
                        assert(log.is_member(objects[k as int] as int, ty@));
                        assert(log.is_target(e as int, ty@));
                    }
                    last.set(s, e);
                    let mut row: Vec<usize> = Vec::new();
                    std::mem::swap(&mut row, &mut rows[s]);
                    assert(row == t0[s as int]);
                    row.push(e);
                    rows.set(s, row);
                    proof {
                        assert forall|j: int, i: int|
                            0 <= j < ns && 0 <= i < rows[j].len() implies #[trigger] rows[j][i] < n
                                && log.is_target(rows[j][i] as int, ty@) by {
                            if j != s as int || i < t0[j].len() {
                                assert(rows[j][i] == t0[j][i]);
                            }
                        }
                    }
                }
                proof {
                    assert forall|j: int| 0 <= j < ns implies (#[trigger] last[j] == e) == (exists|k2: int| 0 <= k2 < k + 1 && objects[k2] == slots[j]) by {
                        if objects[k as int] == slots[j] {
                            assert(slot_of[o as int] == j);
                        } else if j == s as int && s != usize::MAX {
                            assert(slots[s as int] == o);
                        }
                        if exists|k2: int| 0 <= k2 < k && objects[k2] == slots[j] {
                            let k2 = choose|k2: int| 0 <= k2 < k && objects[k2] == slots[j];
                            assert(exists|k3: int| 0 <= k3 < k + 1 && objects[k3] == slots[j]);
                        }
                    }
                }
            }
            proof {
                assert forall|j: int| 0 <= j < ns implies #[trigger] rows[j]@ == survivors(*log, ty@, global@, spec.drop, s0, slots[j] as int, q + 1) by {
                    assert(r0[j]@ == survivors(*log, ty@, global@, spec.drop, s0, slots[j] as int, q as int));
                    assert(!dropped_at(*log, ty@, global@, spec.drop, s0, q as int));
                    if log.related(e as int, slots[j] as int) {
                        let k2 = choose|k2: int| 0 <= k2 < objects.len() && #[trigger] log.events[e as int].objects[k2] == slots[j] as int;
                        assert(objects[k2] == slots[j]);
                    } else if last[j] == e {
                        let k2 = choose|k2: int| 0 <= k2 < objects.len() && objects[k2] == slots[j];
                        assert(log.events[e as int].objects[k2] == slots[j] as int);
                    }
                }
            }
        } else {
            proof {
                assert forall|j: int| 0 <= j < ns implies #[trigger] rows[j]@ == survivors(*log, ty@, global@, spec.drop, s0, slots[j] as int, q + 1) by {
                    assert(dropped_at(*log, ty@, global@, spec.drop, s0, q as int));
                }
            }
        }
    }
    rows
}

/// The rows as sequences.
pub open spec fn row_views(rows: Seq<Vec<usize>>) -> Seq<Seq<usize>> {
    rows.map_values(|r: Vec<usize>| r@)
}

/// Walk every row's boundaries left to right, one decision of `c` per
/// boundary; a swap trades the two events' times and places in `global`
/// (`position` is its inverse).
fn sweep(
    rows: Vec<Vec<usize>>,
    c: Chance,
    target: &Vec<bool>,
    times: &mut Vec<Timestamp>,
    global: &mut Vec<usize>,
    position: &mut Vec<usize>,
    rng: &mut Rng,
)
    requires
        old(times).len() == target.len(),
        old(global).len() == target.len(),
        old(position).len() == target.len(),
        forall|e: int| 0 <= e < target.len() ==> #[trigger] old(position)[e] < target.len() && old(global)[old(position)[e] as int] == e,
        forall|q: int| 0 <= q < target.len() ==> #[trigger] old(global)[q] < target.len() && old(position)[old(global)[q] as int] == q,
        forall|s: int, i: int|
            0 <= s < rows.len() && 0 <= i < rows[s].len() ==> #[trigger] rows[s][i] < target.len() && target[rows[s][i] as int],
    ensures
        (final(times)@, final(global)@, final(rng).state()) == walk_rows(
            row_views(rows@),
            0,
            c,
            (old(times)@, old(global)@, old(rng).state()),
        ),
        final(times).len() == target.len(),
        final(global).len() == target.len(),
        final(position).len() == target.len(),
        forall|e: int| 0 <= e < target.len() ==> #[trigger] final(position)[e] < target.len() && final(global)[final(position)[e] as int] == e,
        forall|q: int| 0 <= q < target.len() ==> #[trigger] final(global)[q] < target.len() && final(position)[final(global)[q] as int] == q,
        forall|e: int| 0 <= e < target.len() && !target[e] ==> #[trigger] final(times)[e] == old(times)[e],
        c == Chance::Never ==> final(global)@ == old(global)@ && final(times)@ == old(times)@,
{
    let n = target.len();
    let ghost row_seqs = row_views(rows@);
    let ghost goal = walk_rows(row_seqs, 0, c, (times@, global@, rng.state()));
    let ghost times0 = times@;
    let ghost global0 = global@;
    let mut rows = rows;
    let ns = rows.len();
    let mut s: usize = 0;
    while s < ns
        invariant
            0 <= s <= ns,
            rows.len() == ns,
            row_seqs.len() == ns,
            forall|s2: int| s <= s2 < ns ==> #[trigger] rows[s2]@ == row_seqs[s2],
            forall|s2: int, i: int|
                0 <= s2 < ns && 0 <= i < rows[s2].len() ==> #[trigger] rows[s2][i] < n && target[rows[s2][i] as int],
            walk_rows(row_seqs, s as int, c, (times@, global@, rng.state())) == goal,
            target.len() == n,
            times.len() == n,
            position.len() == n,
            global.len() == n,
            forall|e: int| 0 <= e < n ==> #[trigger] position[e] < n && global[position[e] as int] == e,
            forall|q: int| 0 <= q < n ==> #[trigger] global[q] < n && position[global[q] as int] == q,
            forall|e: int| 0 <= e < n && !target[e] ==> #[trigger] times[e] == times0[e],
            c == Chance::Never ==> global@ == global0,
            c == Chance::Never ==> times@ == times0,
        decreases ns - s,
    {
        let mut row: Vec<usize> = Vec::new();
        std::mem::swap(&mut row, &mut rows[s]);
        let len = row.len();
        let bounds = if len > 0 { len - 1 } else { 0 };
        let mut b: usize = 0;
        proof {
            assert(row@ == row_seqs[s as int]);
        }
        while b < bounds
            invariant
                row.len() == len,
                b <= bounds,
                len > 0 ==> bounds == len - 1,
                len == 0 ==> bounds == 0,
                0 <= s < ns,
                row_seqs.len() == ns,
                walk_rows(row_seqs, s + 1, c, walk_row(row@, b as int, c, (times@, global@, rng.state()))) == goal,
                forall|i: int| 0 <= i < len ==> #[trigger] row[i] < n && target[row[i] as int],
                target.len() == n,
                times.len() == n,
                position.len() == n,
                global.len() == n,
                forall|e: int| 0 <= e < n ==> #[trigger] position[e] < n && global[position[e] as int] == e,
                forall|q: int| 0 <= q < n ==> #[trigger] global[q] < n && position[global[q] as int] == q,
                forall|e: int| 0 <= e < n && !target[e] ==> #[trigger] times[e] == times0[e],
                c == Chance::Never ==> global@ == global0,
                c == Chance::Never ==> times@ == times0,
            decreases bounds - b,
        {
            let ghost t0 = times@;
            let ghost g0 = global@;
            let ghost r0 = row@;
            let ghost st = rng.state();
            if rng.chance(c) {
                let a = row[b];
                let d = row[b + 1];
                let ta = times[a];
                let td = times[d];
                times.set(a, td);
                times.set(d, ta);
                let pa = position[a];
                let pd = position[d];
                global.set(pa, d);
                global.set(pd, a);
                position.set(a, pd);
                position.set(d, pa);
                row.set(b, d);
                row.set(b + 1, a);
                proof {
                    assert forall|e: int| 0 <= e < n implies #[trigger] position[e] < n && global[position[e] as int] == e by {
                        if e != a && e != d {
                            assert(global[position[e] as int] == e);
                        }
                    }
                    assert forall|q: int| 0 <= q < n implies #[trigger] global[q] < n && position[global[q] as int] == q by {
                    }
                    assert(times@ =~= t0.update(a as int, t0[d as int]).update(d as int, t0[a as int]));
                    assert(global@ =~= exchange(g0, a, d)) by {
                        assert forall|q: int| 0 <= q < n implies global@[q] == exchange(g0, a, d)[q] by {
                            if q != pa as int && q != pd as int {
                                assert(g0[q] != a) by {
                                    if g0[q] == a {
                                        assert(position[g0[q] as int] == q) by {
                                        }
                                    }
                                }
                            }
                        }
                    }
                    assert(row@ =~= r0.update(b as int, d).update(b + 1, a));
                }
            } else {
                proof {
                    assert(c != Chance::Always);
                }
            }
            b = b + 1;
        }
        s = s + 1;
    }
}

/// Some entry of `out` is an original of event `e`.
pub open spec fn kept_original(out: Seq<NoisyEvent>, e: int) -> bool {
    exists|i: int| 0 <= i < out.len() && out[i].source == e && !out[i].copy
}

/// Some entry of `out` comes from event `e`.
pub open spec fn emits(out: Seq<NoisyEvent>, e: int) -> bool {
    exists|i: int| 0 <= i < out.len() && out[i].source == e
}

/// All three chances are `Never`.
pub open spec fn silent(spec: NoiseSpec) -> bool {
    spec.swap == Chance::Never && spec.drop == Chance::Never && spec.duplicate == Chance::Never
}

/// Entry `i` of `out` came from place `qs[i]` of `global`, with the time
/// the swaps left it; a copy follows its original and carries the next copy
/// number.
pub open spec fn entry_ok(
    log: EventLog,
    target: Seq<bool>,
    times: Seq<Timestamp>,
    global: Seq<usize>,
    out: Seq<NoisyEvent>,
    qs: Seq<int>,
    i: int,
) -> bool {
    let x = out[i];
    &&& 0 <= qs[i] < global.len()
    &&& x.source == global[qs[i]]
    &&& x.time == times[x.source as int]
    &&& !x.copy ==> x.id@ == log.events[x.source as int].id@
    &&& x.copy ==> {
        &&& i > 0
        &&& !out[i - 1].copy
        &&& qs[i - 1] == qs[i]
        &&& out[i - 1].source == x.source
        &&& out[i - 1].time == x.time
        &&& target[x.source as int]
        &&& x.id@ == copy_id(log.events[x.source as int].id@, copies(out.take(i + 1)))
    }
}

/// Place `q` of the order was emitted as an original.
pub open spec fn covered(out: Seq<NoisyEvent>, qs: Seq<int>, q: int) -> bool {
    exists|i: int| 0 <= i < out.len() && qs[i] == q && !out[i].copy
}

proof fn lemma_entry_extend(
    log: EventLog,
    target: Seq<bool>,
    times: Seq<Timestamp>,
    global: Seq<usize>,
    out: Seq<NoisyEvent>,
    qs: Seq<int>,
    x: NoisyEvent,
    q: int,
)
    requires
        qs.len() == out.len(),
        forall|i: int| 0 <= i < out.len() ==> #[trigger] entry_ok(log, target, times, global, out, qs, i),
        forall|q2: int| #[trigger] covered(out, qs, q2) || true,
    ensures
        forall|i: int| 0 <= i < out.len() ==> #[trigger] entry_ok(log, target, times, global, out.push(x), qs.push(q), i),
        forall|q2: int| covered(out, qs, q2) ==> #[trigger] covered(out.push(x), qs.push(q), q2),
{
    assert forall|i: int| 0 <= i < out.len() implies #[trigger] entry_ok(log, target, times, global, out.push(x), qs.push(q), i) by {
        assert(entry_ok(log, target, times, global, out, qs, i));
        assert(out.push(x).take(i + 1) =~= out.take(i + 1));
    }
    assert forall|q2: int| covered(out, qs, q2) implies #[trigger] covered(out.push(x), qs.push(q), q2) by {
        let i = choose|i: int| 0 <= i < out.len() && qs[i] == q2 && !out[i].copy;
        assert(out.push(x)[i] == out[i]);
        assert(qs.push(q)[i] == qs[i]);
    }
}

/// The generator's state after the duplicate decisions on the first `i`
/// entries of `out`, from `st`: one decision per original whose event
/// touches type `ty`.
pub open spec fn dup_state(log: EventLog, ty: Seq<char>, out: Seq<NoisyEvent>, c: Chance, st: u64, i: int) -> u64
    decreases i,
{
    if i <= 0 {
        st
    } else {
        let prev = dup_state(log, ty, out, c, st, i - 1);
        if !out[i - 1].copy && log.is_target(out[i - 1].source as int, ty) {
            after(c, prev)
        } else {
            prev
        }
    }
}

/// Entry `i` of `out` is followed by a copy.
pub open spec fn copied(out: Seq<NoisyEvent>, i: int) -> bool {
    i + 1 < out.len() && out[i + 1].copy
}

proof fn lemma_dup_state_prefix(log: EventLog, ty: Seq<char>, out: Seq<NoisyEvent>, x: NoisyEvent, c: Chance, st: u64, i: int)
    requires
        0 <= i <= out.len(),
    ensures
        dup_state(log, ty, out.push(x), c, st, i) == dup_state(log, ty, out, c, st, i),
    decreases i,
{
    if i > 0 {
        lemma_dup_state_prefix(log, ty, out, x, c, st, i - 1);
        assert(out.push(x)[i - 1] == out[i - 1]);
    }
}

/// What an entry of the noisy log holds: its source event, time, id and
/// copy mark.
pub open spec fn entry_view(x: NoisyEvent) -> (usize, Timestamp, Seq<char>, bool) {
    (x.source, x.time, x.id@, x.copy)
}

/// The entries of `out`, as what they hold.
pub open spec fn views(out: Seq<NoisyEvent>) -> Seq<(usize, Timestamp, Seq<char>, bool)> {
    out.map_values(|x: NoisyEvent| entry_view(x))
}

/// Event `e`'s drop decision, taken at its place in the trace order `g`,
/// fired.
pub open spec fn dropped_event(log: EventLog, ty: Seq<char>, g: Seq<usize>, c: Chance, s0: u64, e: int) -> bool {
    exists|q: int| 0 <= q < g.len() && g[q] == e && #[trigger] dropped_at(log, ty, g, c, s0, q)
}

/// The entries emitted from the first `q` places of `order`, with the
/// generator's state and the number of copies so far: every event not in
/// `drops` once, at its time in `times`; one that touches type `ty` draws a
/// duplicate decision of `c` and, when it fires, is followed by a copy.
pub open spec fn emitted(
    log: EventLog,
    ty: Seq<char>,
    drops: Seq<bool>,
    times: Seq<Timestamp>,
    order: Seq<usize>,
    c: Chance,
    st: u64,
    q: int,
) -> (Seq<(usize, Timestamp, Seq<char>, bool)>, u64, nat)
    decreases q,
{
    if q <= 0 {
        (Seq::empty(), st, 0)
    } else {
        let (es, s, k) = emitted(log, ty, drops, times, order, c, st, q - 1);
        let e = order[q - 1];
        let id = log.events[e as int].id@;
        let original = (e, times[e as int], id, false);
        if drops[e as int] {
            (es, s, k)
        } else if !log.is_target(e as int, ty) {
            (es.push(original), s, k)
        } else if fires(c, s) {
            (es.push(original).push((e, times[e as int], copy_id(id, k + 1), true)), after(c, s), k + 1)
        } else {
            (es.push(original), after(c, s), k)
        }
    }
}

/// The noisy log that injecting `spec` into the traces of `ty` gives: drop
/// decisions along the trace order, the swap walk over the surviving
/// traces, then the emission with its duplicate decisions, all from one
/// generator seeded with `spec.seed`.
pub open spec fn noise_out(log: EventLog, ty: Seq<char>, spec: NoiseSpec) -> Seq<(usize, Timestamp, Seq<char>, bool)> {
    let g = choose|g: Seq<usize>| time_order(log, g);
    let w = swept(log, ty, g, spec);
    let drops = Seq::new(log.events.len() as nat, |e: int| dropped_event(log, ty, g, spec.drop, spec.seed | 1u64, e));
    emitted(log, ty, drops, w.0, w.1, spec.duplicate, w.2, log.events.len() as int).0
}

/// Emit the surviving events in order, each target event followed by a copy
/// when `spec.duplicate` fires; `qs[i]` is the place in `global` of entry `i`.
#[verifier::spinoff_prover]
#[verifier::rlimit(100)]
fn emit(
    log: &EventLog,
    ty: &String,
    target: &Vec<bool>,
    dropped: &Vec<bool>,
    times: &Vec<Timestamp>,
    global: &Vec<usize>,
    rng: &mut Rng,
    spec: &NoiseSpec,
) -> (r: (Vec<NoisyEvent>, Ghost<Seq<int>>))
    requires
        target.len() == log.events.len(),
        dropped.len() == log.events.len(),
        forall|e: int| 0 <= e < log.events.len() && #[trigger] dropped[e] ==> target[e],
        spec.drop == Chance::Never ==> forall|e: int| 0 <= e < log.events.len() ==> !#[trigger] dropped[e],
        times.len() == log.events.len(),
        global.len() == log.events.len(),
        forall|q2: int| 0 <= q2 < log.events.len() ==> #[trigger] global[q2] < log.events.len(),
        forall|e: int| 0 <= e < log.events.len() ==> #[trigger] target[e] == log.is_target(e, ty@),
    ensures
        ({
            let (out, qs) = (r.0, r.1@);
            &&& qs.len() == out.len()
            &&& views(out@) == emitted(*log, ty@, dropped@, times@, global@, spec.duplicate, old(rng).state(), log.events.len() as int).0
            &&& final(rng).state() == dup_state(*log, ty@, out@, spec.duplicate, old(rng).state(), out.len() as int)
            &&& forall|i: int|
                0 <= i < out.len() && !#[trigger] out[i].copy && log.is_target(out[i].source as int, ty@) ==> copied(out@, i)
                    == fires(spec.duplicate, dup_state(*log, ty@, out@, spec.duplicate, old(rng).state(), i))
            &&& forall|i: int| 0 <= i < out.len() ==> #[trigger] entry_ok(*log, target@, times@, global@, out@, qs, i)
            &&& forall|i: int, j: int|
                0 <= i < j < out.len() && !#[trigger] out[i].copy && !#[trigger] out[j].copy ==> qs[i] < qs[j]
            &&& forall|q2: int|
                0 <= q2 < log.events.len() && !#[trigger] dropped[global[q2] as int] ==> covered(out@, qs, q2)
            &&& spec.duplicate == Chance::Never ==> forall|i: int| 0 <= i < out.len() ==> !#[trigger] out[i].copy
            &&& spec.drop == Chance::Never && spec.duplicate == Chance::Never ==> out.len() == log.events.len()
                && forall|i: int| 0 <= i < out.len() ==> #[trigger] qs[i] == i
            &&& forall|i: int| 0 <= i < out.len() ==> !dropped[#[trigger] out[i].source as int]
            &&& spec.duplicate == Chance::Always ==> forall|i: int|
                0 <= i < out.len() && !#[trigger] out[i].copy && target[out[i].source as int] ==> i + 1 < out.len() && out[i + 1].copy
        }),
{
    let n = log.events.len();
    let mut out: Vec<NoisyEvent> = Vec::new();
    let mut count: usize = 0;
    let ghost mut qs: Seq<int> = Seq::empty();
    let ghost st0 = rng.state();
    let ghost c = spec.duplicate;
    for q in 0..n
        invariant
            n == log.events.len(),
            c == spec.duplicate,
            forall|e: int| 0 <= e < n ==> #[trigger] target[e] == log.is_target(e, ty@),
            rng.state() == dup_state(*log, ty@, out@, c, st0, out.len() as int),
            views(out@) == emitted(*log, ty@, dropped@, times@, global@, c, st0, q as int).0,
            rng.state() == emitted(*log, ty@, dropped@, times@, global@, c, st0, q as int).1,
            count == emitted(*log, ty@, dropped@, times@, global@, c, st0, q as int).2,
            forall|i: int|
                0 <= i < out.len() && !#[trigger] out[i].copy && log.is_target(out[i].source as int, ty@) ==> copied(out@, i)
                    == fires(c, dup_state(*log, ty@, out@, c, st0, i)),
            target.len() == n,
            dropped.len() == n,
            forall|e: int| 0 <= e < n && #[trigger] dropped[e] ==> target[e],
            spec.drop == Chance::Never ==> forall|e: int| 0 <= e < n ==> !#[trigger] dropped[e],
            times.len() == n,
            global.len() == n,
            forall|q2: int| 0 <= q2 < n ==> #[trigger] global[q2] < n,
            qs.len() == out.len(),
            count == copies(out@),
            count <= q,
            forall|i: int| 0 <= i < out.len() ==> #[trigger] entry_ok(*log, target@, times@, global@, out@, qs, i),
            forall|i: int| 0 <= i < out.len() ==> #[trigger] qs[i] < q,
            forall|i: int, j: int|
                0 <= i < j < out.len() && !#[trigger] out[i].copy && !#[trigger] out[j].copy ==> qs[i] < qs[j],
            forall|q2: int| 0 <= q2 < q && !#[trigger] dropped[global[q2] as int] ==> covered(out@, qs, q2),
            spec.duplicate == Chance::Never ==> forall|i: int| 0 <= i < out.len() ==> !#[trigger] out[i].copy,
            spec.drop == Chance::Never && spec.duplicate == Chance::Never ==> out.len() == q && forall|i: int|
                0 <= i < out.len() ==> #[trigger] qs[i] == i,
            forall|i: int| 0 <= i < out.len() ==> !dropped[#[trigger] out[i].source as int],
            spec.duplicate == Chance::Always ==> forall|i: int|
                0 <= i < out.len() && !#[trigger] out[i].copy && target[out[i].source as int] ==> i + 1 < out.len() && out[i + 1].copy,
    {
        let e = global[q];
        if !dropped[e] {
            let ghost out0 = out@;
            let ghost qs0 = qs;
            let ghost st_before = rng.state();
            let ghost k0 = count;
            let original = NoisyEvent { source: e, time: times[e], id: log.events[e].id.clone(), copy: false };
            out.push(original);
            let ghost out1 = out@;
            proof {
                assert forall|i: int| 0 <= i <= out0.len() implies #[trigger] dup_state(*log, ty@, out1, c, st0, i) == dup_state(
                    *log,
                    ty@,
                    out0,
                    c,
                    st0,
                    i,
                ) by {
                    lemma_dup_state_prefix(*log, ty@, out0, original, c, st0, i);
                }
                lemma_entry_extend(*log, target@, times@, global@, out0, qs0, original, q as int);
                qs = qs.push(q as int);
                assert(out@ == out0.push(original));
                assert(out@.drop_last() =~= out0);
                assert(copies(out@) == copies(out0));
                assert(entry_ok(*log, target@, times@, global@, out@, qs, out0.len() as int));
                assert(covered(out@, qs, q as int)) by {
                    assert(qs[out0.len() as int] == q);
                }
            }
            if target[e] {
                if rng.chance(spec.duplicate) {
                    let ghost qs1 = qs;
                    count = count + 1;
                    let id = copy_name(&log.events[e].id, count);
                    let dup = NoisyEvent { source: e, time: times[e], id, copy: true };
                    out.push(dup);
                    proof {
                        lemma_entry_extend(*log, target@, times@, global@, out1, qs1, dup, q as int);
                        qs = qs.push(q as int);
                        assert(out@ == out1.push(dup));
                        assert(out@.drop_last() =~= out1);
                        assert(copies(out@) == copies(out1) + 1);
                        assert(out@.take(out.len() as int) =~= out@);
                        assert(out[out1.len() - 1] == original);
                        assert(entry_ok(*log, target@, times@, global@, out@, qs, out1.len() as int));
                        assert forall|i: int| 0 <= i <= out1.len() implies #[trigger] dup_state(*log, ty@, out@, c, st0, i) == dup_state(
                            *log,
                            ty@,
                            out1,
                            c,
                            st0,
                            i,
                        ) by {
                            lemma_dup_state_prefix(*log, ty@, out1, dup, c, st0, i);
                        }
                        assert(copied(out@, out0.len() as int));
                    }
                }
            }
            proof {
                let len0 = out0.len() as int;
                assert(out1 == out0.push(original));
                assert(out@.len() >= out1.len());
                assert(out@.len() > out1.len() ==> out@ == out1.push(out@[len0 + 1]) && out@[len0 + 1].copy);
                assert forall|i: int| 0 <= i <= len0 + 1 && i <= out@.len() implies #[trigger] dup_state(*log, ty@, out@, c, st0, i) == dup_state(
                    *log,
                    ty@,
                    out1,
                    c,
                    st0,
                    i,
                ) by {
                    if out@.len() > out1.len() {
                        lemma_dup_state_prefix(*log, ty@, out1, out@[len0 + 1], c, st0, i);
                    }
                }
                assert(target[e as int] == log.is_target(e as int, ty@));
                assert(dup_state(*log, ty@, out1, c, st0, len0) == st_before);
                assert(views(out1) =~= views(out0).push(entry_view(original)));
                if out@.len() > out1.len() {
                    assert(views(out@) =~= views(out1).push(entry_view(out@[len0 + 1])));
                    assert(count == k0 + 1);
                    assert(out@[len0 + 1].id@ == copy_id(log.events[e as int].id@, count as nat));
                } else {
                    assert(out@ == out1);
                }
                if out@.len() > out1.len() {
                    assert(dup_state(*log, ty@, out@, c, st0, len0 + 2) == dup_state(*log, ty@, out@, c, st0, len0 + 1));
                }
                assert forall|i: int|
                    0 <= i < out.len() && !#[trigger] out[i].copy && log.is_target(out[i].source as int, ty@) implies copied(out@, i)
                        == fires(c, dup_state(*log, ty@, out@, c, st0, i)) by {
                    if i < len0 {
                        assert(out@[i] == out0[i]);
                        if i + 1 < len0 {
                            assert(out@[i + 1] == out0[i + 1]);
                        } else {
                            assert(out@[i + 1] == original);
                        }
                        assert(dup_state(*log, ty@, out@, c, st0, i) == dup_state(*log, ty@, out0, c, st0, i));
                    } else {
                        assert(i == len0);
                    }
                }
                assert forall|i: int| 0 <= i < out.len() implies !dropped[#[trigger] out[i].source as int] by {
                    if i < out0.len() {
                        assert(out@[i] == out0[i]);
                    }
                }
                if spec.duplicate == Chance::Always {
                    assert forall|i: int|
                        0 <= i < out.len() && !#[trigger] out[i].copy && target[out[i].source as int] implies i + 1 < out.len() && out[i + 1].copy by {
                        if i < out0.len() {
                            assert(out@[i] == out0[i]);
                            assert(out@[i + 1] == out0[i + 1]);
                        }
                    }
                }
            }
        }
    }
    (out, Ghost(qs))
}

/// Inject noise into the traces of `object_type`; the result lists the
/// events of the noisy log in order. The log itself is untouched. The result
/// is `noise_out(log, object_type, spec)`, a function of the arguments: the
/// same log, type and spec (seed included) always give the same noisy log.
pub fn inject_noise(log: &EventLog, object_type: &str, spec: &NoiseSpec) -> (out: Vec<NoisyEvent>)
    requires
        log.wf(),
    ensures
        forall|i: int| 0 <= i < out.len() ==> #[trigger] out[i].source < log.events.len(),
        forall|i: int|
            0 <= i < out.len() && !#[trigger] out[i].copy ==> out[i].id@ == log.events[out[i].source as int].id@,
        forall|i: int|
            0 <= i < out.len() && #[trigger] out[i].copy ==> {
                &&& i > 0
                &&& !out[i - 1].copy
                &&& out[i - 1].source == out[i].source
                &&& out[i - 1].time == out[i].time
                &&& log.is_target(out[i].source as int, object_type@)
                &&& out[i].id@ == copy_id(log.events[out[i].source as int].id@, copies(out@.take(i + 1)))
            },
        forall|i: int, j: int|
            0 <= i < j < out.len() && !#[trigger] out[i].copy && !#[trigger] out[j].copy ==> out[i].source != out[j].source,
        forall|e: int|
            0 <= e < log.events.len() && !log.is_target(e, object_type@) ==> exists|i: int|
                0 <= i < out.len() && #[trigger] out[i].source == e && !out[i].copy && out[i].time == log.events[e].time,
        spec.drop == Chance::Never ==> forall|e: int| 0 <= e < log.events.len() ==> #[trigger] emits(out@, e),
        spec.duplicate == Chance::Never ==> forall|i: int| 0 <= i < out.len() ==> !#[trigger] out[i].copy,
        exists|g: Seq<usize>|
            #![trigger time_order(*log, g)]
            time_order(*log, g) && forall|q: int|
                0 <= q < log.events.len() ==> #[trigger] kept_original(out@, g[q] as int) == !dropped_at(
                    *log,
                    object_type@,
                    g,
                    spec.drop,
                    spec.seed | 1u64,
                    q,
                ) && {
                    let w = swept(*log, object_type@, g, *spec);
                    &&& forall|i: int| 0 <= i < out.len() ==> #[trigger] out[i].time == w.0[out[i].source as int]
                    &&& forall|i: int, j: int|
                        0 <= i < j < out.len() && !#[trigger] out[i].copy && !#[trigger] out[j].copy ==> placed_before(
                            w.1,
                            out[i].source,
                            out[j].source,
                        )
                    &&& forall|i: int|
                        0 <= i < out.len() && !#[trigger] out[i].copy && log.is_target(out[i].source as int, object_type@)
                            ==> copied(out@, i) == fires(spec.duplicate, dup_state(*log, object_type@, out@, spec.duplicate, w.2, i))
                },
        spec.duplicate == Chance::Always ==> forall|i: int|
            0 <= i < out.len() && !#[trigger] out[i].copy && log.is_target(out[i].source as int, object_type@) ==> i + 1 < out.len()
                && out[i + 1].copy,
        views(out@) == noise_out(*log, object_type@, *spec),
        silent(*spec) ==> {
            &&& out.len() == log.events.len()
            &&& forall|i: int| 0 <= i < out.len() ==> #[trigger] out[i].time == log.events[out[i].source as int].time
            &&& forall|i: int, j: int|
                0 <= i < j < out.len() ==> log.before(#[trigger] out[i].source as int, #[trigger] out[j].source as int)
        },
{
    let n = log.events.len();
    let ty: String = object_type.to_owned();
    let mut rng = Rng::new(spec.seed);
    let target = target_flags(log, &ty);
    let mut global = event_order(log);
    let ghost global0 = global@;
    assert(ty@ == object_type@);

    // 1. drop: one decision per target event, in trace order
    let mut dropped: Vec<bool> = Vec::new();
    for e in 0..n
        invariant
            dropped.len() == e,
            forall|j: int| 0 <= j < e ==> !dropped[j],
    {
        dropped.push(false);
    }
    for q in 0..n
        invariant
            n == log.events.len(),
            target.len() == n,
            dropped.len() == n,
            is_permutation(global@, n as nat),
            forall|e: int| 0 <= e < n && #[trigger] dropped[e] ==> target[e],
            spec.drop == Chance::Never ==> forall|e: int| 0 <= e < n ==> !#[trigger] dropped[e],
            forall|e: int| 0 <= e < n ==> target[e] == log.is_target(e, ty@),
            global@ == global0,
            rng.state() == drop_state(*log, ty@, global0, spec.drop, spec.seed | 1u64, q as int),
            forall|q2: int| 0 <= q2 < n ==> #[trigger] dropped[global0[q2] as int] == (q2 < q && dropped_at(*log, ty@, global0, spec.drop, spec.seed | 1u64, q2)),
    {
        let e = global[q];
        let ghost st = rng.state();
        let ghost d0 = dropped@;
        if target[e] {
            if rng.chance(spec.drop) {
                dropped.set(e, true);
            }
        }
        proof {
            assert(log.is_target(global0[q as int] as int, ty@) == target[e as int]);
            assert forall|q2: int| 0 <= q2 < n implies #[trigger] dropped[global0[q2] as int] == (q2 < q + 1 && dropped_at(*log, ty@, global0, spec.drop, spec.seed | 1u64, q2)) by {
                if q2 != q {
                    assert(global0[q2] != global0[q as int]);
                    assert(dropped[global0[q2] as int] == d0[global0[q2] as int]);
                }
            }
        }
    }

    // 2. swap: walk each surviving trace's boundaries left to right; a swap
    //    exchanges the two events' times and their places in the order
    let mut times: Vec<Timestamp> = Vec::new();
    let mut position: Vec<usize> = Vec::new();
    for e in 0..n
        invariant
            n == log.events.len(),
            times.len() == e,
            position.len() == e,
            forall|j: int| 0 <= j < e ==> #[trigger] times[j] == log.events[j].time,
    {
        times.push(log.events[e].time);
        position.push(0);
    }
    for q in 0..n
        invariant
            n == log.events.len(),
            position.len() == n,
            is_permutation(global@, n as nat),
            forall|q2: int| 0 <= q2 < q ==> #[trigger] position[global[q2] as int] == q2,
    {
        let e = global[q];
        let ghost p0 = position@;
        position.set(e, q);
        proof {
            assert forall|q2: int| 0 <= q2 < q + 1 implies #[trigger] position[global[q2] as int] == q2 by {
                if q2 < q {
                    assert(global[q2] != global[q as int]);
                    assert(position[global[q2] as int] == p0[global[q2] as int]);
                }
            }
        }
    }
    proof {
        assert forall|e: int| 0 <= e < n implies position[e] < n && global[position[e] as int] == e by {
            assert(crate::keysort::occurs(global@, e));
            let q = choose|q: int| 0 <= q < n && global[q] == e;
            assert(position[global[q] as int] == q);
        }
    }
    let ghost drops = Seq::new(n as nat, |e: int| dropped_event(*log, ty@, global0, spec.drop, spec.seed | 1u64, e));
    proof {
        assert forall|e: int| 0 <= e < n implies dropped@[e] == drops[e] by {
            let q = position[e] as int;
            assert(global0[q] == e);
            assert(dropped[global0[q] as int] == dropped_at(*log, ty@, global0, spec.drop, spec.seed | 1u64, q));
            if drops[e] {
                let q2 = choose|q2: int| 0 <= q2 < global0.len() && global0[q2] == e && #[trigger] dropped_at(*log, ty@, global0, spec.drop, spec.seed | 1u64, q2);
                assert(dropped[global0[q2] as int]);
            }
        }
        assert(dropped@ =~= drops);
    }
    let rows = surviving_rows(log, &ty, spec, &dropped, &global, &position);
    let ghost row_seqs = row_views(rows@);
    let ghost times0 = times@;
    let ghost st0 = rng.state();
    proof {
        assert forall|s: int, i: int|
            0 <= s < rows.len() && 0 <= i < rows[s].len() implies #[trigger] rows[s][i] < n && target[rows[s][i] as int] by {
            assert(log.is_target(rows[s][i] as int, ty@));
        }
    }
    sweep(rows, spec.swap, &target, &mut times, &mut global, &mut position, &mut rng);
    proof {
        assert(row_seqs =~= trace_rows(*log, ty@, global0, spec.drop, spec.seed | 1u64));
        assert(times0 =~= Seq::new(n as nat, |e: int| log.events[e].time));
        assert((times@, global@, rng.state()) == swept(*log, ty@, global0, *spec));
    }

    // 3. duplicate: one decision per surviving target event; the copy sits
    //    right after its original
    let ghost st_dup = rng.state();
    let (out, Ghost(qs)) = emit(log, &ty, &target, &dropped, &times, &global, &mut rng, spec);
    proof {
        assert forall|i: int| 0 <= i < out.len() implies #[trigger] out[i].source < log.events.len() && (!out[i].copy
            ==> out[i].id@ == log.events[out[i].source as int].id@) && (out[i].copy ==> {
                &&& i > 0
                &&& !out[i - 1].copy
                &&& out[i - 1].source == out[i].source
                &&& out[i - 1].time == out[i].time
                &&& log.is_target(out[i].source as int, object_type@)
                &&& out[i].id@ == copy_id(log.events[out[i].source as int].id@, copies(out@.take(i + 1)))
            }) by {
            assert(entry_ok(*log, target@, times@, global@, out@, qs, i));
            assert(global[qs[i]] < n);
            assert(target[out[i].source as int] == log.is_target(out[i].source as int, ty@));
            assert(ty@ == object_type@);
        }
        assert forall|i: int|
            0 <= i < out.len() && #[trigger] out[i].copy implies {
                &&& i > 0
                &&& !out[i - 1].copy
                &&& out[i - 1].source == out[i].source
                &&& out[i - 1].time == out[i].time
                &&& log.is_target(out[i].source as int, object_type@)
                &&& out[i].id@ == copy_id(log.events[out[i].source as int].id@, copies(out@.take(i + 1)))
            } by {
            assert(entry_ok(*log, target@, times@, global@, out@, qs, i));
            assert(global[qs[i]] < n);
            assert(target[out[i].source as int] == log.is_target(out[i].source as int, ty@));
        }
        assert forall|i: int, j: int|
            0 <= i < j < out.len() && !#[trigger] out[i].copy && !#[trigger] out[j].copy implies out[i].source != out[j].source by {
            assert(qs[i] < qs[j]);
            assert(entry_ok(*log, target@, times@, global@, out@, qs, i));
            assert(entry_ok(*log, target@, times@, global@, out@, qs, j));
            assert(position[global[qs[i]] as int] == qs[i]);
            assert(position[global[qs[j]] as int] == qs[j]);
        }
        assert forall|e: int| 0 <= e < log.events.len() && !log.is_target(e, object_type@) implies exists|i: int|
            0 <= i < out.len() && #[trigger] out[i].source == e && !out[i].copy && out[i].time == log.events[e].time by {
            let q2 = position[e] as int;
            assert(!dropped[global[q2] as int]);
            let i = choose|i: int| 0 <= i < out.len() && qs[i] == q2 && !out[i].copy;
            assert(entry_ok(*log, target@, times@, global@, out@, qs, i));
            assert(out[i].source == e);
        }
        if spec.drop == Chance::Never {
            assert forall|e: int| 0 <= e < log.events.len() implies #[trigger] emits(out@, e) by {
                let q2 = position[e] as int;
                assert(!dropped[global[q2] as int]);
                let i = choose|i: int| 0 <= i < out.len() && qs[i] == q2 && !out[i].copy;
                assert(entry_ok(*log, target@, times@, global@, out@, qs, i));
                assert(out[i].source == e);
            }
        }
        assert forall|q: int| 0 <= q < log.events.len() implies #[trigger] kept_original(out@, global0[q] as int) == !dropped_at(
            *log,
            object_type@,
            global0,
            spec.drop,
            spec.seed | 1u64,
            q,
        ) by {
            let e = global0[q] as int;
            assert(dropped[e] == dropped_at(*log, ty@, global0, spec.drop, spec.seed | 1u64, q));
            if !dropped[e] {
                let q2 = position[e] as int;
                assert(!dropped[global[q2] as int]);
                let i = choose|i: int| 0 <= i < out.len() && qs[i] == q2 && !out[i].copy;
                assert(entry_ok(*log, target@, times@, global@, out@, qs, i));
                assert(out[i].source == e);
            }
            if kept_original(out@, e) {
                let i = choose|i: int| 0 <= i < out.len() && out@[i].source == e && !out@[i].copy;
                assert(!dropped[out[i].source as int]);
            }
        }
        assert(time_order(*log, global0));
        assert(st_dup == swept(*log, object_type@, global0, *spec).2);
        let g = choose|g: Seq<usize>| time_order(*log, g);
        lemma_time_order_unique(*log, g, global0);
        assert(views(out@) == noise_out(*log, object_type@, *spec));
        assert forall|i: int| 0 <= i < out.len() implies #[trigger] out[i].time == times@[out[i].source as int] by {
            assert(entry_ok(*log, target@, times@, global@, out@, qs, i));
        }
        assert forall|i: int, j: int|
            0 <= i < j < out.len() && !#[trigger] out[i].copy && !#[trigger] out[j].copy implies placed_before(
                global@,
                out[i].source,
                out[j].source,
            ) by {
            assert(entry_ok(*log, target@, times@, global@, out@, qs, i));
            assert(entry_ok(*log, target@, times@, global@, out@, qs, j));
            assert(qs[i] < qs[j]);
            assert(global@[qs[i]] == out[i].source && global@[qs[j]] == out[j].source);
        }
        if spec.duplicate == Chance::Always {
            assert forall|i: int|
                0 <= i < out.len() && !#[trigger] out[i].copy && log.is_target(out[i].source as int, object_type@) implies i + 1 < out.len()
                    && out[i + 1].copy by {
                assert(entry_ok(*log, target@, times@, global@, out@, qs, i));
                assert(global[qs[i]] < n);
                assert(target[out[i].source as int] == log.is_target(out[i].source as int, ty@));
            }
        }
        if silent(*spec) {
            assert forall|i: int| 0 <= i < out.len() implies #[trigger] out[i].time == log.events[out[i].source as int].time by {
                assert(entry_ok(*log, target@, times@, global@, out@, qs, i));
                assert(global[qs[i]] < n);
            }
            assert forall|i: int, j: int|
                0 <= i < j < out.len() implies log.before(#[trigger] out[i].source as int, #[trigger] out[j].source as int) by {
                assert(qs[i] == i && qs[j] == j);
                assert(entry_ok(*log, target@, times@, global@, out@, qs, i));
                assert(entry_ok(*log, target@, times@, global@, out@, qs, j));
                assert(out[i].source == global0[i]);
                assert(out[j].source == global0[j]);
            }
        }
    }
    out
}

/// The noisy log itself: the objects and types of `log`, and one event per
/// entry of `noisy`, in its order, with the source event's activity and
/// objects.
pub fn noisy_log(log: &EventLog, noisy: &Vec<NoisyEvent>) -> (r: EventLog)
    requires
        forall|i: int| 0 <= i < noisy.len() ==> #[trigger] noisy[i].source < log.events.len(),
    ensures
        r.object_types@ == log.object_types@,
        r.objects.len() == log.objects.len(),
        forall|o: int| 0 <= o < log.objects.len() ==> {
            &&& (#[trigger] r.objects[o]).id@ == log.objects[o].id@
            &&& r.objects[o].object_type@ == log.objects[o].object_type@
        },
        r.events.len() == noisy.len(),
        forall|i: int| 0 <= i < noisy.len() ==> {
            let e = #[trigger] r.events[i];
            let src = log.events[noisy[i].source as int];
            &&& e.id@ == noisy[i].id@
            &&& e.activity@ == src.activity@
            &&& e.time == noisy[i].time
            &&& e.objects@ == src.objects@
        },
        log.wf() && (forall|i: int| 0 <= i < noisy.len() ==> time_ok(#[trigger] noisy[i].time)) ==> r.wf(),
{
    let mut events: Vec<LogEvent> = Vec::new();
    let mut i: usize = 0;
    while i < noisy.len()
        invariant
            i <= noisy.len(),
            events.len() == i,
            forall|j: int| 0 <= j < noisy.len() ==> #[trigger] noisy[j].source < log.events.len(),
            forall|j: int| 0 <= j < i ==> {
                let e = #[trigger] events[j];
                let src = log.events[noisy[j].source as int];
                &&& e.id@ == noisy[j].id@
                &&& e.activity@ == src.activity@
                &&& e.time == noisy[j].time
                &&& e.objects@ == src.objects@
            },
        decreases noisy.len() - i,
    {
        let src = &log.events[noisy[i].source];
        events.push(LogEvent {
            id: noisy[i].id.clone(),
            activity: src.activity.clone(),
            time: noisy[i].time,
            objects: src.objects.clone(),
        });
        i = i + 1;
    }
    let mut objects: Vec<LogObject> = Vec::new();
    let mut o: usize = 0;
    while o < log.objects.len()
        invariant
            o <= log.objects.len(),
            objects.len() == o,
            forall|p: int| 0 <= p < o ==> {
                &&& (#[trigger] objects[p]).id@ == log.objects[p].id@
                &&& objects[p].object_type@ == log.objects[p].object_type@
            },
        decreases log.objects.len() - o,
    {
        objects.push(LogObject { id: log.objects[o].id.clone(), object_type: log.objects[o].object_type.clone() });
        o = o + 1;
    }
    let r = EventLog { object_types: log.object_types.clone(), objects, events };
    proof {
        if log.wf() && (forall|j: int| 0 <= j < noisy.len() ==> time_ok(#[trigger] noisy[j].time)) {
            assert forall|e: int, k: int| 0 <= e < r.events.len() && 0 <= k < r.events[e].objects.len()
                implies #[trigger] r.events[e].objects[k] < r.objects.len() by {
                let src = log.events[noisy[e].source as int];
                assert(r.events[e].objects@ == src.objects@);
                assert(src.objects[k] < log.objects.len());
            }
            assert forall|e: int| 0 <= e < r.events.len() implies time_ok(#[trigger] r.events[e].time) by {
                assert(r.events[e].time == noisy[e].time);
            }
        }
    }
    r
}

} // verus!
