//! Physics bookkeeping: body handles, trigger events, and the two-way map
//! between physics bodies and ECS entities.
//!
//! The trigger tracker keeps the pairs that overlapped in the previous step
//! in a `Vec`, each pair once (`no_repeats`), in the order first reported,
//! so the exit events of a step come out in a stated order rather than a
//! hash order.

use vstd::prelude::*;
use std::collections::HashMap;

verus! {

broadcast use vstd::std_specs::hash::group_hash_axioms;

/// Handle to a physics body.
#[derive(Debug, Clone, Copy, PartialEq, Eq, Hash, Structural)]
pub struct BodyHandle(pub u32);

/// Type of physics body.
#[derive(Debug, Clone, Copy, PartialEq, Eq, Structural)]
pub enum BodyType {
    Static,
    Dynamic,
    Kinematic,
}

/// Phase of a trigger volume overlap.
#[derive(Debug, Clone, Copy, PartialEq, Eq, Structural)]
pub enum TriggerPhase {
    Enter,
    Stay,
    Exit,
}

/// An overlap event between two bodies where at least one is a sensor.
#[derive(Debug, Clone, Copy, PartialEq, Eq, Structural)]
pub struct TriggerEvent {
    pub body_a: BodyHandle,
    pub body_b: BodyHandle,
    pub phase: TriggerPhase,
}

/// Marks an entity as having a physics rigid body.
#[derive(Debug, Clone, Copy, PartialEq, Eq, Structural)]
pub struct RigidBodyComponent {
    pub handle: BodyHandle,
    pub body_type: BodyType,
}

/// Marks an entity as a trigger volume (sensor). Attach alongside a
/// `RigidBodyComponent` with a sensor collider to receive trigger events.
#[derive(Debug, Clone, Copy)]
pub struct TriggerVolume {
    /// Optional tag for filtering trigger events by purpose (e.g. "checkpoint").
    pub tag: Option<&'static str>,
}

/// A body pair ordered by handle, the way overlaps are remembered.
pub open spec fn ordered_pair(p: (BodyHandle, BodyHandle)) -> (BodyHandle, BodyHandle) {
    if p.0.0 <= p.1.0 { p } else { (p.1, p.0) }
}

/// The overlapping pairs, each ordered by handle.
pub open spec fn ordered_pairs(ps: Seq<(BodyHandle, BodyHandle)>) -> Seq<(BodyHandle, BodyHandle)> {
    ps.map_values(|p: (BodyHandle, BodyHandle)| ordered_pair(p))
}

/// The first `n` pairs of `ps` without repeats, in order of first occurrence.
pub open spec fn first_occurrences(ps: Seq<(BodyHandle, BodyHandle)>, n: int) -> Seq<(BodyHandle, BodyHandle)>
    decreases n,
{
    if n <= 0 {
        seq![]
    } else {
        let prev = first_occurrences(ps, n - 1);
        if prev.contains(ps[n - 1]) { prev } else { prev.push(ps[n - 1]) }
    }
}

/// The enter or stay event of each overlap this step, in the order reported:
/// stay when the pair overlapped in the previous step.
pub open spec fn enter_stay_events(active: Seq<(BodyHandle, BodyHandle)>, overlaps: Seq<(BodyHandle, BodyHandle)>) -> Seq<TriggerEvent> {
    overlaps.map_values(|p: (BodyHandle, BodyHandle)| TriggerEvent {
        body_a: p.0,
        body_b: p.1,
        phase: if active.contains(ordered_pair(p)) { TriggerPhase::Stay } else { TriggerPhase::Enter },
    })
}

/// The exit events of the first `n` remembered pairs that no longer overlap.
pub open spec fn exit_events(active: Seq<(BodyHandle, BodyHandle)>, current: Seq<(BodyHandle, BodyHandle)>, n: int) -> Seq<TriggerEvent>
    decreases n,
{
    if n <= 0 {
        seq![]
    } else {
        let prev = exit_events(active, current, n - 1);
        let q = active[n - 1];
        if current.contains(q) {
            prev
        } else {
            prev.push(TriggerEvent { body_a: q.0, body_b: q.1, phase: TriggerPhase::Exit })
        }
    }
}

/// The sensor overlaps of the previous physics step, from which each step's
/// trigger events are told apart (enter, stay, exit).
pub struct TriggerTracker {
    active: Vec<(BodyHandle, BodyHandle)>,
}

fn contains_pair(v: &Vec<(BodyHandle, BodyHandle)>, q: (BodyHandle, BodyHandle)) -> (r: bool)
    ensures
        r == v@.contains(q),
{
    let mut i: usize = 0;
    while i < v.len()
        invariant
            i <= v@.len(),
            forall|j: int| 0 <= j < i ==> v@[j] != q,
        decreases v@.len() - i,
    {
        if v[i].0.0 == q.0.0 && v[i].1.0 == q.1.0 {
            assert(v@[i as int] == q);
            return true;
        }
        i = i + 1;
    }
    false
}

impl TriggerTracker {
    /// The pairs (ordered by handle) that overlapped in the previous step.
    pub closed spec fn active(&self) -> Seq<(BodyHandle, BodyHandle)> {
        self.active@
    }

    /// The remembered pairs are distinct and ordered by handle.
    pub open spec fn wf(&self) -> bool {
        no_repeats(self.active()) && all_ordered(self.active())
    }

    /// Nothing overlapped yet.
    pub fn new() -> (t: Self)
        ensures
            t.wf(),
            t.active().len() == 0,
    {
        TriggerTracker { active: Vec::new() }
    }

    /// Take this step's overlapping body pairs (in the order the physics
    /// engine reports them): an enter event for each pair that did not
    /// overlap in the previous step and a stay event for each that did, in
    /// that order, then an exit event for each remembered pair that no
    /// longer overlaps. The overlaps are remembered for the next step.
    pub fn update(&mut self, overlaps: &Vec<(BodyHandle, BodyHandle)>) -> (events: Vec<TriggerEvent>)
        ensures
            events@ == enter_stay_events(old(self).active(), overlaps@)
                + exit_events(old(self).active(), ordered_pairs(overlaps@), old(self).active().len() as int),
            final(self).active() == first_occurrences(ordered_pairs(overlaps@), overlaps@.len() as int),
            final(self).wf(),
    {
        let ghost old_active = self.active@;
        let mut events: Vec<TriggerEvent> = Vec::new();
        let mut current: Vec<(BodyHandle, BodyHandle)> = Vec::new();
        let mut i: usize = 0;
        while i < overlaps.len()
            invariant
                self.active@ == old_active,
                i <= overlaps@.len(),
                events@ == enter_stay_events(old_active, overlaps@).take(i as int),
                current@ == first_occurrences(ordered_pairs(overlaps@), i as int),
            decreases overlaps@.len() - i,
        {
            let (a, b) = overlaps[i];
            let key = if a.0 <= b.0 { (a, b) } else { (b, a) };
            assert(key == ordered_pair(overlaps@[i as int]));
            let stay = contains_pair(&self.active, key);
            let phase = if stay { TriggerPhase::Stay } else { TriggerPhase::Enter };
            events.push(TriggerEvent { body_a: a, body_b: b, phase });
            assert(events@ =~= enter_stay_events(old_active, overlaps@).take(i + 1));
            if !contains_pair(&current, key) {
                current.push(key);
            }
            assert(ordered_pairs(overlaps@)[i as int] == key);
            i = i + 1;
        }
        assert(enter_stay_events(old_active, overlaps@).take(overlaps@.len() as int) =~= enter_stay_events(old_active, overlaps@));
        let ghost enter_stay = events@;
        let mut k: usize = 0;
        while k < self.active.len()
            invariant
                self.active@ == old_active,
                k <= old_active.len(),
                current@ == first_occurrences(ordered_pairs(overlaps@), overlaps@.len() as int),
                events@ == enter_stay + exit_events(old_active, ordered_pairs(overlaps@), k as int),
            decreases old_active.len() - k,
        {
            let q = self.active[k];
            proof {
                lemma_first_occurrences_contains(ordered_pairs(overlaps@), overlaps@.len() as int, q);
                assert(ordered_pairs(overlaps@).take(overlaps@.len() as int) =~= ordered_pairs(overlaps@));
                assert(old_active[k as int] == q);
            }
            if !contains_pair(&current, q) {
                events.push(TriggerEvent { body_a: q.0, body_b: q.1, phase: TriggerPhase::Exit });
            }
            k = k + 1;
        }
        proof {
            let ps = ordered_pairs(overlaps@);
            assert forall|i: int| 0 <= i < ps.len() implies ordered_pair(#[trigger] ps[i]) == ps[i] by {
                assert(ps[i] == ordered_pair(overlaps@[i]));
            }
            lemma_first_occurrences_distinct(ps, overlaps@.len() as int);
        }
        self.active = current;
        events
    }
}

/// Overlaps are remembered between steps: after an update with `overlaps`,
/// the tracker holds a pair (ordered by handle) exactly when some overlap of
/// that step was that pair, so its next overlap is a stay and, once it stops
/// overlapping, it leaves with one exit.
pub proof fn law_overlap_remembered(overlaps: Seq<(BodyHandle, BodyHandle)>, p: (BodyHandle, BodyHandle))
    ensures
        first_occurrences(ordered_pairs(overlaps), overlaps.len() as int).contains(ordered_pair(p))
            <==> ordered_pairs(overlaps).contains(ordered_pair(p)),
{
    lemma_first_occurrences_contains(ordered_pairs(overlaps), overlaps.len() as int, ordered_pair(p));
    assert(ordered_pairs(overlaps).take(overlaps.len() as int) =~= ordered_pairs(overlaps));
}

/// A pair is among the first occurrences of `ps` exactly when it occurs in
/// `ps`.
proof fn lemma_first_occurrences_contains(ps: Seq<(BodyHandle, BodyHandle)>, n: int, q: (BodyHandle, BodyHandle))
    requires
        0 <= n <= ps.len(),
    ensures
        first_occurrences(ps, n).contains(q) <==> ps.take(n).contains(q),
    decreases n,
{
    if n > 0 {
        lemma_first_occurrences_contains(ps, n - 1, q);
        let prev = first_occurrences(ps, n - 1);
        assert(ps.take(n) =~= ps.take(n - 1).push(ps[n - 1]));
        if !prev.contains(ps[n - 1]) {
            let pushed = prev.push(ps[n - 1]);
            if pushed.contains(q) {
                let j = choose|j: int| 0 <= j < pushed.len() && #[trigger] pushed[j] == q;
                if j < prev.len() {
                    assert(prev[j] == q);
                }
            }
            if prev.contains(q) {
                let j = choose|j: int| 0 <= j < prev.len() && #[trigger] prev[j] == q;
                assert(pushed[j] == q);
            }
            assert(pushed[prev.len() as int] == ps[n - 1]);
        }
        assert(ps.take(n).contains(q) <==> (ps.take(n - 1).contains(q) || q == ps[n - 1])) by {
            if ps.take(n).contains(q) {
                let t = ps.take(n);
                let j = choose|j: int| 0 <= j < t.len() && #[trigger] t[j] == q;
                if j < n - 1 {
                    assert(ps.take(n - 1)[j] == q);
                }
            }
            if ps.take(n - 1).contains(q) {
                let t = ps.take(n - 1);
                let j = choose|j: int| 0 <= j < t.len() && #[trigger] t[j] == q;
                assert(ps.take(n)[j] == q);
            }
            if q == ps[n - 1] {
                assert(ps.take(n)[n - 1] == q);
            }
        }
    }
}

/// Event `ev` is about pair `q` (ordered by handle) in phase `phase`.
pub open spec fn event_matches(ev: TriggerEvent, q: (BodyHandle, BodyHandle), phase: TriggerPhase) -> bool {
    ordered_pair((ev.body_a, ev.body_b)) == q && ev.phase == phase
}

/// How many of `evs` are about pair `q` in phase `phase`.
pub open spec fn count_events(evs: Seq<TriggerEvent>, q: (BodyHandle, BodyHandle), phase: TriggerPhase) -> nat
    decreases evs.len(),
{
    if evs.len() == 0 {
        0
    } else {
        count_events(evs.drop_last(), q, phase) + (if event_matches(evs.last(), q, phase) { 1nat } else { 0nat })
    }
}

/// No pair occurs twice in `ps`.
pub open spec fn no_repeats(ps: Seq<(BodyHandle, BodyHandle)>) -> bool {
    forall|i: int, j: int| 0 <= i < j < ps.len() ==> #[trigger] ps[i] != #[trigger] ps[j]
}

/// Every pair of `ps` is ordered by handle.
pub open spec fn all_ordered(ps: Seq<(BodyHandle, BodyHandle)>) -> bool {
    forall|i: int| 0 <= i < ps.len() ==> ordered_pair(#[trigger] ps[i]) == ps[i]
}

proof fn lemma_count_concat(a: Seq<TriggerEvent>, b: Seq<TriggerEvent>, q: (BodyHandle, BodyHandle), phase: TriggerPhase)
    ensures
        count_events(a + b, q, phase) == count_events(a, q, phase) + count_events(b, q, phase),
    decreases b.len(),
{
    if b.len() == 0 {
        assert(a + b =~= a);
    } else {
        lemma_count_concat(a, b.drop_last(), q, phase);
        assert((a + b).drop_last() =~= a + b.drop_last());
        assert((a + b).last() == b.last());
    }
}

proof fn lemma_enter_stay_count(active: Seq<(BodyHandle, BodyHandle)>, overlaps: Seq<(BodyHandle, BodyHandle)>, q: (BodyHandle, BodyHandle), phase: TriggerPhase)
    requires
        no_repeats(ordered_pairs(overlaps)),
    ensures
        count_events(enter_stay_events(active, overlaps), q, phase) == (if ordered_pairs(overlaps).contains(q)
            && phase == (if active.contains(q) { TriggerPhase::Stay } else { TriggerPhase::Enter }) {
            1nat
        } else {
            0nat
        }),
    decreases overlaps.len(),
{
    let ps = ordered_pairs(overlaps);
    if overlaps.len() == 0 {
        assert(!ps.contains(q));
    } else {
        let o2 = overlaps.drop_last();
        let ps2 = ordered_pairs(o2);
        let n = overlaps.len() - 1;
        assert(ps2 =~= ps.drop_last());
        assert(no_repeats(ps2)) by {
            assert forall|i: int, j: int| 0 <= i < j < ps2.len() implies #[trigger] ps2[i] != #[trigger] ps2[j] by {
                assert(ps2[i] == ps[i] && ps2[j] == ps[j]);
            }
        }
        lemma_enter_stay_count(active, o2, q, phase);
        let evs = enter_stay_events(active, overlaps);
        assert(evs.drop_last() =~= enter_stay_events(active, o2));
        assert(evs.last() == evs[n]);
        assert(ps[n] == ordered_pair(overlaps[n]));
        assert(ps.contains(q) <==> (ps2.contains(q) || ps[n] == q)) by {
            if ps.contains(q) {
                let i = choose|i: int| 0 <= i < ps.len() && #[trigger] ps[i] == q;
                if i < n {
                    assert(ps2[i] == q);
                }
            }
            if ps2.contains(q) {
                let i = choose|i: int| 0 <= i < ps2.len() && #[trigger] ps2[i] == q;
                assert(ps[i] == q);
            }
            if ps[n] == q {
                assert(ps[n] == q);
            }
        }
        if ps[n] == q {
            assert(!ps2.contains(q)) by {
                if ps2.contains(q) {
                    let i = choose|i: int| 0 <= i < ps2.len() && #[trigger] ps2[i] == q;
                    assert(ps[i] == ps2[i]);
                }
            }
        }
    }
}

proof fn lemma_exit_count(active: Seq<(BodyHandle, BodyHandle)>, current: Seq<(BodyHandle, BodyHandle)>, n: int, q: (BodyHandle, BodyHandle), phase: TriggerPhase)
    requires
        no_repeats(active),
        all_ordered(active),
        0 <= n <= active.len(),
    ensures
        count_events(exit_events(active, current, n), q, phase) == (if phase == TriggerPhase::Exit && !current.contains(q)
            && (exists|i: int| 0 <= i < n && #[trigger] active[i] == q) {
            1nat
        } else {
            0nat
        }),
    decreases n,
{
    if n > 0 {
        lemma_exit_count(active, current, n - 1, q, phase);
        let prev = exit_events(active, current, n - 1);
        let a = active[n - 1];
        assert(ordered_pair(a) == a);
        if !current.contains(a) {
            let ev = TriggerEvent { body_a: a.0, body_b: a.1, phase: TriggerPhase::Exit };
            assert(exit_events(active, current, n) == prev.push(ev));
            assert(prev.push(ev).drop_last() =~= prev);
            assert(prev.push(ev).last() == ev);
        }
        assert((exists|i: int| 0 <= i < n && #[trigger] active[i] == q) <==> ((exists|i: int| 0 <= i < n - 1 && #[trigger] active[i] == q) || a == q)) by {
            if exists|i: int| 0 <= i < n && #[trigger] active[i] == q {
                let i = choose|i: int| 0 <= i < n && #[trigger] active[i] == q;
                if i < n - 1 {
                    assert(active[i] == q);
                }
            }
        }
        if a == q {
            assert(!(exists|i: int| 0 <= i < n - 1 && #[trigger] active[i] == q)) by {
                if exists|i: int| 0 <= i < n - 1 && #[trigger] active[i] == q {
                    let i = choose|i: int| 0 <= i < n - 1 && #[trigger] active[i] == q;
                    assert(active[i] != active[n - 1]);
                }
            }
        }
    }
}

proof fn lemma_first_occurrences_distinct(ps: Seq<(BodyHandle, BodyHandle)>, n: int)
    requires
        all_ordered(ps),
        0 <= n <= ps.len(),
    ensures
        no_repeats(first_occurrences(ps, n)),
        all_ordered(first_occurrences(ps, n)),
    decreases n,
{
    if n > 0 {
        lemma_first_occurrences_distinct(ps, n - 1);
        let prev = first_occurrences(ps, n - 1);
        if !prev.contains(ps[n - 1]) {
            let next = prev.push(ps[n - 1]);
            assert(ordered_pair(ps[n - 1]) == ps[n - 1]);
            assert forall|i: int, j: int| 0 <= i < j < next.len() implies #[trigger] next[i] != #[trigger] next[j] by {
                if j == prev.len() {
                    assert(next[i] == prev[i]);
                    assert(prev.contains(prev[i]));
                } else {
                    assert(next[i] == prev[i] && next[j] == prev[j]);
                }
            }
            assert forall|i: int| 0 <= i < next.len() implies ordered_pair(#[trigger] next[i]) == next[i] by {
                if i < prev.len() {
                    assert(next[i] == prev[i]);
                }
            }
        }
    }
}

/// One event per pair and step: on a tracker whose remembered pairs are
/// distinct and ordered, and a step that reports each body pair once, every
/// pair gets exactly one enter event when it overlaps now and did not
/// before, one stay event when it overlapped both times, one exit event when
/// it overlapped before but not now, and no event otherwise.
pub proof fn law_one_event_per_pair(active: Seq<(BodyHandle, BodyHandle)>, overlaps: Seq<(BodyHandle, BodyHandle)>, q: (BodyHandle, BodyHandle))
    requires
        no_repeats(active),
        all_ordered(active),
        no_repeats(ordered_pairs(overlaps)),
    ensures
        ({
            let evs = enter_stay_events(active, overlaps) + exit_events(active, ordered_pairs(overlaps), active.len() as int);
            let now = ordered_pairs(overlaps).contains(q);
            let before = active.contains(q);
            &&& count_events(evs, q, TriggerPhase::Enter) == (if now && !before { 1nat } else { 0nat })
            &&& count_events(evs, q, TriggerPhase::Stay) == (if now && before { 1nat } else { 0nat })
            &&& count_events(evs, q, TriggerPhase::Exit) == (if before && !now { 1nat } else { 0nat })
        }),
{
    let es = enter_stay_events(active, overlaps);
    let xs = exit_events(active, ordered_pairs(overlaps), active.len() as int);
    let n = active.len() as int;
    assert((exists|i: int| 0 <= i < n && #[trigger] active[i] == q) <==> active.contains(q));
    lemma_count_concat(es, xs, q, TriggerPhase::Enter);
    lemma_count_concat(es, xs, q, TriggerPhase::Stay);
    lemma_count_concat(es, xs, q, TriggerPhase::Exit);
    lemma_enter_stay_count(active, overlaps, q, TriggerPhase::Enter);
    lemma_enter_stay_count(active, overlaps, q, TriggerPhase::Stay);
    lemma_enter_stay_count(active, overlaps, q, TriggerPhase::Exit);
    lemma_exit_count(active, ordered_pairs(overlaps), n, q, TriggerPhase::Enter);
    lemma_exit_count(active, ordered_pairs(overlaps), n, q, TriggerPhase::Stay);
    lemma_exit_count(active, ordered_pairs(overlaps), n, q, TriggerPhase::Exit);
}

/// Physics backend that simulates nothing (the default).
#[derive(Debug, Clone, Copy, PartialEq, Eq, Structural)]
pub struct NullPhysics;

impl NullPhysics {
    /// Adding a body hands out body handle 0.
    pub fn add_body(&mut self) -> (h: BodyHandle)
        ensures
            h == BodyHandle(0),
    {
        BodyHandle(0)
    }
}

/// The two directions agree: a handle maps to an entity exactly when that
/// entity maps back to the handle.
pub open spec fn two_way(by_handle: Map<u32, u64>, by_entity: Map<u64, u32>) -> bool {
    &&& forall|h: u32| #[trigger] by_handle.contains_key(h)
        ==> by_entity.contains_key(by_handle[h]) && by_entity[by_handle[h]] == h
    &&& forall|e: u64| #[trigger] by_entity.contains_key(e)
        ==> by_handle.contains_key(by_entity[e]) && by_handle[by_entity[e]] == e
}

/// Handle-to-entity direction after pairing `h` with `e`: the old pair of
/// `h` and the old pair of `e` are dropped first.
pub open spec fn paired_by_handle(by_handle: Map<u32, u64>, by_entity: Map<u64, u32>, h: u32, e: u64) -> Map<u32, u64> {
    let dropped = if by_entity.contains_key(e) {
        by_handle.remove(h).remove(by_entity[e])
    } else {
        by_handle.remove(h)
    };
    dropped.insert(h, e)
}

/// Entity-to-handle direction after pairing `h` with `e`.
pub open spec fn paired_by_entity(by_handle: Map<u32, u64>, by_entity: Map<u64, u32>, h: u32, e: u64) -> Map<u64, u32> {
    let dropped = if by_handle.contains_key(h) {
        by_entity.remove(e).remove(by_handle[h])
    } else {
        by_entity.remove(e)
    };
    dropped.insert(e, h)
}

/// Two-way map between physics body handles and ECS entities (by their
/// entity ids).
pub struct PhysicsEntityMap {
    handle_to_entity: HashMap<u32, u64>,
    entity_to_handle: HashMap<u64, u32>,
}

impl PhysicsEntityMap {
    /// Entity of each body handle.
    pub closed spec fn by_handle(&self) -> Map<u32, u64> {
        self.handle_to_entity@
    }

    /// Body handle of each entity.
    pub closed spec fn by_entity(&self) -> Map<u64, u32> {
        self.entity_to_handle@
    }

    /// The map is two-way.
    pub open spec fn wf(&self) -> bool {
        two_way(self.by_handle(), self.by_entity())
    }

    /// An empty map.
    pub fn new() -> (m: Self)
        ensures
            m.wf(),
            m.by_handle() == Map::<u32, u64>::empty(),
            m.by_entity() == Map::<u64, u32>::empty(),
    {
        PhysicsEntityMap { handle_to_entity: HashMap::new(), entity_to_handle: HashMap::new() }
    }

    /// Record that `handle` belongs to `entity` (both directions). A pair
    /// that either of them was part of before is dropped, so the map stays
    /// two-way.
    pub fn insert(&mut self, handle: BodyHandle, entity: u64)
        requires
            old(self).wf(),
        ensures
            final(self).wf(),
            final(self).by_handle() == paired_by_handle(old(self).by_handle(), old(self).by_entity(), handle.0, entity),
            final(self).by_entity() == paired_by_entity(old(self).by_handle(), old(self).by_entity(), handle.0, entity),
    {
        let ghost bh0 = self.handle_to_entity@;
        let ghost be0 = self.entity_to_handle@;
        match self.handle_to_entity.remove(&handle.0) {
            Some(old_entity) => {
                self.entity_to_handle.remove(&old_entity);
            },
            None => {},
        }
        match self.entity_to_handle.remove(&entity) {
            Some(old_handle) => {
                self.handle_to_entity.remove(&old_handle);
            },
            None => {},
        }
        self.handle_to_entity.insert(handle.0, entity);
        self.entity_to_handle.insert(entity, handle.0);
        proof {
            let h = handle.0;
            let bh1 = paired_by_handle(bh0, be0, h, entity);
            let be1 = paired_by_entity(bh0, be0, h, entity);
            if be0.contains_key(entity) && bh0.contains_key(h) && bh0[h] == entity {
                assert(be0[entity] == h);
            }
            assert(self.handle_to_entity@ =~= bh1);
            assert(self.entity_to_handle@ =~= be1);
            assert(two_way(bh1, be1));
        }
    }

    /// Forget `handle` and the entity it maps to; returns that entity.
    pub fn remove_by_handle(&mut self, handle: BodyHandle) -> (r: Option<u64>)
        requires
            old(self).wf(),
        ensures
            final(self).wf(),
            r == (if old(self).by_handle().contains_key(handle.0) {
                Some(old(self).by_handle()[handle.0])
            } else {
                None::<u64>
            }),
            final(self).by_handle() == old(self).by_handle().remove(handle.0),
            match r {
                Some(e) => final(self).by_entity() == old(self).by_entity().remove(e),
                None => final(self).by_entity() == old(self).by_entity(),
            },
    {
        let ghost bh0 = self.handle_to_entity@;
        let ghost be0 = self.entity_to_handle@;
        let r = match self.handle_to_entity.remove(&handle.0) {
            Some(entity) => {
                self.entity_to_handle.remove(&entity);
                Some(entity)
            },
            None => None,
        };
        proof {
            let bh1 = self.handle_to_entity@;
            let be1 = self.entity_to_handle@;
            assert(two_way(bh1, be1));
        }
        r
    }

    /// Forget `entity` and the handle it maps to; returns that handle.
    pub fn remove_by_entity(&mut self, entity: u64) -> (r: Option<BodyHandle>)
        requires
            old(self).wf(),
        ensures
            final(self).wf(),
            r == (if old(self).by_entity().contains_key(entity) {
                Some(BodyHandle(old(self).by_entity()[entity]))
            } else {
                None::<BodyHandle>
            }),
            final(self).by_entity() == old(self).by_entity().remove(entity),
            match r {
                Some(h) => final(self).by_handle() == old(self).by_handle().remove(h.0),
                None => final(self).by_handle() == old(self).by_handle(),
            },
    {
        let ghost bh0 = self.handle_to_entity@;
        let ghost be0 = self.entity_to_handle@;
        let r = match self.entity_to_handle.remove(&entity) {
            Some(h) => {
                self.handle_to_entity.remove(&h);
                Some(BodyHandle(h))
            },
            None => None,
        };
        proof {
            let bh1 = self.handle_to_entity@;
            let be1 = self.entity_to_handle@;
            assert(two_way(bh1, be1));
        }
        r
    }

    /// The entity of a body handle.
    pub fn get_entity(&self, handle: BodyHandle) -> (r: Option<u64>)
        ensures
            r == (if self.by_handle().contains_key(handle.0) {
                Some(self.by_handle()[handle.0])
            } else {
                None::<u64>
            }),
    {
        match self.handle_to_entity.get(&handle.0) {
            Some(e) => Some(*e),
            None => None,
        }
    }

    /// The body handle of an entity.
    pub fn get_handle(&self, entity: u64) -> (r: Option<BodyHandle>)
        ensures
            r == (if self.by_entity().contains_key(entity) {
                Some(BodyHandle(self.by_entity()[entity]))
            } else {
                None::<BodyHandle>
            }),
    {
        match self.entity_to_handle.get(&entity) {
            Some(h) => Some(BodyHandle(*h)),
            None => None,
        }
    }

    /// Resolve the two bodies of a contact to the pair of ECS entities
    /// involved; `None` unless both are mapped.
    pub fn resolve_contact(&self, body_a: BodyHandle, body_b: BodyHandle) -> (r: Option<(u64, u64)>)
        ensures
            r == (if self.by_handle().contains_key(body_a.0) && self.by_handle().contains_key(body_b.0) {
                Some((self.by_handle()[body_a.0], self.by_handle()[body_b.0]))
            } else {
                None::<(u64, u64)>
            }),
    {
        let a = match self.get_entity(body_a) {
            Some(a) => a,
            None => return None,
        };
        let b = match self.get_entity(body_b) {
            Some(b) => b,
            None => return None,
        };
        Some((a, b))
    }

    /// Resolve a trigger event to the pair of ECS entities involved; `None`
    /// unless both bodies are mapped.
    pub fn resolve_trigger(&self, event: &TriggerEvent) -> (r: Option<(u64, u64)>)
        ensures
            r == (if self.by_handle().contains_key(event.body_a.0) && self.by_handle().contains_key(event.body_b.0) {
                Some((self.by_handle()[event.body_a.0], self.by_handle()[event.body_b.0]))
            } else {
                None::<(u64, u64)>
            }),
    {
        self.resolve_contact(event.body_a, event.body_b)
    }
}

/// Read after write, both ways: pairing a handle with an entity on a two-way
/// map makes the handle resolve to the entity and the entity to the handle,
/// and the map stays two-way (the stale pairs of either are gone).
pub proof fn law_insert_then_lookup(by_handle: Map<u32, u64>, by_entity: Map<u64, u32>, h: u32, e: u64)
    requires
        two_way(by_handle, by_entity),
    ensures
        paired_by_handle(by_handle, by_entity, h, e).contains_key(h),
        paired_by_handle(by_handle, by_entity, h, e)[h] == e,
        paired_by_entity(by_handle, by_entity, h, e).contains_key(e),
        paired_by_entity(by_handle, by_entity, h, e)[e] == h,
        two_way(paired_by_handle(by_handle, by_entity, h, e), paired_by_entity(by_handle, by_entity, h, e)),
{
    let bh1 = paired_by_handle(by_handle, by_entity, h, e);
    let be1 = paired_by_entity(by_handle, by_entity, h, e);
    if by_entity.contains_key(e) && by_handle.contains_key(h) && by_handle[h] == e {
        assert(by_entity[e] == h);
    }
    assert(two_way(bh1, be1));
}

} // verus!
