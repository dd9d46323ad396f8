use esox::physics::{BodyHandle, NullPhysics, PhysicsEntityMap, TriggerEvent, TriggerPhase, TriggerTracker};

#[test]
fn entity_map_round_trip() {
    let mut m = PhysicsEntityMap::new();
    m.insert(BodyHandle(3), 100);
    assert_eq!(m.get_entity(BodyHandle(3)), Some(100));
    assert_eq!(m.get_handle(100), Some(BodyHandle(3)));
    assert_eq!(m.get_entity(BodyHandle(4)), None);
    assert_eq!(m.remove_by_handle(BodyHandle(3)), Some(100));
    assert_eq!(m.get_handle(100), None);
    assert_eq!(m.remove_by_handle(BodyHandle(3)), None);
}

#[test]
fn entity_map_remove_by_entity() {
    let mut m = PhysicsEntityMap::new();
    m.insert(BodyHandle(1), 10);
    m.insert(BodyHandle(2), 20);
    assert_eq!(m.remove_by_entity(10), Some(BodyHandle(1)));
    assert_eq!(m.get_entity(BodyHandle(1)), None);
    assert_eq!(m.get_entity(BodyHandle(2)), Some(20));
    assert_eq!(m.remove_by_entity(10), None);
}

#[test]
fn contacts_and_triggers_resolve_to_entities() {
    let mut m = PhysicsEntityMap::new();
    m.insert(BodyHandle(1), 10);
    m.insert(BodyHandle(2), 20);
    assert_eq!(m.resolve_contact(BodyHandle(1), BodyHandle(2)), Some((10, 20)));
    assert_eq!(m.resolve_contact(BodyHandle(1), BodyHandle(9)), None);
    let ev = TriggerEvent { body_a: BodyHandle(2), body_b: BodyHandle(1), phase: TriggerPhase::Enter };
    assert_eq!(m.resolve_trigger(&ev), Some((20, 10)));
}

#[test]
fn null_physics_hands_out_handle_zero() {
    let mut p = NullPhysics;
    assert_eq!(p.add_body(), BodyHandle(0));
}

#[test]
fn trigger_phases_enter_stay_exit() {

    let mut t = TriggerTracker::new();
    let sensor = BodyHandle(5);
    let ball = BodyHandle(2);
    let ev = t.update(&vec![(sensor, ball)]);
    assert_eq!(ev, vec![TriggerEvent { body_a: sensor, body_b: ball, phase: TriggerPhase::Enter }]);
    // Reported the other way round, the pair is the same pair.
    let ev = t.update(&vec![(ball, sensor)]);
    assert_eq!(ev, vec![TriggerEvent { body_a: ball, body_b: sensor, phase: TriggerPhase::Stay }]);
    let ev = t.update(&vec![]);
    assert_eq!(ev, vec![TriggerEvent { body_a: ball, body_b: sensor, phase: TriggerPhase::Exit }]);
    assert!(t.update(&vec![]).is_empty());
}

#[test]
fn trigger_enter_and_exit_in_one_step() {

    let mut t = TriggerTracker::new();
    let (a, b, c) = (BodyHandle(1), BodyHandle(2), BodyHandle(3));
    t.update(&vec![(a, b)]);
    let ev = t.update(&vec![(a, c), (a, c)]);
    assert_eq!(
        ev,
        vec![
            TriggerEvent { body_a: a, body_b: c, phase: TriggerPhase::Enter },
            TriggerEvent { body_a: a, body_b: c, phase: TriggerPhase::Enter },
            TriggerEvent { body_a: a, body_b: b, phase: TriggerPhase::Exit },
        ]
    );
}

#[test]
fn entity_map_reinsert_drops_stale_pairs() {
    let mut m = PhysicsEntityMap::new();
    m.insert(BodyHandle(1), 10);
    m.insert(BodyHandle(1), 20);
    assert_eq!(m.get_entity(BodyHandle(1)), Some(20));
    assert_eq!(m.get_handle(20), Some(BodyHandle(1)));
    assert_eq!(m.get_handle(10), None);

    m.insert(BodyHandle(2), 20);
    assert_eq!(m.get_handle(20), Some(BodyHandle(2)));
    assert_eq!(m.get_entity(BodyHandle(1)), None);
}

#[test]
fn one_event_per_pair_each_step() {
    let mut t = TriggerTracker::new();
    let a = BodyHandle(1);
    let b = BodyHandle(2);
    let c = BodyHandle(3);
    let d = BodyHandle(4);
    let first = t.update(&vec![(a, b), (d, c)]);
    assert_eq!(first.len(), 2);
    assert!(first.iter().all(|e| e.phase == TriggerPhase::Enter));
    let second = t.update(&vec![(b, a), (a, c)]);
    let stays: Vec<_> = second.iter().filter(|e| e.phase == TriggerPhase::Stay).collect();
    let enters: Vec<_> = second.iter().filter(|e| e.phase == TriggerPhase::Enter).collect();
    let exits: Vec<_> = second.iter().filter(|e| e.phase == TriggerPhase::Exit).collect();
    assert_eq!(stays.len(), 1);
    assert_eq!(enters.len(), 1);
    assert_eq!(exits.len(), 1);
    assert_eq!((exits[0].body_a, exits[0].body_b), (c, d));
}
