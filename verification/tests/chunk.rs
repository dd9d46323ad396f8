use esox::chunk::{ChunkConfig, ChunkCoord, ChunkManager};

const ORIGIN: ChunkCoord = ChunkCoord { x: 0, y: 0 };

#[test]
fn initial_update_activates_chunks() {
    let mut mgr = ChunkManager::new(ChunkConfig { load_radius: 1, unload_radius: 2 });
    // The camera at the world origin stands in chunk (0, 0).
    let transitions = mgr.update(ORIGIN);
    // 3x3 = 9 chunks should activate
    assert_eq!(transitions.activated.len(), 9);
    assert!(transitions.deactivated.is_empty());
    assert_eq!(mgr.active_chunks().len(), 9);
}

#[test]
fn moving_activates_and_deactivates() {
    let mut mgr = ChunkManager::new(ChunkConfig { load_radius: 1, unload_radius: 2 });
    mgr.update(ORIGIN);

    // Move far enough to trigger deactivation: world x = 32 * 4 with 32-unit
    // chunks is chunk (4, 0).
    let transitions = mgr.update(ChunkCoord { x: 4, y: 0 });
    assert!(!transitions.activated.is_empty());
    assert!(!transitions.deactivated.is_empty());
}

#[test]
fn no_transition_when_stationary() {
    let mut mgr = ChunkManager::new(ChunkConfig::default());
    mgr.update(ORIGIN);
    // World (1, 0, 1) lies in the same chunk.
    let transitions = mgr.update(ORIGIN);
    assert!(transitions.activated.is_empty());
    assert!(transitions.deactivated.is_empty());
}

#[test]
fn register_and_unregister_entity() {
    let mut mgr = ChunkManager::new(ChunkConfig::default());
    let entity: u64 = 1;
    let coord = ORIGIN;

    mgr.register_entity(entity, coord);
    assert_eq!(mgr.chunk(coord).unwrap().entities.len(), 1);

    mgr.unregister_entity(entity, coord);
    assert!(mgr.chunk(coord).unwrap().entities.is_empty());
}

#[test]
fn default_config_radii() {
    let c = ChunkConfig::default();
    assert_eq!(c.load_radius, 4);
    assert_eq!(c.unload_radius, 6);
}

#[test]
fn active_window_after_move() {
    let mut mgr = ChunkManager::new(ChunkConfig { load_radius: 1, unload_radius: 2 });
    mgr.update(ORIGIN);
    let t = mgr.update(ChunkCoord { x: 4, y: 0 });
    // The 3x3 square around (4, 0) is new; the whole old square is beyond
    // the unload radius.
    assert_eq!(t.activated.len(), 9);
    assert_eq!(t.deactivated.len(), 9);
    assert_eq!(mgr.active_chunks().len(), 9);
    assert!(mgr.is_active(ChunkCoord { x: 5, y: 1 }));
    assert!(!mgr.is_active(ORIGIN));
    assert_eq!(mgr.camera_chunk(), ChunkCoord { x: 4, y: 0 });

    // A small step keeps chunks within the unload radius.
    let t = mgr.update(ChunkCoord { x: 5, y: 0 });
    assert_eq!(t.activated.len(), 3);
    assert!(t.deactivated.is_empty());
    assert_eq!(mgr.active_chunks().len(), 12);
}

#[test]
fn entities_of_active_chunks() {
    let mut mgr = ChunkManager::new(ChunkConfig { load_radius: 0, unload_radius: 1 });
    mgr.update(ORIGIN);
    mgr.register_entity(7, ORIGIN);
    mgr.register_entity(8, ChunkCoord { x: 3, y: 3 });
    mgr.register_entity(7, ORIGIN);
    assert_eq!(mgr.active_entities(), vec![7, 7]);
    mgr.remove_chunk(ORIGIN);
    assert!(mgr.chunk(ORIGIN).is_none());
    assert!(mgr.active_entities().is_empty());
}
