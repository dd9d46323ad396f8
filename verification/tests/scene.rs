use esox::asset_manager::AssetManager;
use esox::handles::{MaterialHandle, MeshHandle};
use esox::scene::{plan_scene_load, plan_scene_save, prefab_roots, select_chunk_entities, SavedEntity, SceneEntityRef};
use esox::chunk::ChunkCoord;

fn entity(id: u32, mesh_ref: Option<(&str, &str)>, parent: Option<u32>) -> SceneEntityRef {
    SceneEntityRef {
        id,
        mesh_ref: mesh_ref.map(|(m, mat)| (m.to_string(), mat.to_string())),
        parent,
    }
}

#[test]
fn scene_plan_resolves_renderers_by_name() {
    let mut assets = AssetManager::new();
    assets.register_mesh_named("@cube", MeshHandle(5));
    assets.register_material_named("stone", MaterialHandle(6));
    let entities = vec![
        entity(0, Some(("@cube", "stone")), None),
        entity(1, Some(("@cube", "missing")), None),
        entity(2, Some(("stone", "stone")), None),
        entity(3, None, None),
    ];
    let plan = plan_scene_load(&entities, &assets);
    assert_eq!(plan.renderers, vec![Some((MeshHandle(5), MaterialHandle(6))), None, None, None]);
}

#[test]
fn scene_plan_links_parents_and_children() {
    let assets = AssetManager::new();
    let entities = vec![
        entity(10, None, None),
        entity(11, None, Some(10)),
        entity(12, None, Some(10)),
        entity(13, None, Some(99)),
    ];
    let plan = plan_scene_load(&entities, &assets);
    assert_eq!(plan.parents, vec![None, Some(0), Some(0), None]);
    assert_eq!(plan.children, vec![vec![1, 2], vec![], vec![], vec![]]);
}

#[test]
fn scene_plan_later_id_wins() {
    let assets = AssetManager::new();
    let entities = vec![
        entity(1, None, None),
        entity(1, None, None),
        entity(2, None, Some(1)),
    ];
    let plan = plan_scene_load(&entities, &assets);
    assert_eq!(plan.parents, vec![None, None, Some(1)]);
    assert_eq!(plan.children, vec![vec![], vec![2], vec![]]);
}

#[test]
fn scene_plan_save_names_and_parents() {
    let mut assets = AssetManager::new();
    assets.register_mesh_named("@cube", MeshHandle(5));
    assets.register_material_named("stone", MaterialHandle(6));
    assets.register_mesh(MeshHandle(7));
    let saved = vec![
        SavedEntity { entity: 100, renderer: Some((MeshHandle(5), MaterialHandle(6))), parent: None },
        SavedEntity { entity: 200, renderer: Some((MeshHandle(7), MaterialHandle(6))), parent: Some(100) },
        SavedEntity { entity: 300, renderer: None, parent: Some(999) },
    ];
    let scene = plan_scene_save(&saved, &assets);
    assert_eq!(scene.len(), 3);
    assert_eq!(scene[0].id, 0);
    assert_eq!(scene[0].mesh_ref, Some(("@cube".to_string(), "stone".to_string())));
    assert_eq!(scene[1].mesh_ref, None);
    assert_eq!(scene[1].parent, Some(0));
    assert_eq!(scene[2].parent, None);
    assert_eq!(scene[2].id, 2);

    // Loading what was saved restores the hierarchy and the renderer.
    let plan = plan_scene_load(&scene, &assets);
    assert_eq!(plan.parents, vec![None, Some(0), None]);
    assert_eq!(plan.children[0], vec![1]);
    assert_eq!(plan.renderers[0], Some((MeshHandle(5), MaterialHandle(6))));
}

#[test]
fn prefab_roots_by_parentless_ids() {
    let es = vec![entity(0, None, None), entity(1, None, Some(0)), entity(2, None, Some(1)), entity(0, None, Some(2))];
    assert_eq!(prefab_roots(&es), vec![true, false, false, true]);
}

#[test]
fn chunk_selection_keeps_members_by_position() {
    let scene = vec![entity(0, None, None), entity(1, None, None), entity(2, None, None)];
    let here = ChunkCoord { x: 1, y: -1 };
    let there = ChunkCoord { x: 0, y: 0 };
    let members = vec![(10u64, here), (11u64, there), (12u64, here)];
    let kept = select_chunk_entities(scene, &members, &vec![12, 11], here).unwrap();
    let ids: Vec<u32> = kept.iter().map(|e| e.id).collect();
    assert_eq!(ids, vec![2]);
    let none = select_chunk_entities(vec![entity(0, None, None)], &members, &vec![], here);
    assert!(none.is_none());
}
