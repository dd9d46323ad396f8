use esox::asset_id::AssetId;
use esox::asset_manager::AssetManager;
use esox::handles::{MaterialHandle, MeshHandle, TextureHandle};
use esox::registry::AssetRegistry;

#[test]
fn asset_id_roundtrip() {
    let id = AssetId::new(12345, 7);
    assert_eq!(id.index(), 12345);
    assert_eq!(id.generation(), 7);
}

#[test]
fn asset_id_max_index() {
    let id = AssetId::new(0x00FF_FFFF, 255);
    assert_eq!(id.index(), 0x00FF_FFFF);
    assert_eq!(id.generation(), 255);
}

#[test]
fn asset_id_zero_and_distinct_generations() {
    let a = AssetId::new(0, 0);
    let b = AssetId::new(0, 1);
    assert_eq!(a.index(), 0);
    assert_eq!(a.generation(), 0);
    assert_ne!(a, b);
    assert_eq!(AssetId::new(5, 3), AssetId::new(5, 3));
}

#[test]
fn allocate_and_set() {
    let mut reg = AssetRegistry::<u32>::new();
    let id = reg.allocate();
    assert!(reg.get(id).is_none());
    reg.set(id, 42);
    assert_eq!(reg.get(id), Some(42));
}

#[test]
fn insert_preloaded() {
    let mut reg = AssetRegistry::<u32>::new();
    let id = reg.insert(99);
    assert_eq!(reg.get(id), Some(99));
}

#[test]
fn generation_invalidates_old_handle() {
    let mut reg = AssetRegistry::<u32>::new();
    let id1 = reg.insert(1);
    reg.remove(id1);
    let id2 = reg.allocate();
    // Old handle should not resolve.
    assert!(reg.get(id1).is_none());
    // New handle should work.
    reg.set(id2, 2);
    assert_eq!(reg.get(id2), Some(2));
}

#[test]
fn removed_slot_is_reused_with_next_generation() {
    let mut reg = AssetRegistry::<u32>::new();
    let id1 = reg.insert(1);
    assert_eq!(id1.index(), 0);
    assert_eq!(id1.generation(), 0);
    assert!(reg.remove(id1));
    let id2 = reg.allocate();
    assert_eq!(id2.index(), 0);
    assert_eq!(id2.generation(), 1);
    // A stale id can neither be set nor removed.
    assert!(!reg.set(id1, 7));
    assert!(!reg.remove(id1));
    assert!(reg.get(id2).is_none());
}

#[test]
fn get_after_set_leaves_others() {
    let mut reg = AssetRegistry::<u32>::new();
    let a = reg.insert(10);
    let b = reg.insert(20);
    assert!(reg.set(a, 11));
    assert_eq!(reg.get(a), Some(11));
    assert_eq!(reg.get(b), Some(20));
    assert_eq!(b.index(), 1);
}

#[test]
fn find_id_by_value_first_match() {
    let mut reg = AssetRegistry::<MeshHandle>::new();
    let a = reg.insert(MeshHandle(3));
    let _b = reg.insert(MeshHandle(4));
    assert_eq!(reg.find_id_by_value(MeshHandle(3)), Some(a));
    assert_eq!(reg.find_id_by_value(MeshHandle(9)), None);
}

#[test]
fn manager_names_round_trip() {
    let mut m = AssetManager::new();
    let h = m.register_mesh_named("cube", MeshHandle(7));
    assert_eq!(m.mesh_name(h), Some("cube"));
    assert_eq!(m.find_mesh_by_name("cube"), Some(MeshHandle(7)));
    assert_eq!(m.name_for_gpu_mesh(MeshHandle(7)), Some("cube"));
    assert_eq!(m.find_mesh_by_name("sphere"), None);
    let h2 = m.register_mesh(MeshHandle(9));
    assert_eq!(m.get_mesh(h2), Some(MeshHandle(9)));

    let mat = m.register_material_named("steel", MaterialHandle(2));
    assert_eq!(m.material_name(mat), Some("steel"));
    assert_eq!(m.find_material_by_name("steel"), Some(MaterialHandle(2)));
    assert_eq!(m.name_for_gpu_material(MaterialHandle(2)), Some("steel"));
    let mat2 = m.register_material(MaterialHandle(6));
    assert_eq!(m.get_material(mat2), Some(MaterialHandle(6)));

    let unnamed = m.register_mesh(MeshHandle(8));
    assert_eq!(m.mesh_name(unnamed), None);
    assert_eq!(m.name_for_gpu_mesh(MeshHandle(8)), None);

    let tex = m.register_texture(TextureHandle(5));
    assert_eq!(m.get_texture(tex), Some(TextureHandle(5)));
}

#[test]
fn gltf_path_loads_once() {
    let mut m = AssetManager::new();
    let (id, parse) = m.load_gltf_async("models/tree.glb");
    assert!(parse);
    let (again, parse_again) = m.load_gltf_async("models/tree.glb");
    assert_eq!(again, id);
    assert!(!parse_again);
    // The same path written differently is the same path.
    let (same, parse_same) = m.load_gltf_async("models//tree.glb");
    assert_eq!(same, id);
    assert!(!parse_same);
    let (other, parse_other) = m.load_gltf_async("models/rock.glb");
    assert!(parse_other);
    assert_ne!(other, id);
}

#[test]
fn gltf_upload_fills_placeholder() {
    let mut m = AssetManager::new();
    let (id, _) = m.load_gltf_async("models/tree.glb");
    m.process_gltf_upload(id, &[MeshHandle(40), MeshHandle(41)]);
    assert_eq!(m.find_mesh_by_name("models/tree.glb"), Some(MeshHandle(40)));
    assert_eq!(m.name_for_gpu_mesh(MeshHandle(40)), Some("models/tree.glb"));
}

#[test]
fn gltf_lookup_and_checked_load() {
    let mut m = AssetManager::new();
    assert_eq!(m.find_gltf("a/b.glb"), None);
    let (id, parse) = m.try_load_gltf("a/b.glb").unwrap();
    assert!(parse);
    assert_eq!(m.find_gltf("a/b.glb"), Some(id));
    assert_eq!(m.find_gltf("a/./b.glb"), Some(id));
    assert_eq!(m.try_load_gltf("a/b.glb"), Some((id, false)));
}

#[test]
fn removed_id_is_retired() {
    let mut reg = AssetRegistry::<u32>::new();
    let id = reg.insert(1);
    assert!(reg.remove(id));
    assert!(!reg.set(id, 5));
    assert_eq!(reg.get(id), None);
    assert!(!reg.remove(id));
    let a = reg.insert(10);
    let b = reg.insert(20);
    assert_ne!(a, b);
    assert_eq!(reg.get(a), Some(10));
    assert_eq!(reg.get(b), Some(20));
}

#[test]
fn names_are_kept_per_kind() {
    let mut m = AssetManager::new();
    let hm = m.register_mesh_named("cube", MeshHandle(3));
    let hmat = m.register_material_named("red", MaterialHandle(4));
    assert_eq!(m.mesh_name(hm), Some("cube"));
    assert_eq!(m.find_mesh_by_name("cube"), Some(MeshHandle(3)));
    assert_eq!(m.material_name(hmat), Some("red"));
    assert_eq!(m.find_mesh_by_name("red"), None);
    assert_eq!(m.find_material_by_name("cube"), None);
}

#[test]
fn registering_keeps_earlier_handles() {
    let mut m = AssetManager::new();
    let a = m.register_mesh(MeshHandle(1));
    let b = m.register_mesh(MeshHandle(2));
    let t = m.register_texture(TextureHandle(9));
    assert_ne!(a.id(), b.id());
    assert_eq!(m.get_mesh(a), Some(MeshHandle(1)));
    assert_eq!(m.get_mesh(b), Some(MeshHandle(2)));
    assert_eq!(m.get_texture(t), Some(TextureHandle(9)));
}

#[test]
fn asset_handles_copy_and_compare() {
    let mut m = AssetManager::new();
    let h = m.register_mesh(MeshHandle(1));
    let copy = h;
    let other = m.register_mesh(MeshHandle(2));
    assert_eq!(h, copy);
    assert_ne!(h, other);
    assert_eq!(m.get_mesh(copy), Some(MeshHandle(1)));
}

#[test]
fn gltf_by_components_dedups_on_components() {
    let mut m = AssetManager::new();
    let key = vec!["models".to_string(), "tree.glb".to_string()];
    let (id1, parse1) = m.load_gltf_by_components(key.clone(), "models/tree.glb");
    let (id2, parse2) = m.load_gltf_by_components(key, "models//tree.glb");
    assert!(parse1);
    assert!(!parse2);
    assert_eq!(id1, id2);
    assert_eq!(m.find_gltf("models/tree.glb"), Some(id1));
    let mat = m.register_material_named("models/tree.glb", MaterialHandle(3));
    assert_eq!(m.material_name(mat), Some("models/tree.glb"));
    assert_eq!(m.find_mesh_by_name("models/tree.glb"), None);
}
