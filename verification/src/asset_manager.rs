//! Asset management — handles, names and path deduplication over the per-kind
//! registries.
//!
//! Names and requested paths are kept in `Vec`s: each id is named at most
//! once (`distinct_ids`) and each path recorded once (`distinct_paths`), in
//! the order they were first recorded. A lookup by name goes by that order,
//! so which id answers a name shared by two ids is fixed rather than left
//! to a hash order; paths are keyed by their string components, for which a
//! hash map's contents can not be followed here.

use vstd::prelude::*;
use std::marker::PhantomData;
use crate::asset_id::{AssetId, lemma_asset_id_eq, lemma_from_parts};
use crate::handles::{MaterialHandle, MeshHandle, TextureHandle};
use crate::registry::{AssetRegistry, capacity_of, insert_all, MAX_SLOTS};
use crate::form::string_views;
use crate::dispatch::str_eq;
use crate::jobs::file_name_of;
use vstd::std_specs::cmp::PartialEqSpecImpl;

verus! {

/// Lightweight handle to an asset of kind `T`: 4 bytes, `Copy`.
#[derive(Debug, Hash)]
pub struct AssetHandle<T> {
    id: AssetId,
    _marker: PhantomData<T>,
}

impl<T> Clone for AssetHandle<T> {
    fn clone(&self) -> (r: Self)
        ensures
            r == *self,
    {
        AssetHandle { id: self.id, _marker: PhantomData }
    }
}

impl<T> Copy for AssetHandle<T> {
}

impl<T> PartialEq for AssetHandle<T> {
    fn eq(&self, other: &Self) -> (r: bool) {
        self.id == other.id
    }
}

impl<T> PartialEqSpecImpl for AssetHandle<T> {
    open spec fn obeys_eq_spec() -> bool {
        true
    }

    open spec fn eq_spec(&self, other: &Self) -> bool {
        self.asset_id() == other.asset_id()
    }
}

impl<T> Eq for AssetHandle<T> {
}

impl<T> AssetHandle<T> {
    /// The id the handle carries.
    pub closed spec fn asset_id(self) -> AssetId {
        self.id
    }

    /// The id the handle carries.
    pub fn id(&self) -> (r: AssetId)
        ensures
            r == self.asset_id(),
    {
        self.id
    }
}

/// Marker for mesh assets.
#[derive(Debug, Clone, Copy, PartialEq, Eq, Hash)]
pub struct MeshAsset;

/// Marker for texture assets.
#[derive(Debug, Clone, Copy, PartialEq, Eq, Hash)]
pub struct TextureAsset;

/// Marker for material assets.
#[derive(Debug, Clone, Copy, PartialEq, Eq, Hash)]
pub struct MaterialAsset;

/// The name recorded for `id` in `names`, if any (ids in `names` are distinct).
pub open spec fn name_entry(names: Seq<(AssetId, Seq<char>)>, id: AssetId) -> Option<Seq<char>> {
    if exists|k: int| 0 <= k < names.len() && (#[trigger] names[k]).0 == id {
        let k = choose|k: int| 0 <= k < names.len() && (#[trigger] names[k]).0 == id;
        Some(names[k].1)
    } else {
        None
    }
}

/// `names` after recording `name` for `id`: an existing entry for `id` is
/// renamed in place, otherwise the entry is appended.
pub open spec fn names_with(names: Seq<(AssetId, Seq<char>)>, id: AssetId, name: Seq<char>) -> Seq<(AssetId, Seq<char>)> {
    if exists|k: int| 0 <= k < names.len() && (#[trigger] names[k]).0 == id {
        let k = choose|k: int| 0 <= k < names.len() && (#[trigger] names[k]).0 == id;
        names.update(k, (id, name))
    } else {
        names.push((id, name))
    }
}

/// No id occurs twice in `names`.
pub open spec fn distinct_ids(names: Seq<(AssetId, Seq<char>)>) -> bool {
    forall|i: int, j: int| 0 <= i < j < names.len() ==> (#[trigger] names[i]).0 != (#[trigger] names[j]).0
}

/// No path occurs twice in `paths` (paths are kept as their components).
pub open spec fn distinct_paths(paths: Seq<(Seq<Seq<char>>, AssetId)>) -> bool {
    forall|i: int, j: int| 0 <= i < j < paths.len() ==> (#[trigger] paths[i]).0 != (#[trigger] paths[j]).0
}

/// `k` is the first position of `names` whose name is `name`.
pub open spec fn first_named(names: Seq<(AssetId, Seq<char>)>, name: Seq<char>, k: int) -> bool {
    &&& 0 <= k < names.len()
    &&& names[k].1 == name
    &&& forall|j: int| 0 <= j < k ==> (#[trigger] names[j]).1 != name
}

/// The id recorded for the path with components `path` in `paths`, if any
/// (paths in `paths` are distinct).
pub open spec fn path_entry(paths: Seq<(Seq<Seq<char>>, AssetId)>, path: Seq<Seq<char>>) -> Option<AssetId> {
    if exists|k: int| 0 <= k < paths.len() && (#[trigger] paths[k]).0 == path {
        let k = choose|k: int| 0 <= k < paths.len() && (#[trigger] paths[k]).0 == path;
        Some(paths[k].1)
    } else {
        None
    }
}

/// `k` is the lowest slot of `slots` that holds `value`.
pub open spec fn first_holding<T>(slots: Seq<(u8, Option<T>)>, value: T, k: int) -> bool {
    &&& 0 <= k < slots.len()
    &&& slots[k].1 == Some(value)
    &&& forall|j: int| 0 <= j < k ==> (#[trigger] slots[j]).1 != Some(value)
}

/// The name found for the lowest slot holding `value`: `None` when no slot
/// holds it or that slot's current id has no name.
pub open spec fn name_of_value<T>(slots: Seq<(u8, Option<T>)>, names: Seq<(AssetId, Seq<char>)>, value: T) -> Option<Seq<char>> {
    if exists|k: int| first_holding(slots, value, k) {
        let k = choose|k: int| first_holding(slots, value, k);
        name_entry(names, AssetId::from_parts(k as nat, slots[k].0 as nat))
    } else {
        None
    }
}

/// An optional borrowed string, by its characters.
pub open spec fn opt_str_view(r: Option<&str>) -> Option<Seq<char>> {
    match r {
        Some(s) => Some(s@),
        None => None,
    }
}

/// Names held in plain values.
pub open spec fn names_view(v: Seq<(AssetId, String)>) -> Seq<(AssetId, Seq<char>)> {
    v.map_values(|p: (AssetId, String)| (p.0, p.1@))
}

/// Record `name` for `id` in `names`, replacing an earlier name of `id`.
fn set_name_in(names: &mut Vec<(AssetId, String)>, id: AssetId, name: &str)
    requires
        distinct_ids(names_view(old(names)@)),
    ensures
        distinct_ids(names_view(final(names)@)),
        names_view(final(names)@) == names_with(names_view(old(names)@), id, name@),
{
    let ghost names0 = names_view(names@);
    let mut i: usize = 0;
    while i < names.len()
        invariant
            names_view(names@) == names0,
            names0 == names_view(old(names)@),
            distinct_ids(names0),
            names0.len() == names@.len(),
            i <= names@.len(),
            forall|j: int| 0 <= j < i ==> (#[trigger] names0[j]).0 != id,
        decreases names@.len() - i,
    {
        if names[i].0 == id {
            proof {
                assert(names0[i as int].0 == id);
                let k = choose|k: int| 0 <= k < names0.len() && (#[trigger] names0[k]).0 == id;
                if k != i {
                    if k < i {
                        assert(names0[k].0 != id);
                    } else {
                        assert(names0[i as int].0 != names0[k].0);
                    }
                }
            }
            names.set(i, (id, name.to_owned()));
            proof {
                assert(names_view(names@) =~= names0.update(i as int, (id, name@)));
                assert forall|a: int, b: int| 0 <= a < b < names_view(names@).len() implies (#[trigger] names_view(names@)[a]).0 != (#[trigger] names_view(names@)[b]).0 by {
                    assert(names_view(names@)[a].0 == names0[a].0);
                    assert(names_view(names@)[b].0 == names0[b].0);
                }
            }
            return;
        }
        i = i + 1;
    }
    names.push((id, name.to_owned()));
    proof {
        assert(names_view(names@) =~= names0.push((id, name@)));
        assert forall|a: int, b: int| 0 <= a < b < names_view(names@).len() implies (#[trigger] names_view(names@)[a]).0 != (#[trigger] names_view(names@)[b]).0 by {
            if b < names0.len() {
                assert(names_view(names@)[a].0 == names0[a].0);
                assert(names_view(names@)[b].0 == names0[b].0);
            } else {
                assert(names_view(names@)[a].0 == names0[a].0);
            }
        }
    }
}

/// The name recorded for `id` in `names`, if any.
fn name_in(names: &Vec<(AssetId, String)>, id: AssetId) -> (r: Option<&str>)
    requires
        distinct_ids(names_view(names@)),
    ensures
        opt_str_view(r) == name_entry(names_view(names@), id),
{
    let ghost names0 = names_view(names@);
    let mut i: usize = 0;
    while i < names.len()
        invariant
            names0 == names_view(names@),
            distinct_ids(names0),
            names0.len() == names@.len(),
            i <= names@.len(),
            forall|j: int| 0 <= j < i ==> (#[trigger] names0[j]).0 != id,
        decreases names@.len() - i,
    {
        if names[i].0 == id {
            proof {
                assert(names0[i as int].0 == id);
                let k = choose|k: int| 0 <= k < names0.len() && (#[trigger] names0[k]).0 == id;
                if k != i {
                    if k < i {
                        assert(names0[k].0 != id);
                    } else {
                        assert(names0[i as int].0 != names0[k].0);
                    }
                }
            }
            return Some(names[i].1.as_str());
        }
        i = i + 1;
    }
    None
}

/// The id of the first name in `names` equal to `name`, if any.
fn first_id_in(names: &Vec<(AssetId, String)>, name: &str) -> (r: Option<AssetId>)
    ensures
        r is None ==> forall|k: int| 0 <= k < names_view(names@).len() ==> (#[trigger] names_view(names@)[k]).1 != name@,
        r matches Some(id) ==> exists|k: int| first_named(names_view(names@), name@, k) && names_view(names@)[k].0 == id,
{
    let ghost names0 = names_view(names@);
    let key: String = name.to_owned();
    let mut i: usize = 0;
    while i < names.len()
        invariant
            names0 == names_view(names@),
            key@ == name@,
            names0.len() == names@.len(),
            i <= names@.len(),
            forall|j: int| 0 <= j < i ==> (#[trigger] names0[j]).1 != name@,
        decreases names@.len() - i,
    {
        if names[i].1 == key {
            assert(first_named(names0, name@, i as int));
            return Some(names[i].0);
        }
        i = i + 1;
    }
    None
}

/// Manages asset handle resolution, names (for serialization) and path
/// deduplication.
pub struct AssetManager {
    meshes: AssetRegistry<MeshHandle>,
    textures: AssetRegistry<TextureHandle>,
    materials: AssetRegistry<MaterialHandle>,
    /// Mesh names by id (a path or a user-provided name like `"@cube"`).
    mesh_names: Vec<(AssetId, String)>,
    /// Material names by id.
    material_names: Vec<(AssetId, String)>,
    /// Ids of scenes requested by path, each path kept as its components
    /// (two paths are the same path exactly when their components are).
    paths: Vec<(Vec<String>, AssetId)>,
}

impl AssetManager {
    /// The mesh registry.
    pub closed spec fn meshes(&self) -> AssetRegistry<MeshHandle> {
        self.meshes
    }

    /// The texture registry.
    pub closed spec fn textures(&self) -> AssetRegistry<TextureHandle> {
        self.textures
    }

    /// The material registry.
    pub closed spec fn materials(&self) -> AssetRegistry<MaterialHandle> {
        self.materials
    }

    /// The recorded mesh names, in the order they were first recorded.
    pub closed spec fn mesh_names(&self) -> Seq<(AssetId, Seq<char>)> {
        names_view(self.mesh_names@)
    }

    /// The recorded material names, in the order they were first recorded.
    pub closed spec fn material_names(&self) -> Seq<(AssetId, Seq<char>)> {
        names_view(self.material_names@)
    }

    /// The requested paths (as their components) and their ids.
    pub closed spec fn paths(&self) -> Seq<(Seq<Seq<char>>, AssetId)> {
        self.paths@.map_values(|p: (Vec<String>, AssetId)| (string_views(p.0@), p.1))
    }

    /// Registries well formed; each id named at most once; each path recorded once.
    pub open spec fn wf(&self) -> bool {
        &&& self.meshes().wf()
        &&& self.textures().wf()
        &&& self.materials().wf()
        &&& distinct_ids(self.mesh_names())
        &&& distinct_ids(self.material_names())
        &&& distinct_paths(self.paths())
    }

    /// An empty manager.
    pub fn new() -> (m: Self)
        ensures
            m.wf(),
            m.meshes().slots().len() == 0 && m.meshes().free().len() == 0,
            m.textures().slots().len() == 0 && m.textures().free().len() == 0,
            m.materials().slots().len() == 0 && m.materials().free().len() == 0,
            m.mesh_names().len() == 0,
            m.material_names().len() == 0,
            m.paths().len() == 0,
    {
        let m = AssetManager {
            meshes: AssetRegistry::new(),
            textures: AssetRegistry::new(),
            materials: AssetRegistry::new(),
            mesh_names: Vec::new(),
            material_names: Vec::new(),
            paths: Vec::new(),
        };
        assert(m.mesh_names() =~= Seq::<(AssetId, Seq<char>)>::empty());
        assert(m.material_names() =~= Seq::<(AssetId, Seq<char>)>::empty());
        assert(m.paths() =~= Seq::<(Seq<Seq<char>>, AssetId)>::empty());
        m
    }

    /// Register a pre-uploaded mesh handle (e.g., from procedural generation).
    pub fn register_mesh(&mut self, handle: MeshHandle) -> (h: AssetHandle<MeshAsset>)
        requires
            old(self).wf(),
            old(self).meshes().can_allocate(),
        ensures
            final(self).wf(),
            (final(self).meshes().slots(), final(self).meshes().free())
                == crate::registry::insert_result(old(self).meshes().slots(), old(self).meshes().free(), handle),
            h.asset_id().index_spec() == old(self).meshes().allocate_spec().2,
            h.asset_id().generation_spec() == old(self).meshes().allocate_spec().3,
            final(self).meshes().lookup(h.asset_id()) == Some(handle),
            forall|e: AssetId| #[trigger] old(self).meshes().is_current(e)
                ==> e != h.asset_id() && final(self).meshes().lookup(e) == old(self).meshes().lookup(e),
            final(self).textures() == old(self).textures(),
            final(self).materials() == old(self).materials(),
            final(self).mesh_names() == old(self).mesh_names(),
            final(self).material_names() == old(self).material_names(),
            final(self).paths() == old(self).paths(),
    {
        let ghost before = self.meshes;
        let id = self.meshes.insert(handle);
        proof {
            assert forall|e: AssetId| #[trigger] before.is_current(e)
                implies e != id && self.meshes.lookup(e) == before.lookup(e) by {
                crate::registry::law_insert_keeps_live(&before, handle, e);
            }
        }
        AssetHandle { id, _marker: PhantomData }
    }

    /// Register a pre-uploaded texture handle.
    pub fn register_texture(&mut self, handle: TextureHandle) -> (h: AssetHandle<TextureAsset>)
        requires
            old(self).wf(),
            old(self).textures().can_allocate(),
        ensures
            final(self).wf(),
            (final(self).textures().slots(), final(self).textures().free())
                == crate::registry::insert_result(old(self).textures().slots(), old(self).textures().free(), handle),
            h.asset_id().index_spec() == old(self).textures().allocate_spec().2,
            h.asset_id().generation_spec() == old(self).textures().allocate_spec().3,
            final(self).textures().lookup(h.asset_id()) == Some(handle),
            forall|e: AssetId| #[trigger] old(self).textures().is_current(e)
                ==> e != h.asset_id() && final(self).textures().lookup(e) == old(self).textures().lookup(e),
            final(self).meshes() == old(self).meshes(),
            final(self).materials() == old(self).materials(),
            final(self).mesh_names() == old(self).mesh_names(),
            final(self).material_names() == old(self).material_names(),
            final(self).paths() == old(self).paths(),
    {
        let ghost before = self.textures;
        let id = self.textures.insert(handle);
        proof {
            assert forall|e: AssetId| #[trigger] before.is_current(e)
                implies e != id && self.textures.lookup(e) == before.lookup(e) by {
                crate::registry::law_insert_keeps_live(&before, handle, e);
            }
        }
        AssetHandle { id, _marker: PhantomData }
    }

    /// Register a pre-uploaded material handle.
    pub fn register_material(&mut self, handle: MaterialHandle) -> (h: AssetHandle<MaterialAsset>)
        requires
            old(self).wf(),
            old(self).materials().can_allocate(),
        ensures
            final(self).wf(),
            (final(self).materials().slots(), final(self).materials().free())
                == crate::registry::insert_result(old(self).materials().slots(), old(self).materials().free(), handle),
            h.asset_id().index_spec() == old(self).materials().allocate_spec().2,
            h.asset_id().generation_spec() == old(self).materials().allocate_spec().3,
            final(self).materials().lookup(h.asset_id()) == Some(handle),
            forall|e: AssetId| #[trigger] old(self).materials().is_current(e)
                ==> e != h.asset_id() && final(self).materials().lookup(e) == old(self).materials().lookup(e),
            final(self).meshes() == old(self).meshes(),
            final(self).textures() == old(self).textures(),
            final(self).mesh_names() == old(self).mesh_names(),
            final(self).material_names() == old(self).material_names(),
            final(self).paths() == old(self).paths(),
    {
        let ghost before = self.materials;
        let id = self.materials.insert(handle);
        proof {
            assert forall|e: AssetId| #[trigger] before.is_current(e)
                implies e != id && self.materials.lookup(e) == before.lookup(e) by {
                crate::registry::law_insert_keeps_live(&before, handle, e);
            }
        }
        AssetHandle { id, _marker: PhantomData }
    }

    /// Register a pre-uploaded mesh handle with a name (for serialization).
    pub fn register_mesh_named(&mut self, name: &str, handle: MeshHandle) -> (h: AssetHandle<MeshAsset>)
        requires
            old(self).wf(),
            old(self).meshes().can_allocate(),
        ensures
            final(self).wf(),
            (final(self).meshes().slots(), final(self).meshes().free())
                == crate::registry::insert_result(old(self).meshes().slots(), old(self).meshes().free(), handle),
            h.asset_id().index_spec() == old(self).meshes().allocate_spec().2,
            h.asset_id().generation_spec() == old(self).meshes().allocate_spec().3,
            final(self).meshes().lookup(h.asset_id()) == Some(handle),
            forall|e: AssetId| #[trigger] old(self).meshes().is_current(e)
                ==> e != h.asset_id() && final(self).meshes().lookup(e) == old(self).meshes().lookup(e),
            final(self).mesh_names() == names_with(old(self).mesh_names(), h.asset_id(), name@),
            final(self).material_names() == old(self).material_names(),
            final(self).textures() == old(self).textures(),
            final(self).materials() == old(self).materials(),
            final(self).paths() == old(self).paths(),
    {
        let ghost before = self.meshes;
        let id = self.meshes.insert(handle);
        proof {
            assert forall|e: AssetId| #[trigger] before.is_current(e)
                implies e != id && self.meshes.lookup(e) == before.lookup(e) by {
                crate::registry::law_insert_keeps_live(&before, handle, e);
            }
        }
        set_name_in(&mut self.mesh_names, id, name);
        AssetHandle { id, _marker: PhantomData }
    }

    /// Register a pre-uploaded material handle with a name (for serialization).
    pub fn register_material_named(&mut self, name: &str, handle: MaterialHandle) -> (h: AssetHandle<MaterialAsset>)
        requires
            old(self).wf(),
            old(self).materials().can_allocate(),
        ensures
            final(self).wf(),
            (final(self).materials().slots(), final(self).materials().free())
                == crate::registry::insert_result(old(self).materials().slots(), old(self).materials().free(), handle),
            h.asset_id().index_spec() == old(self).materials().allocate_spec().2,
            h.asset_id().generation_spec() == old(self).materials().allocate_spec().3,
            final(self).materials().lookup(h.asset_id()) == Some(handle),
            forall|e: AssetId| #[trigger] old(self).materials().is_current(e)
                ==> e != h.asset_id() && final(self).materials().lookup(e) == old(self).materials().lookup(e),
            final(self).material_names() == names_with(old(self).material_names(), h.asset_id(), name@),
            final(self).mesh_names() == old(self).mesh_names(),
            final(self).meshes() == old(self).meshes(),
            final(self).textures() == old(self).textures(),
            final(self).paths() == old(self).paths(),
    {
        let ghost before = self.materials;
        let id = self.materials.insert(handle);
        proof {
            assert forall|e: AssetId| #[trigger] before.is_current(e)
                implies e != id && self.materials.lookup(e) == before.lookup(e) by {
                crate::registry::law_insert_keeps_live(&before, handle, e);
            }
        }
        set_name_in(&mut self.material_names, id, name);
        AssetHandle { id, _marker: PhantomData }
    }

    /// Look up the name/path for a mesh asset handle (for serialization).
    pub fn mesh_name(&self, handle: AssetHandle<MeshAsset>) -> (r: Option<&str>)
        requires
            self.wf(),
        ensures
            opt_str_view(r) == name_entry(self.mesh_names(), handle.asset_id()),
    {
        name_in(&self.mesh_names, handle.id)
    }

    /// Look up the name/path for a material asset handle (for serialization).
    pub fn material_name(&self, handle: AssetHandle<MaterialAsset>) -> (r: Option<&str>)
        requires
            self.wf(),
        ensures
            opt_str_view(r) == name_entry(self.material_names(), handle.asset_id()),
    {
        name_in(&self.material_names, handle.id)
    }

    /// Find a GPU mesh handle by name (for deserialization): the mesh of the
    /// first id recorded under `name`, if that id is current.
    pub fn find_mesh_by_name(&self, name: &str) -> (r: Option<MeshHandle>)
        requires
            self.wf(),
        ensures
            (forall|k: int| 0 <= k < self.mesh_names().len() ==> (#[trigger] self.mesh_names()[k]).1 != name@) ==> r is None,
            forall|k: int| first_named(self.mesh_names(), name@, k) ==> r == self.meshes().lookup(#[trigger] self.mesh_names()[k].0),
    {
        match first_id_in(&self.mesh_names, name) {
            Some(id) => {
                proof { lemma_first_named_unique(self.mesh_names(), name@); }
                self.meshes.get(id)
            },
            None => None,
        }
    }

    /// Find a GPU material handle by name (for deserialization): the material
    /// of the first id recorded under `name`, if that id is current.
    pub fn find_material_by_name(&self, name: &str) -> (r: Option<MaterialHandle>)
        requires
            self.wf(),
        ensures
            (forall|k: int| 0 <= k < self.material_names().len() ==> (#[trigger] self.material_names()[k]).1 != name@) ==> r is None,
            forall|k: int| first_named(self.material_names(), name@, k) ==> r == self.materials().lookup(#[trigger] self.material_names()[k].0),
    {
        match first_id_in(&self.material_names, name) {
            Some(id) => {
                proof { lemma_first_named_unique(self.material_names(), name@); }
                self.materials.get(id)
            },
            None => None,
        }
    }

    /// Look up the name for a GPU mesh handle: the name of the current id of
    /// the lowest mesh slot holding it.
    pub fn name_for_gpu_mesh(&self, gpu_handle: MeshHandle) -> (r: Option<&str>)
        requires
            self.wf(),
        ensures
            opt_str_view(r) == name_of_value(self.meshes().slots(), self.mesh_names(), gpu_handle),
    {
        match self.meshes.find_id_by_value(gpu_handle) {
            Some(id) => {
                proof { lemma_first_holding_id(self.meshes().slots(), gpu_handle, id); }
                name_in(&self.mesh_names, id)
            },
            None => None,
        }
    }

    /// Look up the name for a GPU material handle: the name of the current id
    /// of the lowest material slot holding it.
    pub fn name_for_gpu_material(&self, gpu_handle: MaterialHandle) -> (r: Option<&str>)
        requires
            self.wf(),
        ensures
            opt_str_view(r) == name_of_value(self.materials().slots(), self.material_names(), gpu_handle),
    {
        match self.materials.find_id_by_value(gpu_handle) {
            Some(id) => {
                proof { lemma_first_holding_id(self.materials().slots(), gpu_handle, id); }
                name_in(&self.material_names, id)
            },
            None => None,
        }
    }

    /// The id recorded for the path with components `key`.
    fn find_path(&self, key: &Vec<String>) -> (r: Option<AssetId>)
        requires
            self.wf(),
        ensures
            r == path_entry(self.paths(), string_views(key@)),
    {
        let ghost kv = string_views(key@);
        let ghost paths0 = self.paths();
        let mut i: usize = 0;
        while i < self.paths.len()
            invariant
                self.wf(),
                kv == string_views(key@),
                paths0 == self.paths(),
                paths0.len() == self.paths@.len(),
                i <= self.paths@.len(),
                forall|j: int| 0 <= j < i ==> (#[trigger] paths0[j]).0 != kv,
            decreases self.paths@.len() - i,
        {
            if same_strings(&self.paths[i].0, key) {
                let id = self.paths[i].1;
                proof {
                    assert(paths0[i as int].0 == kv);
                    let k = choose|k: int| 0 <= k < paths0.len() && (#[trigger] paths0[k]).0 == kv;
                    if k != i {
                        if k < i {
                            assert(paths0[k].0 != kv);
                        } else {
                            assert(paths0[i as int].0 != paths0[k].0);
                        }
                    }
                }
                return Some(id);
            }
            i = i + 1;
        }
        None
    }

    /// The id a glTF scene was requested under by `path`, if it was.
    pub fn find_gltf(&self, path: &str) -> (r: Option<AssetId>)
        requires
            self.wf(),
        ensures
            r == path_entry(self.paths(), components_of(path@)),
    {
        let key = path_components(path);
        self.find_path(&key)
    }

    /// `load_gltf_async` when it can run: `None` (and nothing changes) when
    /// the path is new and the mesh registry has no room left.
    pub fn try_load_gltf(&mut self, path: &str) -> (r: Option<(AssetId, bool)>)
        requires
            old(self).wf(),
        ensures
            final(self).wf(),
            r is None <==> (path_entry(old(self).paths(), components_of(path@)) is None
                && !old(self).meshes().can_allocate()),
            r is None ==> *final(self) == *old(self),
            r matches Some(x) ==> path_entry(final(self).paths(), components_of(path@)) == Some(x.0),
    {
        if self.find_gltf(path).is_none() && !self.meshes.has_room() {
            return None;
        }
        Some(self.load_gltf_async(path))
    }

    /// Start loading a glTF scene by path: a path seen before (as the same
    /// path, component by component) answers its earlier id; a new path gets
    /// a fresh mesh slot, named by the path.
    ///
    /// Returns the id and whether the scene still has to be parsed.
    pub fn load_gltf_async(&mut self, path: &str) -> (r: (AssetId, bool))
        requires
            old(self).wf(),
            path_entry(old(self).paths(), components_of(path@)) is Some || old(self).meshes().can_allocate(),
        ensures
            final(self).wf(),
            path_entry(old(self).paths(), components_of(path@)) matches Some(id) ==> {
                &&& r == (id, false)
                &&& *final(self) == *old(self)
            },
            path_entry(old(self).paths(), components_of(path@)) is None ==> {
                &&& r.1
                &&& r.0.index_spec() == old(self).meshes().allocate_spec().2
                &&& r.0.generation_spec() == old(self).meshes().allocate_spec().3
                &&& final(self).meshes().slots() == old(self).meshes().allocate_spec().0
                &&& final(self).meshes().free() == old(self).meshes().allocate_spec().1
                &&& final(self).mesh_names() == names_with(old(self).mesh_names(), r.0, path@)
                &&& final(self).paths() == old(self).paths().push((components_of(path@), r.0))
                &&& final(self).textures() == old(self).textures()
                &&& final(self).materials() == old(self).materials()
                &&& final(self).material_names() == old(self).material_names()
            },
            path_entry(final(self).paths(), components_of(path@)) == Some(r.0),
            file_name_of(path@) matches Some(n) ==> components_of(path@).len() > 0 && components_of(path@).last() == n,
    {
        let key: Vec<String> = path_components(path);
        proof {
            if file_name_of(path@) is Some {
                assert(string_views(key@)[key@.len() - 1] == key@[key@.len() - 1]@);
            }
        }
        self.load_gltf_by_components(key, path)
    }

    /// `load_gltf_async` once the path is split into its components `key`:
    /// a known key answers its earlier id and changes nothing; a new key gets
    /// a fresh mesh slot named `path` and is recorded with it.
    pub fn load_gltf_by_components(&mut self, key: Vec<String>, path: &str) -> (r: (AssetId, bool))
        requires
            old(self).wf(),
            path_entry(old(self).paths(), string_views(key@)) is Some || old(self).meshes().can_allocate(),
        ensures
            final(self).wf(),
            path_entry(old(self).paths(), string_views(key@)) matches Some(id) ==> {
                &&& r == (id, false)
                &&& *final(self) == *old(self)
            },
            path_entry(old(self).paths(), string_views(key@)) is None ==> {
                &&& r.1
                &&& r.0.index_spec() == old(self).meshes().allocate_spec().2
                &&& r.0.generation_spec() == old(self).meshes().allocate_spec().3
                &&& final(self).meshes().slots() == old(self).meshes().allocate_spec().0
                &&& final(self).meshes().free() == old(self).meshes().allocate_spec().1
                &&& final(self).mesh_names() == names_with(old(self).mesh_names(), r.0, path@)
                &&& final(self).paths() == old(self).paths().push((string_views(key@), r.0))
                &&& final(self).textures() == old(self).textures()
                &&& final(self).materials() == old(self).materials()
                &&& final(self).material_names() == old(self).material_names()
            },
            path_entry(final(self).paths(), string_views(key@)) == Some(r.0),
    {
        let ghost kv = string_views(key@);
        let ghost paths0 = self.paths();
        match self.find_path(&key) {
            Some(id) => {
                return (id, false);
            },
            None => {},
        }
        assert(path_entry(paths0, kv) is None);
        let id = self.meshes.allocate();
        set_name_in(&mut self.mesh_names, id, path);
        self.paths.push((key, id));
        proof {
            assert(self.paths() =~= paths0.push((kv, id)));
            law_path_recorded_once(paths0, kv, id);
        }
        (id, true)
    }

    /// Store the meshes of a parsed scene: the first fills the placeholder
    /// slot `id` (if `id` is still current), the rest get slots of their own.
    pub fn process_gltf_upload(&mut self, id: AssetId, meshes: &[MeshHandle])
        requires
            old(self).wf(),
            meshes@.len() == 0 || old(self).meshes().capacity() >= meshes@.len() - 1,
        ensures
            final(self).wf(),
            meshes@.len() == 0 ==> *final(self) == *old(self),
            meshes@.len() > 0 ==> ({
                let placed = if old(self).meshes().is_current(id) {
                    old(self).meshes().slots().update(
                        id.index_spec() as int,
                        (id.generation_spec() as u8, Some(meshes@[0])),
                    )
                } else {
                    old(self).meshes().slots()
                };
                (final(self).meshes().slots(), final(self).meshes().free())
                    == insert_all(placed, old(self).meshes().free(), meshes@.skip(1))
            }),
            final(self).textures() == old(self).textures(),
            final(self).materials() == old(self).materials(),
            final(self).mesh_names() == old(self).mesh_names(),
            final(self).material_names() == old(self).material_names(),
            final(self).paths() == old(self).paths(),
    {
        if meshes.len() == 0 {
            return;
        }
        self.meshes.set(id, meshes[0]);
        let ghost slots1 = self.meshes().slots();
        let ghost free1 = self.meshes().free();
        let ghost rest = meshes@.skip(1);
        let mut i: usize = 1;
        while i < meshes.len()
            invariant
                self.wf(),
                1 <= i <= meshes@.len(),
                rest == meshes@.skip(1),
                capacity_of(slots1, free1) >= meshes@.len() - 1,
                self.meshes().capacity() == capacity_of(slots1, free1) - (i - 1),
                (self.meshes().slots(), self.meshes().free()) == insert_all(slots1, free1, rest.take(i - 1)),
                self.textures() == old(self).textures(),
                self.materials() == old(self).materials(),
                self.mesh_names() == old(self).mesh_names(),
                self.material_names() == old(self).material_names(),
                self.paths() == old(self).paths(),
            decreases meshes@.len() - i,
        {
            proof {
                assert(rest.take(i as int).drop_last() =~= rest.take(i - 1));
                assert(rest.take(i as int).last() == meshes@[i as int]);
            }
            self.meshes.insert(meshes[i]);
            i = i + 1;
        }
        assert(rest.take(meshes@.len() - 1) =~= rest);
    }

    /// Resolve a mesh asset handle to a GPU handle.
    pub fn get_mesh(&self, handle: AssetHandle<MeshAsset>) -> (r: Option<MeshHandle>)
        requires
            self.wf(),
        ensures
            r == self.meshes().lookup(handle.asset_id()),
    {
        self.meshes.get(handle.id)
    }

    /// Resolve a texture asset handle to a GPU handle.
    pub fn get_texture(&self, handle: AssetHandle<TextureAsset>) -> (r: Option<TextureHandle>)
        requires
            self.wf(),
        ensures
            r == self.textures().lookup(handle.asset_id()),
    {
        self.textures.get(handle.id)
    }

    /// Resolve a material asset handle to a GPU handle.
    pub fn get_material(&self, handle: AssetHandle<MaterialAsset>) -> (r: Option<MaterialHandle>)
        requires
            self.wf(),
        ensures
            r == self.materials().lookup(handle.asset_id()),
    {
        self.materials.get(handle.id)
    }
}

/// There is at most one first position with a given name.
pub proof fn lemma_first_named_unique(names: Seq<(AssetId, Seq<char>)>, name: Seq<char>)
    ensures
        forall|a: int, b: int| first_named(names, name, a) && first_named(names, name, b) ==> a == b,
{
    assert forall|a: int, b: int| first_named(names, name, a) && first_named(names, name, b) implies a == b by {
        if a < b {
            assert(names[a].1 != name);
        } else if b < a {
            assert(names[b].1 != name);
        }
    }
}

/// The id that `find_id_by_value` returns is that of the unique lowest slot
/// holding the value.
proof fn lemma_first_holding_id<T>(slots: Seq<(u8, Option<T>)>, value: T, id: AssetId)
    requires
        slots.len() <= MAX_SLOTS,
        first_holding(slots, value, id.index_spec() as int),
        slots[id.index_spec() as int].0 == id.generation_spec(),
    ensures
        exists|k: int| first_holding(slots, value, k),
        AssetId::from_parts(
            (choose|k: int| first_holding(slots, value, k)) as nat,
            slots[choose|k: int| first_holding(slots, value, k)].0 as nat,
        ) == id,
{
    let i = id.index_spec() as int;
    let k = choose|k: int| first_holding(slots, value, k);
    if k < i {
        assert(slots[k].1 != Some(value));
    } else if i < k {
        assert(slots[i].1 != Some(value));
    }
    let id2 = AssetId::from_parts(k as nat, slots[k].0 as nat);
    lemma_asset_id_eq(id, id2);
    lemma_from_parts(k as nat, slots[k].0 as nat);
}

/// Recording a name and then asking for the name of that id gives the name
/// back; the names of other ids do not change.
pub proof fn law_name_roundtrip(names: Seq<(AssetId, Seq<char>)>, id: AssetId, name: Seq<char>, other: AssetId)
    requires
        distinct_ids(names),
        other != id,
    ensures
        distinct_ids(names_with(names, id, name)),
        name_entry(names_with(names, id, name), id) == Some(name),
        name_entry(names_with(names, id, name), other) == name_entry(names, other),
{
    let after = names_with(names, id, name);
    if exists|k: int| 0 <= k < names.len() && (#[trigger] names[k]).0 == id {
        let k = choose|k: int| 0 <= k < names.len() && (#[trigger] names[k]).0 == id;
        assert(after == names.update(k, (id, name)));
        assert forall|i: int, j: int| 0 <= i < j < after.len() implies (#[trigger] after[i]).0 != (#[trigger] after[j]).0 by {
            if i != k && j != k {
                assert(names[i].0 != names[j].0);
            } else if i == k {
                assert(names[k].0 != names[j].0);
            } else {
                assert(names[i].0 != names[k].0);
            }
        }
        assert(after[k].0 == id);
        let k2 = choose|k2: int| 0 <= k2 < after.len() && (#[trigger] after[k2]).0 == id;
        if k2 != k {
            assert(after[k2].0 != after[k].0);
        }
        if exists|m: int| 0 <= m < after.len() && (#[trigger] after[m]).0 == other {
            let m = choose|m: int| 0 <= m < after.len() && (#[trigger] after[m]).0 == other;
            assert(names[m].0 == other);
            let m2 = choose|m2: int| 0 <= m2 < names.len() && (#[trigger] names[m2]).0 == other;
            if m2 != m {
                assert(names[m2].0 != names[m].0);
            }
        } else {
            assert forall|m: int| 0 <= m < names.len() implies (#[trigger] names[m]).0 != other by {
                if m != k {
                    assert(after[m].0 == names[m].0);
                }
            }
        }
    } else {
        assert(after == names.push((id, name)));
        assert forall|i: int, j: int| 0 <= i < j < after.len() implies (#[trigger] after[i]).0 != (#[trigger] after[j]).0 by {
            if j < names.len() {
                assert(names[i].0 != names[j].0);
            } else {
                assert(after[i].0 == names[i].0);
            }
        }
        let n = names.len() as int;
        assert(after[n].0 == id);
        let k2 = choose|k2: int| 0 <= k2 < after.len() && (#[trigger] after[k2]).0 == id;
        if k2 != n {
            assert(after[k2].0 != after[n].0);
        }
        if exists|m: int| 0 <= m < after.len() && (#[trigger] after[m]).0 == other {
            let m = choose|m: int| 0 <= m < after.len() && (#[trigger] after[m]).0 == other;
            assert(m < n);
            assert(names[m].0 == other);
            let m2 = choose|m2: int| 0 <= m2 < names.len() && (#[trigger] names[m2]).0 == other;
            if m2 != m {
                assert(names[m2].0 != names[m].0);
            }
        } else {
            assert forall|m: int| 0 <= m < names.len() implies (#[trigger] names[m]).0 != other by {
                assert(after[m].0 == names[m].0);
            }
        }
    }
}

/// A name used by no other entry finds the id it was recorded for: in the
/// names after recording `name` for `id`, the first entry named `name` is
/// `id`'s.
pub proof fn law_find_by_fresh_name(names: Seq<(AssetId, Seq<char>)>, id: AssetId, name: Seq<char>)
    requires
        distinct_ids(names),
        forall|k: int| 0 <= k < names.len() && (#[trigger] names[k]).0 != id ==> names[k].1 != name,
    ensures
        forall|k: int| #[trigger] first_named(names_with(names, id, name), name, k)
            ==> names_with(names, id, name)[k].0 == id,
        exists|k: int| first_named(names_with(names, id, name), name, k),
{
    let after = names_with(names, id, name);
    if exists|k: int| 0 <= k < names.len() && (#[trigger] names[k]).0 == id {
        let k = choose|k: int| 0 <= k < names.len() && (#[trigger] names[k]).0 == id;
        assert(after == names.update(k, (id, name)));
        assert forall|j: int| 0 <= j < k implies (#[trigger] after[j]).1 != name by {
            assert(names[j].0 != names[k].0);
            assert(after[j] == names[j]);
        }
        assert(first_named(after, name, k));
        assert forall|m: int| #[trigger] first_named(after, name, m) implies after[m].0 == id by {
            if m != k {
                if m < k {
                    assert(after[m].1 != name);
                } else {
                    assert(after[k].1 == name);
                }
            }
        }
    } else {
        let n = names.len() as int;
        assert(after == names.push((id, name)));
        assert forall|j: int| 0 <= j < n implies (#[trigger] after[j]).1 != name by {
            assert(after[j] == names[j]);
        }
        assert(first_named(after, name, n));
        assert forall|m: int| #[trigger] first_named(after, name, m) implies after[m].0 == id by {
            if m < n {
                assert(after[m].1 != name);
            }
        }
    }
}

/// Path deduplication: once a path is recorded, looking it up again answers
/// the same id.
pub proof fn law_path_recorded_once(paths: Seq<(Seq<Seq<char>>, AssetId)>, path: Seq<Seq<char>>, id: AssetId)
    requires
        distinct_paths(paths),
        path_entry(paths, path) is None,
    ensures
        distinct_paths(paths.push((path, id))),
        path_entry(paths.push((path, id)), path) == Some(id),
{
    let after = paths.push((path, id));
    let n = paths.len() as int;
    assert forall|i: int, j: int| 0 <= i < j < after.len() implies (#[trigger] after[i]).0 != (#[trigger] after[j]).0 by {
        if j < n {
            assert(paths[i].0 != paths[j].0);
        } else {
            assert(after[i] == paths[i]);
        }
    }
    assert(after[n].0 == path);
    let k = choose|k: int| 0 <= k < after.len() && (#[trigger] after[k]).0 == path;
    if k != n {
        assert(after[k].0 != after[n].0);
    }
}

/// What `Path::components` gives for a path string, each component as text.
pub uninterp spec fn components_of(path: Seq<char>) -> Seq<Seq<char>>;

/// Calls `Path::components` on `path`; the components, as text, are named
/// `components_of`. (Two `Path`s are equal exactly when their components
/// are.) `Path::file_name` is the last component when that is a normal one,
/// so when the path has a file name the components end with it; nothing
/// more is claimed of the components here.
#[verifier::external_body]
fn path_components(path: &str) -> (r: Vec<String>)
    ensures
        string_views(r@) == components_of(path@),
        file_name_of(path@) matches Some(n) ==> r@.len() > 0 && r@.last()@ == n,
{
    std::path::Path::new(path).components().map(|c| c.as_os_str().to_string_lossy().into_owned()).collect()
}

/// Whether two lists of strings hold the same texts in the same order.
fn same_strings(a: &Vec<String>, b: &Vec<String>) -> (r: bool)
    ensures
        r == (string_views(a@) == string_views(b@)),
{
    if a.len() != b.len() {
        proof {
            assert(string_views(a@).len() != string_views(b@).len());
        }
        return false;
    }
    let mut i: usize = 0;
    while i < a.len()
        invariant
            a@.len() == b@.len(),
            i <= a@.len(),
            forall|j: int| 0 <= j < i ==> (#[trigger] a@[j])@ == b@[j]@,
        decreases a@.len() - i,
    {
        if !str_eq(a[i].as_str(), b[i].as_str()) {
            proof {
                assert(string_views(a@)[i as int] != string_views(b@)[i as int]);
            }
            return false;
        }
        i = i + 1;
    }
    assert(string_views(a@) =~= string_views(b@));
    true
}

/// Paths are told apart by their components: once a path is recorded,
/// another path whose components differ (for example in the file name, the
/// last component) is still unknown, so loading it gets a fresh id and a
/// parse of its own rather than the first path's scene; a path with the same
/// components answers the recorded id.
pub proof fn law_distinct_paths_load_separately(
    paths: Seq<(Seq<Seq<char>>, AssetId)>,
    p: Seq<Seq<char>>,
    q: Seq<Seq<char>>,
    id: AssetId,
)
    requires
        distinct_paths(paths),
        path_entry(paths, p) is None,
        path_entry(paths, q) is None,
    ensures
        p != q ==> path_entry(paths.push((p, id)), q) is None,
        path_entry(paths.push((p, id)), p) == Some(id),
        p.len() > 0 && q.len() > 0 && p.last() != q.last() ==> path_entry(paths.push((p, id)), q) is None,
{
    law_path_recorded_once(paths, p, id);
    let after = paths.push((p, id));
    if p != q {
        if exists|k: int| 0 <= k < after.len() && (#[trigger] after[k]).0 == q {
            let k = choose|k: int| 0 <= k < after.len() && (#[trigger] after[k]).0 == q;
            if k < paths.len() {
                assert(paths[k].0 == q);
            } else {
                assert(after[k].0 == p);
            }
        }
    }
}

} // verus!
