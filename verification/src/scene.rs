//! Scene saving and loading decisions: the scene ids and asset names an
//! entity is saved with, and on loading which scene entities get a mesh
//! renderer and the parent/child links between them.
//!
//! A scene lists entities by a scene-local id. Each listed entity is spawned
//! once, in order; an id that occurs twice refers to the entity listed last
//! with it. Spawning itself, and the other components, are left to the caller.

use vstd::prelude::*;
use crate::asset_id::AssetId;
use crate::asset_manager::{first_named, name_of_value, AssetManager};
use crate::handles::{MaterialHandle, MeshHandle};
use crate::registry::AssetRegistry;
use crate::chunk::ChunkCoord;

verus! {

/// What the loader reads of one scene entity: its scene id, the names of its
/// mesh and material (when it has a mesh renderer), and its parent's id.
pub struct SceneEntityRef {
    pub id: u32,
    pub mesh_ref: Option<(String, String)>,
    pub parent: Option<u32>,
}

/// The loading decisions, one entry per scene entity (by position).
pub struct ScenePlan {
    /// The mesh and material of the renderer to attach, if any.
    pub renderers: Vec<Option<(MeshHandle, MaterialHandle)>>,
    /// The position of the entity's parent, if it has one.
    pub parents: Vec<Option<usize>>,
    /// The positions of the entity's children, in scene order.
    pub children: Vec<Vec<usize>>,
}

/// The asset that the first entry named `name` in `names` refers to.
pub open spec fn named_lookup<T: Copy>(names: Seq<(AssetId, Seq<char>)>, reg: AssetRegistry<T>, name: Seq<char>) -> Option<T> {
    if exists|k: int| first_named(names, name, k) {
        let k = choose|k: int| first_named(names, name, k);
        reg.lookup(names[k].0)
    } else {
        None
    }
}

/// The renderer of a scene entity: its mesh and material, when both names
/// resolve.
pub open spec fn renderer_of(assets: AssetManager, mesh_ref: Option<(String, String)>) -> Option<(MeshHandle, MaterialHandle)> {
    match mesh_ref {
        Some((mesh, material)) => {
            match (
                named_lookup(assets.mesh_names(), assets.meshes(), mesh@),
                named_lookup(assets.material_names(), assets.materials(), material@),
            ) {
                (Some(m), Some(mat)) => Some((m, mat)),
                _ => None,
            }
        },
        None => None,
    }
}

/// The last position in `es` with scene id `id`.
pub open spec fn last_with_id(es: Seq<SceneEntityRef>, id: u32) -> Option<int>
    decreases es.len(),
{
    if es.len() == 0 {
        None
    } else if es.last().id == id {
        Some(es.len() - 1)
    } else {
        last_with_id(es.drop_last(), id)
    }
}

/// The (child, parent) link that scene entity `k` asks for: the child is the
/// entity holding `k`'s id, the parent the entity holding the parent id;
/// `None` without a parent id or when no entity holds it.
pub open spec fn link(es: Seq<SceneEntityRef>, k: int) -> Option<(int, int)> {
    match es[k].parent {
        Some(pid) => match (last_with_id(es, es[k].id), last_with_id(es, pid)) {
            (Some(c), Some(p)) => Some((c, p)),
            _ => None,
        },
        None => None,
    }
}

/// The parent of entity `j` after the links of the first `n` scene entities:
/// the last link naming `j` as child wins.
pub open spec fn parent_after(es: Seq<SceneEntityRef>, j: int, n: int) -> Option<int>
    decreases n,
{
    if n <= 0 {
        None
    } else {
        match link(es, n - 1) {
            Some((c, p)) => if c == j {
                Some(p)
            } else {
                parent_after(es, j, n - 1)
            },
            None => parent_after(es, j, n - 1),
        }
    }
}

/// The children of entity `p` from the links of the first `n` scene
/// entities, in scene order.
pub open spec fn children_after(es: Seq<SceneEntityRef>, p: int, n: int) -> Seq<int>
    decreases n,
{
    if n <= 0 {
        Seq::empty()
    } else {
        let prev = children_after(es, p, n - 1);
        match link(es, n - 1) {
            Some((c, q)) => if q == p {
                prev.push(c)
            } else {
                prev
            },
            None => prev,
        }
    }
}

/// A position as an integer.
pub open spec fn opt_index(o: Option<usize>) -> Option<int> {
    match o {
        Some(i) => Some(i as int),
        None => None,
    }
}

/// A list of positions as integers.
pub open spec fn indices(v: Seq<usize>) -> Seq<int> {
    v.map_values(|i: usize| i as int)
}

proof fn lemma_some_named_has_first(names: Seq<(AssetId, Seq<char>)>, name: Seq<char>, k: int)
    requires
        0 <= k < names.len(),
        names[k].1 == name,
    ensures
        exists|j: int| first_named(names, name, j),
    decreases k,
{
    if forall|j: int| 0 <= j < k ==> (#[trigger] names[j]).1 != name {
        assert(first_named(names, name, k));
    } else {
        let j = choose|j: int| 0 <= j < k && (#[trigger] names[j]).1 == name;
        lemma_some_named_has_first(names, name, j);
    }
}

/// The mesh the scene names `name`.
fn mesh_named(assets: &AssetManager, name: &str) -> (r: Option<MeshHandle>)
    requires
        assets.wf(),
    ensures
        r == named_lookup(assets.mesh_names(), assets.meshes(), name@),
{
    let r = assets.find_mesh_by_name(name);
    proof {
        let names = assets.mesh_names();
        if exists|k: int| 0 <= k < names.len() && (#[trigger] names[k]).1 == name@ {
            let k = choose|k: int| 0 <= k < names.len() && (#[trigger] names[k]).1 == name@;
            lemma_some_named_has_first(names, name@, k);
            let f = choose|f: int| first_named(names, name@, f);
            assert(r == assets.meshes().lookup(names[f].0));
        }
    }
    r
}

/// The material the scene names `name`.
fn material_named(assets: &AssetManager, name: &str) -> (r: Option<MaterialHandle>)
    requires
        assets.wf(),
    ensures
        r == named_lookup(assets.material_names(), assets.materials(), name@),
{
    let r = assets.find_material_by_name(name);
    proof {
        let names = assets.material_names();
        if exists|k: int| 0 <= k < names.len() && (#[trigger] names[k]).1 == name@ {
            let k = choose|k: int| 0 <= k < names.len() && (#[trigger] names[k]).1 == name@;
            lemma_some_named_has_first(names, name@, k);
            let f = choose|f: int| first_named(names, name@, f);
            assert(r == assets.materials().lookup(names[f].0));
        }
    }
    r
}

/// The last position in `es` with scene id `id`.
fn last_index_with_id(es: &Vec<SceneEntityRef>, id: u32) -> (r: Option<usize>)
    ensures
        opt_index(r) == last_with_id(es@, id),
        match r {
            Some(i) => i < es.len(),
            None => true,
        },
{
    let mut r: Option<usize> = None;
    let mut i: usize = 0;
    while i < es.len()
        invariant
            i <= es.len(),
            opt_index(r) == last_with_id(es@.take(i as int), id),
            match r {
                Some(x) => x < i,
                None => true,
            },
        decreases es.len() - i,
    {
        assert(es@.take(i as int + 1).drop_last() =~= es@.take(i as int));
        if es[i].id == id {
            r = Some(i);
        }
        i = i + 1;
    }
    assert(es@.take(es.len() as int) =~= es@);
    r
}

/// The loading decisions for a scene: for each entity (by position) the
/// renderer to attach, its parent and its children.
pub fn plan_scene_load(entities: &Vec<SceneEntityRef>, assets: &AssetManager) -> (r: ScenePlan)
    requires
        assets.wf(),
    ensures
        r.renderers@.len() == entities@.len(),
        r.parents@.len() == entities@.len(),
        r.children@.len() == entities@.len(),
        forall|i: int| 0 <= i < entities@.len() ==> #[trigger] r.renderers@[i] == renderer_of(*assets, entities@[i].mesh_ref),
        forall|j: int| 0 <= j < entities@.len() ==> opt_index(#[trigger] r.parents@[j]) == parent_after(entities@, j, entities@.len() as int),
        forall|p: int| 0 <= p < entities@.len() ==> indices((#[trigger] r.children@[p])@) == children_after(entities@, p, entities@.len() as int),
{
    let n = entities.len();
    let ghost es = entities@;

    // Renderers, and the link each entity asks for.
    let mut renderers: Vec<Option<(MeshHandle, MaterialHandle)>> = Vec::new();
    let mut links: Vec<Option<(usize, usize)>> = Vec::new();
    let mut k: usize = 0;
    while k < n
        invariant
            n == entities.len(),
            es == entities@,
            assets.wf(),
            k <= n,
            renderers@.len() == k,
            links@.len() == k,
            forall|i: int| 0 <= i < k ==> #[trigger] renderers@[i] == renderer_of(*assets, es[i].mesh_ref),
            forall|i: int| 0 <= i < k ==> match #[trigger] links@[i] {
                Some((c, p)) => link(es, i) == Some((c as int, p as int)) && c < n && p < n,
                None => link(es, i) is None,
            },
        decreases n - k,
    {
        let se = &entities[k];
        let renderer = match &se.mesh_ref {
            Some((mesh, material)) => {
                match (mesh_named(assets, mesh.as_str()), material_named(assets, material.as_str())) {
                    (Some(m), Some(mat)) => Some((m, mat)),
                    _ => None,
                }
            },
            None => None,
        };
        renderers.push(renderer);
        let l = match se.parent {
            Some(pid) => match (last_index_with_id(entities, se.id), last_index_with_id(entities, pid)) {
                (Some(c), Some(p)) => Some((c, p)),
                _ => None,
            },
            None => None,
        };
        links.push(l);
        k = k + 1;
    }

    // Parents: the last link naming an entity as child wins.
    let mut parents: Vec<Option<usize>> = Vec::new();
    let mut j: usize = 0;
    while j < n
        invariant
            j <= n,
            parents@.len() == j,
            forall|i: int| 0 <= i < j ==> #[trigger] parents@[i] is None,
        decreases n - j,
    {
        parents.push(None);
        j = j + 1;
    }
    let mut k: usize = 0;
    while k < n
        invariant
            n == entities.len(),
            es == entities@,
            k <= n,
            links@.len() == n,
            parents@.len() == n,
            forall|i: int| 0 <= i < n ==> match #[trigger] links@[i] {
                Some((c, p)) => link(es, i) == Some((c as int, p as int)) && c < n && p < n,
                None => link(es, i) is None,
            },
            forall|i: int| 0 <= i < n ==> opt_index(#[trigger] parents@[i]) == parent_after(es, i, k as int),
        decreases n - k,
    {
        let l = links[k];
        assert(match l {
            Some((c, p)) => link(es, k as int) == Some((c as int, p as int)) && c < n && p < n,
            None => link(es, k as int) is None,
        });
        match l {
            Some((c, p)) => {
                parents.set(c, Some(p));
            },
            None => {},
        }
        k = k + 1;
    }

    // Children, each list in scene order.
    let mut children: Vec<Vec<usize>> = Vec::new();
    let mut p: usize = 0;
    while p < n
        invariant
            n == entities.len(),
            es == entities@,
            p <= n,
            links@.len() == n,
            children@.len() == p,
            forall|i: int| 0 <= i < n ==> match #[trigger] links@[i] {
                Some((c, q)) => link(es, i) == Some((c as int, q as int)) && c < n && q < n,
                None => link(es, i) is None,
            },
            forall|q: int| 0 <= q < p ==> indices((#[trigger] children@[q])@) == children_after(es, q, n as int),
        decreases n - p,
    {
        let mut list: Vec<usize> = Vec::new();
        let mut k: usize = 0;
        while k < n
            invariant
                n == entities.len(),
                es == entities@,
                p < n,
                k <= n,
                links@.len() == n,
                forall|i: int| 0 <= i < n ==> match #[trigger] links@[i] {
                    Some((c, q)) => link(es, i) == Some((c as int, q as int)) && c < n && q < n,
                    None => link(es, i) is None,
                },
                indices(list@) == children_after(es, p as int, k as int),
            decreases n - k,
        {
            let l = links[k];
            assert(match l {
                Some((c, q)) => link(es, k as int) == Some((c as int, q as int)) && c < n && q < n,
                None => link(es, k as int) is None,
            });
            match l {
                Some((c, q)) => {
                    if q == p {
                        let ghost prev = list@;
                        list.push(c);
                        assert(indices(list@) =~= indices(prev).push(c as int));
                    }
                },
                None => {},
            }
            k = k + 1;
        }
        children.push(list);
        p = p + 1;
    }

    ScenePlan { renderers, parents, children }
}

/// What the saver reads of one entity with a transform: its entity id, the
/// mesh and material of its renderer, and its parent entity.
pub struct SavedEntity {
    pub entity: u64,
    pub renderer: Option<(MeshHandle, MaterialHandle)>,
    pub parent: Option<u64>,
}

/// The last position of entity `e` in `es`.
pub open spec fn last_position(es: Seq<SavedEntity>, e: u64) -> Option<int>
    decreases es.len(),
{
    if es.len() == 0 {
        None
    } else if es.last().entity == e {
        Some(es.len() - 1)
    } else {
        last_position(es.drop_last(), e)
    }
}

/// The names a renderer is saved under: its mesh's and its material's, when
/// both have one.
pub open spec fn saved_names(assets: AssetManager, renderer: Option<(MeshHandle, MaterialHandle)>) -> Option<(Seq<char>, Seq<char>)> {
    match renderer {
        Some((m, mat)) => match (
            name_of_value(assets.meshes().slots(), assets.mesh_names(), m),
            name_of_value(assets.materials().slots(), assets.material_names(), mat),
        ) {
            (Some(a), Some(b)) => Some((a, b)),
            _ => None,
        },
        None => None,
    }
}

/// A mesh reference by its characters.
pub open spec fn mesh_ref_view(r: Option<(String, String)>) -> Option<(Seq<char>, Seq<char>)> {
    match r {
        Some((a, b)) => Some((a@, b@)),
        None => None,
    }
}

/// The scene id given to the entity at position `k`.
pub open spec fn saved_id(k: int) -> u32 {
    k as u32
}

/// The scene id of the parent an entity is saved with: the id of the last
/// position that holds the parent entity; none when it has no parent or
/// the parent is not saved.
pub open spec fn saved_parent(es: Seq<SavedEntity>, parent: Option<u64>) -> Option<u32> {
    match parent {
        Some(p) => match last_position(es, p) {
            Some(k) => Some(saved_id(k)),
            None => None,
        },
        None => None,
    }
}

fn last_position_of(es: &Vec<SavedEntity>, e: u64) -> (r: Option<usize>)
    ensures
        opt_index(r) == last_position(es@, e),
{
    let mut r: Option<usize> = None;
    let mut i: usize = 0;
    while i < es.len()
        invariant
            i <= es.len(),
            opt_index(r) == last_position(es@.take(i as int), e),
        decreases es.len() - i,
    {
        assert(es@.take(i as int + 1).drop_last() =~= es@.take(i as int));
        if es[i].entity == e {
            r = Some(i);
        }
        i = i + 1;
    }
    assert(es@.take(es.len() as int) =~= es@);
    r
}

/// The scene entities saved for the entities with a transform, in order:
/// each gets its position as scene id, the names of its renderer's mesh and
/// material (when both have one), and the scene id of its parent (when the
/// parent is saved too).
pub fn plan_scene_save(entities: &Vec<SavedEntity>, assets: &AssetManager) -> (r: Vec<SceneEntityRef>)
    requires
        assets.wf(),
    ensures
        r@.len() == entities@.len(),
        forall|i: int| 0 <= i < entities@.len() ==> (#[trigger] r@[i]).id == saved_id(i),
        forall|i: int| 0 <= i < entities@.len() ==> mesh_ref_view((#[trigger] r@[i]).mesh_ref) == saved_names(*assets, entities@[i].renderer),
        forall|i: int| 0 <= i < entities@.len() ==> (#[trigger] r@[i]).parent == saved_parent(entities@, entities@[i].parent),
{
    let mut out: Vec<SceneEntityRef> = Vec::new();
    let mut i: usize = 0;
    while i < entities.len()
        invariant
            assets.wf(),
            i <= entities@.len(),
            out@.len() == i,
            forall|k: int| 0 <= k < i ==> (#[trigger] out@[k]).id == saved_id(k),
            forall|k: int| 0 <= k < i ==> mesh_ref_view((#[trigger] out@[k]).mesh_ref) == saved_names(*assets, entities@[k].renderer),
            forall|k: int| 0 <= k < i ==> (#[trigger] out@[k]).parent == saved_parent(entities@, entities@[k].parent),
        decreases entities@.len() - i,
    {
        let se = &entities[i];
        let mesh_ref = match se.renderer {
            Some((m, mat)) => match (assets.name_for_gpu_mesh(m), assets.name_for_gpu_material(mat)) {
                (Some(a), Some(b)) => Some((a.to_string(), b.to_string())),
                _ => None,
            },
            None => None,
        };
        let parent = match se.parent {
            Some(p) => match last_position_of(entities, p) {
                Some(k) => Some(k as u32),
                None => None,
            },
            None => None,
        };
        out.push(SceneEntityRef { id: i as u32, mesh_ref, parent });
        i = i + 1;
    }
    out
}

/// Entity `i` of a prefab is placed at the prefab's offset: its id is the id
/// of some entity without a parent.
pub open spec fn is_prefab_root(es: Seq<SceneEntityRef>, i: int) -> bool {
    exists|j: int| 0 <= j < es.len() && (#[trigger] es[j]).id == es[i].id && es[j].parent is None
}

/// Which entities of a prefab get the instantiation offset: those whose id
/// is the id of a parentless entity.
pub fn prefab_roots(entities: &Vec<SceneEntityRef>) -> (r: Vec<bool>)
    ensures
        r@.len() == entities@.len(),
        forall|i: int| 0 <= i < entities@.len() ==> #[trigger] r@[i] == is_prefab_root(entities@, i),
{
    let mut r: Vec<bool> = Vec::new();
    let mut i: usize = 0;
    while i < entities.len()
        invariant
            i <= entities@.len(),
            r@.len() == i,
            forall|k: int| 0 <= k < i ==> #[trigger] r@[k] == is_prefab_root(entities@, k),
        decreases entities@.len() - i,
    {
        let id = entities[i].id;
        let mut found = false;
        let mut j: usize = 0;
        while j < entities.len()
            invariant
                i < entities@.len(),
                id == entities@[i as int].id,
                j <= entities@.len(),
                found == (exists|k: int| 0 <= k < j && (#[trigger] entities@[k]).id == id && entities@[k].parent is None),
            decreases entities@.len() - j,
        {
            if entities[j].id == id && entities[j].parent.is_none() {
                found = true;
            }
            j = j + 1;
        }
        r.push(found);
        i = i + 1;
    }
    r
}

/// The scene ids saved for a chunk: position `i` among the entities with a
/// transform and a chunk membership counts when its membership is `coord`
/// and the chunk lists the entity.
pub open spec fn in_chunk(members: Seq<(u64, ChunkCoord)>, chunk_entities: Seq<u64>, coord: ChunkCoord, i: int) -> bool {
    members[i].1 == coord && chunk_entities.contains(members[i].0)
}

/// Scene entity `se` belongs to chunk `coord`: its id is the position of a
/// member of the chunk.
pub open spec fn chunk_keeps(members: Seq<(u64, ChunkCoord)>, chunk_entities: Seq<u64>, coord: ChunkCoord, se: SceneEntityRef) -> bool {
    exists|i: int| 0 <= i < members.len() && i as u32 == se.id && in_chunk(members, chunk_entities, coord, i)
}

/// The entities of a saved scene that belong to chunk `coord`, in order:
/// those whose scene id is the position of a member of the chunk (see
/// `in_chunk`); `None` when there are none.
pub fn select_chunk_entities(
    scene: Vec<SceneEntityRef>,
    members: &Vec<(u64, ChunkCoord)>,
    chunk_entities: &Vec<u64>,
    coord: ChunkCoord,
) -> (r: Option<Vec<SceneEntityRef>>)
    ensures
        ({
            let kept = scene@.filter(|se: SceneEntityRef| chunk_keeps(members@, chunk_entities@, coord, se));
            &&& r is None <==> kept.len() == 0
            &&& r matches Some(v) ==> v@ == kept
        }),
{
    let ghost keep = |se: SceneEntityRef| chunk_keeps(members@, chunk_entities@, coord, se);
    let mut out: Vec<SceneEntityRef> = Vec::new();
    let mut scene = scene;
    let ghost all = scene@;
    let mut k: usize = 0;
    let n = scene.len();
    while k < n
        invariant
            n == all.len(),
            k <= n,
            keep == (|se: SceneEntityRef| chunk_keeps(members@, chunk_entities@, coord, se)),
            scene@ == all.subrange(k as int, n as int),
            out@ == all.take(k as int).filter(keep),
        decreases n - k,
    {
        let se = scene.remove(0);
        assert(se == all[k as int]);
        assert(scene@ =~= all.subrange(k as int + 1, n as int));
        let mut member = false;
        let mut i: usize = 0;
        while i < members.len()
            invariant
                i <= members@.len(),
                se == all[k as int],
                member == (exists|j: int| 0 <= j < i && j as u32 == se.id && in_chunk(members@, chunk_entities@, coord, j)),
            decreases members@.len() - i,
        {
            let hit = i as u32 == se.id && members[i].1 == coord && u64_in(chunk_entities, members[i].0);
            if hit {
                member = true;
            }
            proof {
                if hit {
                    assert(in_chunk(members@, chunk_entities@, coord, i as int));
                }
                assert forall|j: int| 0 <= j < i + 1 && j as u32 == se.id && in_chunk(members@, chunk_entities@, coord, j)
                    implies member by {
                    if j == i as int {
                        assert(hit);
                    }
                }
            }
            i = i + 1;
        }
        assert(all.take(k as int + 1).drop_last() =~= all.take(k as int));
        assert(member == chunk_keeps(members@, chunk_entities@, coord, se));
        assert(member == keep(all[k as int]));
        assert(all.take(k as int + 1).last() == all[k as int]);
        if member {
            out.push(se);
        }
        proof {
            reveal(Seq::filter);
            assert(all.take(k as int + 1).filter(keep) == (if keep(all[k as int]) { all.take(k as int).filter(keep).push(all[k as int]) } else { all.take(k as int).filter(keep) }));
        }
        k = k + 1;
    }
    assert(all.take(n as int) =~= all);
    if out.len() == 0 {
        None
    } else {
        Some(out)
    }
}

fn u64_in(v: &Vec<u64>, x: u64) -> (r: bool)
    ensures
        r == v@.contains(x),
{
    let mut i: usize = 0;
    while i < v.len()
        invariant
            i <= v@.len(),
            forall|j: int| 0 <= j < i ==> v@[j] != x,
        decreases v@.len() - i,
    {
        if v[i] == x {
            assert(v@[i as int] == x);
            return true;
        }
        i = i + 1;
    }
    false
}

/// No scene id occurs twice.
pub open spec fn distinct_scene_ids(es: Seq<SceneEntityRef>) -> bool {
    forall|a: int, b: int| 0 <= a < b < es.len() ==> (#[trigger] es[a]).id != (#[trigger] es[b]).id
}

/// The parent that entity `j` names, found by id.
pub open spec fn named_parent(es: Seq<SceneEntityRef>, j: int) -> Option<int> {
    match es[j].parent {
        Some(pid) => last_with_id(es, pid),
        None => None,
    }
}

proof fn lemma_distinct_last_with_id(es: Seq<SceneEntityRef>, k: int)
    requires
        distinct_scene_ids(es),
        0 <= k < es.len(),
    ensures
        last_with_id(es, es[k].id) == Some(k),
    decreases es.len(),
{
    if k < es.len() - 1 {
        let d = es.drop_last();
        assert(es.last() == es[es.len() - 1]);
        assert(d[k] == es[k]);
        assert(distinct_scene_ids(d)) by {
            assert forall|a: int, b: int| 0 <= a < b < d.len() implies (#[trigger] d[a]).id != (#[trigger] d[b]).id by {
                assert(d[a] == es[a] && d[b] == es[b]);
            }
        }
        lemma_distinct_last_with_id(d, k);
    }
}

proof fn lemma_distinct_parent_after(es: Seq<SceneEntityRef>, j: int, n: int)
    requires
        distinct_scene_ids(es),
        0 <= j < es.len(),
        0 <= n <= es.len(),
    ensures
        parent_after(es, j, n) == (if j < n { named_parent(es, j) } else { None }),
    decreases n,
{
    if n > 0 {
        lemma_distinct_parent_after(es, j, n - 1);
        lemma_distinct_last_with_id(es, n - 1);
    }
}

/// With distinct scene ids, each entity's parent is the entity that holds
/// the parent id it names (none when it names none, or no entity holds it),
/// and each entity lists exactly the entities that name it as parent.
pub proof fn law_parent_by_id(es: Seq<SceneEntityRef>, j: int)
    requires
        distinct_scene_ids(es),
        0 <= j < es.len(),
    ensures
        parent_after(es, j, es.len() as int) == named_parent(es, j),
        forall|c: int| 0 <= c < es.len() ==> (children_after(es, j, es.len() as int).contains(c) <==> named_parent(es, c) == Some(j)),
{
    lemma_distinct_parent_after(es, j, es.len() as int);
    lemma_distinct_children_after(es, j, es.len() as int);
}

proof fn lemma_distinct_children_after(es: Seq<SceneEntityRef>, p: int, n: int)
    requires
        distinct_scene_ids(es),
        0 <= n <= es.len(),
    ensures
        forall|c: int| 0 <= c < es.len() ==> (children_after(es, p, n).contains(c) <==> (c < n && named_parent(es, c) == Some(p))),
    decreases n,
{
    if n > 0 {
        lemma_distinct_children_after(es, p, n - 1);
        lemma_distinct_last_with_id(es, n - 1);
        let prev = children_after(es, p, n - 1);
        assert forall|c: int| 0 <= c < es.len() implies (children_after(es, p, n).contains(c) <==> (c < n && named_parent(es, c) == Some(p))) by {
            if named_parent(es, n - 1) == Some(p) {
                assert(children_after(es, p, n) == prev.push(n - 1));
                assert(prev.push(n - 1)[prev.len() as int] == n - 1);
                let pushed = prev.push(n - 1);
                if pushed.contains(c) && c != n - 1 {
                    let i = choose|i: int| 0 <= i < pushed.len() && #[trigger] pushed[i] == c;
                    assert(prev[i] == c);
                }
                if prev.contains(c) {
                    let i = choose|i: int| 0 <= i < prev.len() && #[trigger] prev[i] == c;
                    assert(prev.push(n - 1)[i] == c);
                }
            } else {
                assert(children_after(es, p, n) == prev);
            }
        }
    }
}

/// Saving then loading keeps the hierarchy: when a scene was saved from
/// `saved` (ids by position, parents by the saved position of the parent
/// entity), loading it gives each entity, as parent, the saved position of
/// its parent entity. (Scene ids are 32-bit, so at most 2^32 entities.)
pub proof fn law_save_load_keeps_parents(saved: Seq<SavedEntity>, scene: Seq<SceneEntityRef>, j: int)
    requires
        saved.len() <= 0x1_0000_0000,
        scene.len() == saved.len(),
        forall|i: int| 0 <= i < saved.len() ==> (#[trigger] scene[i]).id == saved_id(i),
        forall|i: int| 0 <= i < saved.len() ==> (#[trigger] scene[i]).parent == saved_parent(saved, saved[i].parent),
        0 <= j < saved.len(),
    ensures
        parent_after(scene, j, scene.len() as int) == (match saved[j].parent {
            Some(p) => last_position(saved, p),
            None => None,
        }),
{
    assert(distinct_scene_ids(scene)) by {
        assert forall|a: int, b: int| 0 <= a < b < scene.len() implies (#[trigger] scene[a]).id != (#[trigger] scene[b]).id by {
            assert(scene[a].id == a as u32 && scene[b].id == b as u32);
            assert(a as u32 == a && b as u32 == b);
        }
    }
    law_parent_by_id(scene, j);
    match saved[j].parent {
        Some(p) => {
            match last_position(saved, p) {
                Some(k) => {
                    lemma_last_position_in_range(saved, p);
                    assert(scene[k].id == k as u32);
                    lemma_distinct_last_with_id(scene, k);
                },
                None => {},
            }
        },
        None => {},
    }
}

proof fn lemma_last_position_in_range(es: Seq<SavedEntity>, e: u64)
    ensures
        match last_position(es, e) {
            Some(k) => 0 <= k < es.len(),
            None => true,
        },
    decreases es.len(),
{
    if es.len() > 0 {
        lemma_last_position_in_range(es.drop_last(), e);
    }
}

} // verus!
