//! Draw batching for the 3D renderer: partitioning draw commands by blend
//! mode, ordering opaque draws for pipeline/material/mesh coherence, and
//! merging adjacent draws that continue one another.

use vstd::prelude::*;
use crate::handles::{MaterialHandle, MeshHandle};

verus! {

/// Shading model of a material.
#[derive(Debug, Clone, Copy, PartialEq, Eq, Hash, Structural)]
pub enum MaterialType {
    Unlit,
    Lit,
    PBR,
}

/// How a material blends with what is behind it.
#[derive(Debug, Clone, Copy, PartialEq, Eq, Hash, Structural)]
pub enum BlendMode3D {
    Opaque,
    AlphaBlend,
    Additive,
}

/// Which faces a material culls.
#[derive(Debug, Clone, Copy, PartialEq, Eq, Hash, Structural)]
pub enum CullMode3D {
    Back,
    Front,
    Disabled,
}

/// The render-pipeline state a material needs.
#[derive(Debug, Clone, Copy, PartialEq, Eq, Hash, Structural)]
pub struct PipelineKey {
    pub material_type: MaterialType,
    pub blend_mode: BlendMode3D,
    pub cull_mode: CullMode3D,
    pub depth_write: bool,
}

/// A queued draw command (mesh + material + instances).
#[derive(Debug, Clone, Copy, PartialEq, Eq, Structural)]
pub struct DrawCmd {
    pub mesh: MeshHandle,
    pub material: MaterialHandle,
    pub instance_offset: u32,
    pub instance_count: u32,
}

/// One draw call: a run of draw commands merged into a single instance range.
#[derive(Debug, Clone, Copy, PartialEq, Eq, Structural)]
pub struct DrawBatch {
    pub mesh: MeshHandle,
    pub material: MaterialHandle,
    pub instance_offset: u32,
    pub instance_count: u32,
}

/// Statistics from a single frame's draw batching.
#[derive(Debug, Clone, Copy, PartialEq, Eq, Structural)]
pub struct BatchStats3D {
    /// Number of draw calls issued.
    pub draw_calls: u32,
    /// Number of pipeline switches.
    pub pipeline_switches: u32,
    /// Number of material bind group switches.
    pub material_switches: u32,
    /// Total instances rendered.
    pub total_instances: u32,
    /// Total triangles rendered (instances * triangles-per-mesh).
    pub total_triangles: u32,
    /// Draw commands culled by frustum.
    pub culled_draws: u32,
    /// Instances culled by frustum.
    pub culled_instances: u32,
}

impl Default for BatchStats3D {
    fn default() -> (s: Self)
        ensures
            s == (BatchStats3D {
                draw_calls: 0,
                pipeline_switches: 0,
                material_switches: 0,
                total_instances: 0,
                total_triangles: 0,
                culled_draws: 0,
                culled_instances: 0,
            }),
    {
        BatchStats3D {
            draw_calls: 0,
            pipeline_switches: 0,
            material_switches: 0,
            total_instances: 0,
            total_triangles: 0,
            culled_draws: 0,
            culled_instances: 0,
        }
    }
}

/// Rank of a material type in the draw order.
pub open spec fn material_type_rank(t: MaterialType) -> u8 {
    match t {
        MaterialType::Unlit => 0,
        MaterialType::Lit => 1,
        MaterialType::PBR => 2,
    }
}

/// Rank of a blend mode in the draw order.
pub open spec fn blend_mode_rank(b: BlendMode3D) -> u8 {
    match b {
        BlendMode3D::Opaque => 0,
        BlendMode3D::AlphaBlend => 1,
        BlendMode3D::Additive => 2,
    }
}

/// Sort key for draw commands: (material type, blend mode, depth write,
/// material index, mesh index).
pub fn pipeline_key_sort_tuple(key: &PipelineKey, material_idx: u32, mesh_idx: u32) -> (r: (u8, u8, bool, u32, u32))
    ensures
        r == (material_type_rank(key.material_type), blend_mode_rank(key.blend_mode), key.depth_write, material_idx, mesh_idx),
{
    let mt: u8 = match key.material_type {
        MaterialType::Unlit => 0,
        MaterialType::Lit => 1,
        MaterialType::PBR => 2,
    };
    let bm: u8 = match key.blend_mode {
        BlendMode3D::Opaque => 0,
        BlendMode3D::AlphaBlend => 1,
        BlendMode3D::Additive => 2,
    };
    (mt, bm, key.depth_write, material_idx, mesh_idx)
}

/// Strict lexicographic order on sort tuples (`false` before `true`).
pub open spec fn tuple_lt(a: (u8, u8, bool, u32, u32), b: (u8, u8, bool, u32, u32)) -> bool {
    if a.0 != b.0 {
        a.0 < b.0
    } else if a.1 != b.1 {
        a.1 < b.1
    } else if a.2 != b.2 {
        !a.2 && b.2
    } else if a.3 != b.3 {
        a.3 < b.3
    } else {
        a.4 < b.4
    }
}

/// Command `i` names a known material.
pub open spec fn material_known(cmds: Seq<DrawCmd>, keys: Seq<PipelineKey>, i: int) -> bool {
    (cmds[i].material.0 as int) < keys.len()
}

/// Every command listed in `order` names a known material.
pub open spec fn materials_known_in(cmds: Seq<DrawCmd>, keys: Seq<PipelineKey>, order: Seq<usize>) -> bool {
    forall|k: int| 0 <= k < order.len() ==> material_known(cmds, keys, #[trigger] order[k] as int)
}

/// The sort tuple of command `i`.
pub open spec fn cmd_tuple(cmds: Seq<DrawCmd>, keys: Seq<PipelineKey>, i: int) -> (u8, u8, bool, u32, u32) {
    let c = cmds[i];
    let k = keys[c.material.0 as int];
    (material_type_rank(k.material_type), blend_mode_rank(k.blend_mode), k.depth_write, c.material.0, c.mesh.0)
}

/// Command `a` is drawn before command `b`: by sort tuple, and by submission
/// order among equal tuples (the order is stable).
pub open spec fn draws_before(cmds: Seq<DrawCmd>, keys: Seq<PipelineKey>, a: int, b: int) -> bool {
    tuple_lt(cmd_tuple(cmds, keys, a), cmd_tuple(cmds, keys, b))
        || (cmd_tuple(cmds, keys, a) == cmd_tuple(cmds, keys, b) && a < b)
}

/// Indices in strictly increasing order, each below `n`.
pub open spec fn increasing_below(s: Seq<usize>, n: int) -> bool {
    &&& forall|i: int| 0 <= i < s.len() ==> (#[trigger] s[i]) < n
    &&& forall|i: int, j: int| 0 <= i < j < s.len() ==> (#[trigger] s[i]) < (#[trigger] s[j])
}

/// Whether command `a` goes before command `b`.
fn before(cmds: &Vec<DrawCmd>, keys: &Vec<PipelineKey>, a: usize, b: usize) -> (r: bool)
    requires
        a < cmds@.len(),
        b < cmds@.len(),
        material_known(cmds@, keys@, a as int),
        material_known(cmds@, keys@, b as int),
    ensures
        r == draws_before(cmds@, keys@, a as int, b as int),
{
    let ca = cmds[a];
    let cb = cmds[b];
    let ta = pipeline_key_sort_tuple(&keys[ca.material.0 as usize], ca.material.0, ca.mesh.0);
    let tb = pipeline_key_sort_tuple(&keys[cb.material.0 as usize], cb.material.0, cb.mesh.0);
    if ta.0 != tb.0 {
        ta.0 < tb.0
    } else if ta.1 != tb.1 {
        ta.1 < tb.1
    } else if ta.2 != tb.2 {
        !ta.2 && tb.2
    } else if ta.3 != tb.3 {
        ta.3 < tb.3
    } else if ta.4 != tb.4 {
        ta.4 < tb.4
    } else {
        a < b
    }
}

/// `draws_before` is a strict total order on distinct command indices.
pub proof fn lemma_draws_before_order(cmds: Seq<DrawCmd>, keys: Seq<PipelineKey>, a: int, b: int, c: int)
    ensures
        !draws_before(cmds, keys, a, a),
        a != b ==> (draws_before(cmds, keys, a, b) || draws_before(cmds, keys, b, a)),
        draws_before(cmds, keys, a, b) ==> !draws_before(cmds, keys, b, a),
        draws_before(cmds, keys, a, b) && draws_before(cmds, keys, b, c) ==> draws_before(cmds, keys, a, c),
{
}

/// Split commands into opaque and blended ones (each in submission order),
/// by their material's blend mode; commands whose material is unknown are
/// dropped.
pub fn partition_draws(cmds: &Vec<DrawCmd>, keys: &Vec<PipelineKey>) -> (r: (Vec<usize>, Vec<usize>))
    ensures
        increasing_below(r.0@, cmds@.len() as int),
        increasing_below(r.1@, cmds@.len() as int),
        forall|i: int| 0 <= i < cmds@.len() ==> (r.0@.contains(i as usize) <==> (
            (cmds@[i].material.0 as int) < keys@.len() && keys@[cmds@[i].material.0 as int].blend_mode == BlendMode3D::Opaque)),
        forall|i: int| 0 <= i < cmds@.len() ==> (r.1@.contains(i as usize) <==> (
            (cmds@[i].material.0 as int) < keys@.len() && keys@[cmds@[i].material.0 as int].blend_mode != BlendMode3D::Opaque)),
{
    let mut opaque: Vec<usize> = Vec::new();
    let mut blended: Vec<usize> = Vec::new();
    let mut i: usize = 0;
    while i < cmds.len()
        invariant
            i <= cmds@.len(),
            increasing_below(opaque@, i as int),
            increasing_below(blended@, i as int),
            forall|j: int| 0 <= j < i ==> (opaque@.contains(j as usize) <==> (
                (cmds@[j].material.0 as int) < keys@.len() && keys@[cmds@[j].material.0 as int].blend_mode == BlendMode3D::Opaque)),
            forall|j: int| 0 <= j < i ==> (blended@.contains(j as usize) <==> (
                (cmds@[j].material.0 as int) < keys@.len() && keys@[cmds@[j].material.0 as int].blend_mode != BlendMode3D::Opaque)),
        decreases cmds@.len() - i,
    {
        let m = cmds[i].material.0 as usize;
        if m < keys.len() {
            match keys[m].blend_mode {
                BlendMode3D::Opaque => {
                    let ghost before = opaque@;
                    opaque.push(i);
                    proof {
                        assert forall|j: int| 0 <= j <= i implies (#[trigger] opaque@.contains(j as usize) <==> before.contains(j as usize) || j == i) by {
                            if opaque@.contains(j as usize) {
                                let k = choose|k: int| 0 <= k < opaque@.len() && opaque@[k] == j as usize;
                                if k < before.len() {
                                    assert(before[k] == j as usize);
                                }
                            }
                            if before.contains(j as usize) {
                                let k = choose|k: int| 0 <= k < before.len() && before[k] == j as usize;
                                assert(opaque@[k] == j as usize);
                            }
                            if j == i {
                                assert(opaque@[before.len() as int] == i);
                            }
                        }
                    }
                },
                _ => {
                    let ghost before = blended@;
                    blended.push(i);
                    proof {
                        assert forall|j: int| 0 <= j <= i implies (#[trigger] blended@.contains(j as usize) <==> before.contains(j as usize) || j == i) by {
                            if blended@.contains(j as usize) {
                                let k = choose|k: int| 0 <= k < blended@.len() && blended@[k] == j as usize;
                                if k < before.len() {
                                    assert(before[k] == j as usize);
                                }
                            }
                            if before.contains(j as usize) {
                                let k = choose|k: int| 0 <= k < before.len() && before[k] == j as usize;
                                assert(blended@[k] == j as usize);
                            }
                            if j == i {
                                assert(blended@[before.len() as int] == i);
                            }
                        }
                    }
                },
            }
        }
        i = i + 1;
    }
    (opaque, blended)
}

/// Swapping two positions keeps the length and the elements.
proof fn lemma_swap_keeps_elements<A>(s: Seq<A>, a: int, b: int)
    requires
        0 <= a < s.len(),
        0 <= b < s.len(),
    ensures
        s.update(a, s[b]).update(b, s[a]).len() == s.len(),
        forall|x: A| s.update(a, s[b]).update(b, s[a]).contains(x) <==> #[trigger] s.contains(x),
{
    let t = s.update(a, s[b]).update(b, s[a]);
    assert forall|x: A| t.contains(x) <==> #[trigger] s.contains(x) by {
        if t.contains(x) {
            let k = choose|k: int| 0 <= k < t.len() && t[k] == x;
            if k == a {
                if a == b { assert(s[a] == x); } else { assert(s[b] == x); }
            } else if k == b {
                assert(s[a] == x);
            } else {
                assert(s[k] == x);
            }
        }
        if s.contains(x) {
            let k = choose|k: int| 0 <= k < s.len() && s[k] == x;
            if k == a {
                assert(t[b] == x);
            } else if k == b {
                if a == b { assert(t[b] == x); } else { assert(t[a] == x); }
            } else {
                assert(t[k] == x);
            }
        }
    }
}

/// Order opaque draw commands for batching: by sort tuple (pipeline key,
/// material, mesh), keeping submission order among equal tuples.
pub fn sort_opaque_draws(cmds: &Vec<DrawCmd>, keys: &Vec<PipelineKey>, order: Vec<usize>) -> (r: Vec<usize>)
    requires
        materials_known_in(cmds@, keys@, order@),
        increasing_below(order@, cmds@.len() as int),
    ensures
        r@.len() == order@.len(),
        forall|x: usize| r@.contains(x) <==> #[trigger] order@.contains(x),
        forall|i: int, j: int| 0 <= i < j < r@.len() ==> draws_before(cmds@, keys@, #[trigger] r@[i] as int, #[trigger] r@[j] as int),
{
    let mut v = order;
    let n = v.len();
    if n == 0 {
        return v;
    }
    let mut i: usize = 1;
    while i < n
        invariant
            n == v@.len(),
            n == order@.len(),
            1 <= i <= n,
            forall|x: usize| v@.contains(x) <==> #[trigger] order@.contains(x),
            forall|k: int| 0 <= k < n ==> (#[trigger] v@[k]) < cmds@.len() && material_known(cmds@, keys@, v@[k] as int),
            forall|a: int, b: int| 0 <= a < b < n ==> (#[trigger] v@[a]) != (#[trigger] v@[b]),
            forall|a: int, b: int| 0 <= a < b < i ==> draws_before(cmds@, keys@, #[trigger] v@[a] as int, #[trigger] v@[b] as int),
        decreases n - i,
    {
        let mut j: usize = i;
        while j > 0 && before(cmds, keys, v[j], v[j - 1])
            invariant
                    n == v@.len(),
                1 <= i < n,
                j <= i,
                forall|x: usize| v@.contains(x) <==> #[trigger] order@.contains(x),
                forall|k: int| 0 <= k < n ==> (#[trigger] v@[k]) < cmds@.len() && material_known(cmds@, keys@, v@[k] as int),
                forall|a: int, b: int| 0 <= a < b < n ==> (#[trigger] v@[a]) != (#[trigger] v@[b]),
                forall|a: int, b: int| 0 <= a < b < j ==> draws_before(cmds@, keys@, #[trigger] v@[a] as int, #[trigger] v@[b] as int),
                forall|a: int, b: int| j < a < b <= i ==> draws_before(cmds@, keys@, #[trigger] v@[a] as int, #[trigger] v@[b] as int),
                forall|a: int, b: int| 0 <= a < j && j < b <= i ==> draws_before(cmds@, keys@, #[trigger] v@[a] as int, #[trigger] v@[b] as int),
                forall|b: int| j < b <= i ==> draws_before(cmds@, keys@, v@[j as int] as int, #[trigger] v@[b] as int),
            decreases j,
        {
            let x = v[j];
            let y = v[j - 1];
            proof {
                lemma_swap_keeps_elements(v@, j as int, j - 1);
                assert forall|b: int| j < b <= i implies draws_before(cmds@, keys@, y as int, #[trigger] v@[b] as int) by {
                    lemma_draws_before_order(cmds@, keys@, y as int, x as int, v@[b] as int);
                    lemma_draws_before_order(cmds@, keys@, x as int, y as int, 0);
                }
                lemma_draws_before_order(cmds@, keys@, x as int, y as int, 0);
            }
            v.set(j, y);
            v.set(j - 1, x);
            proof {
                assert forall|a: int, b: int| 0 <= a < b < n implies (#[trigger] v@[a]) != (#[trigger] v@[b]) by {
                    let old_a = if a == j { j - 1 } else if a == j - 1 { j as int } else { a };
                    let old_b = if b == j { j - 1 } else if b == j - 1 { j as int } else { b };
                    assert(old_a != old_b);
                }
            }
            j = j - 1;
        }
        proof {
            if j > 0 {
                let x = v@[j as int];
                let y = v@[j - 1];
                lemma_draws_before_order(cmds@, keys@, y as int, x as int, 0);
                assert(draws_before(cmds@, keys@, y as int, x as int));
            }
            assert forall|a: int, b: int| 0 <= a < b < i + 1 implies draws_before(cmds@, keys@, #[trigger] v@[a] as int, #[trigger] v@[b] as int) by {
                if a < j && b == j {
                    if a == j - 1 {
                    } else {
                        lemma_draws_before_order(cmds@, keys@, v@[a] as int, v@[j - 1] as int, v@[j as int] as int);
                    }
                }
            }
        }
        i = i + 1;
    }
    v
}

/// Total instances of commands `start..end`.
pub open spec fn run_count(cmds: Seq<DrawCmd>, start: int, end: int) -> int
    decreases end - start,
{
    if end <= start {
        0
    } else {
        run_count(cmds, start, end - 1) + cmds[end - 1].instance_count
    }
}

/// Command `j` continues the run that starts at `start`: same material and
/// mesh, and its instances begin where the run's instances end.
pub open spec fn continues_run(cmds: Seq<DrawCmd>, start: int, j: int) -> bool {
    &&& cmds[j].material == cmds[start].material
    &&& cmds[j].mesh == cmds[start].mesh
    &&& cmds[j].instance_offset == cmds[start].instance_offset + run_count(cmds, start, j)
}

/// One past the last command of the run that starts at `start`, scanning on
/// from `j`.
pub open spec fn run_end(cmds: Seq<DrawCmd>, start: int, j: int) -> int
    decreases cmds.len() - j,
{
    if 0 <= j < cmds.len() && continues_run(cmds, start, j) {
        run_end(cmds, start, j + 1)
    } else {
        j
    }
}

/// The scan for a run's end never moves backwards, nor past the commands.
pub proof fn lemma_run_end_bounds(cmds: Seq<DrawCmd>, start: int, j: int)
    ensures
        run_end(cmds, start, j) >= j,
        0 <= j <= cmds.len() ==> run_end(cmds, start, j) <= cmds.len(),
    decreases cmds.len() - j,
{
    if 0 <= j < cmds.len() && continues_run(cmds, start, j) {
        lemma_run_end_bounds(cmds, start, j + 1);
    }
}

/// The draw batches for commands from `i` on: each maximal run of commands
/// that continue one another becomes one batch.
pub open spec fn merged_from(cmds: Seq<DrawCmd>, i: int) -> Seq<DrawBatch>
    decreases cmds.len() - i,
{
    if i < 0 || i >= cmds.len() {
        Seq::empty()
    } else {
        let e = run_end(cmds, i, i + 1);
        proof {
            lemma_run_end_bounds(cmds, i, i + 1);
        }
        seq![DrawBatch {
            mesh: cmds[i].mesh,
            material: cmds[i].material,
            instance_offset: cmds[i].instance_offset,
            instance_count: run_count(cmds, i, e) as u32,
        }] + merged_from(cmds, e)
    }
}

/// No command's instance range runs past `u32::MAX`.
pub open spec fn ranges_fit(cmds: Seq<DrawCmd>) -> bool {
    forall|k: int| 0 <= k < cmds.len() ==> (#[trigger] cmds[k]).instance_offset + cmds[k].instance_count <= u32::MAX
}

/// Merge adjacent draws with the same material and mesh whose instance
/// ranges continue one another into single draw calls.
pub fn merge_adjacent_draws(cmds: &[DrawCmd]) -> (r: Vec<DrawBatch>)
    requires
        ranges_fit(cmds@),
    ensures
        r@ == merged_from(cmds@, 0),
{
    let n = cmds.len();
    let mut out: Vec<DrawBatch> = Vec::new();
    let mut i: usize = 0;
    while i < n
        invariant
            n == cmds@.len(),
            ranges_fit(cmds@),
            i <= n,
            out@ + merged_from(cmds@, i as int) == merged_from(cmds@, 0),
        decreases n - i,
    {
        let mut count: u32 = cmds[i].instance_count;
        let mut j: usize = i + 1;
        assert(run_count(cmds@, i as int, i as int) == 0);
        assert(run_count(cmds@, i as int, i + 1) == cmds@[i as int].instance_count);
        while j < n
            && cmds[j].material == cmds[i].material
            && cmds[j].mesh == cmds[i].mesh
            && cmds[j].instance_offset == cmds[i].instance_offset + count
            invariant
                n == cmds@.len(),
                ranges_fit(cmds@),
                i < j <= n,
                count == run_count(cmds@, i as int, j as int),
                cmds@[i as int].instance_offset + count <= u32::MAX,
                run_end(cmds@, i as int, i + 1) == run_end(cmds@, i as int, j as int),
            decreases n - j,
        {
            assert(continues_run(cmds@, i as int, j as int));
            count = count + cmds[j].instance_count;
            j = j + 1;
        }
        proof {
            if j < n {
                assert(!continues_run(cmds@, i as int, j as int));
            }
            assert(run_end(cmds@, i as int, j as int) == j);
        }
        let batch = DrawBatch {
            mesh: cmds[i].mesh,
            material: cmds[i].material,
            instance_offset: cmds[i].instance_offset,
            instance_count: count,
        };
        proof {
            assert(merged_from(cmds@, i as int) == seq![batch] + merged_from(cmds@, j as int));
            assert(out@.push(batch) + merged_from(cmds@, j as int) =~= out@ + merged_from(cmds@, i as int));
        }
        out.push(batch);
        i = j;
    }
    assert(merged_from(cmds@, n as int) =~= Seq::<DrawBatch>::empty());
    assert(out@ + merged_from(cmds@, n as int) =~= out@);
    out
}

/// Total instances of a list of batches.
pub open spec fn batches_count(b: Seq<DrawBatch>) -> int
    decreases b.len(),
{
    if b.len() == 0 {
        0
    } else {
        b[0].instance_count + batches_count(b.drop_first())
    }
}

/// Instance counts of consecutive ranges add up.
proof fn lemma_run_count_split(cmds: Seq<DrawCmd>, a: int, b: int, c: int)
    requires
        a <= b <= c,
    ensures
        run_count(cmds, a, b) + run_count(cmds, b, c) == run_count(cmds, a, c),
    decreases c - b,
{
    if b < c {
        lemma_run_count_split(cmds, a, b, c - 1);
    }
}

/// Merging neither loses nor invents instances: the batches from position
/// `i` on draw as many instances as the commands from `i` on.
pub proof fn law_merge_keeps_instance_total(cmds: Seq<DrawCmd>, i: int)
    requires
        ranges_fit(cmds),
        0 <= i <= cmds.len(),
    ensures
        batches_count(merged_from(cmds, i)) == run_count(cmds, i, cmds.len() as int),
    decreases cmds.len() - i,
{
    if i < cmds.len() {
        let e = run_end(cmds, i, i + 1);
        lemma_run_end_bounds(cmds, i, i + 1);
        law_merge_keeps_instance_total(cmds, e);
        lemma_run_count_split(cmds, i, e, cmds.len() as int);
        assert(run_count(cmds, i, i) == 0);
        assert(run_count(cmds, i, i + 1) == cmds[i].instance_count);
        assert(cmds[i].instance_offset + cmds[i].instance_count <= u32::MAX);
        lemma_run_count_fits(cmds, i, i + 1);
        let m = merged_from(cmds, i);
        assert(m.drop_first() =~= merged_from(cmds, e));
    } else {
        assert(merged_from(cmds, i) =~= Seq::<DrawBatch>::empty());
    }
}

/// A run's instance count fits the `u32` its batch records.
proof fn lemma_run_count_fits(cmds: Seq<DrawCmd>, start: int, j: int)
    requires
        ranges_fit(cmds),
        0 <= start < j <= cmds.len(),
        cmds[start].instance_offset + run_count(cmds, start, j) <= u32::MAX,
    ensures
        run_count(cmds, start, run_end(cmds, start, j)) <= u32::MAX,
        run_count(cmds, start, run_end(cmds, start, j)) >= 0,
    decreases cmds.len() - j,
{
    if j < cmds.len() && continues_run(cmds, start, j) {
        lemma_run_count_fits(cmds, start, j + 1);
    }
    lemma_run_count_nonneg(cmds, start, j);
}

/// Instance counts are never negative.
proof fn lemma_run_count_nonneg(cmds: Seq<DrawCmd>, a: int, b: int)
    ensures
        run_count(cmds, a, b) >= 0,
    decreases b - a,
{
    if b > a {
        lemma_run_count_nonneg(cmds, a, b - 1);
    }
}

} // verus!
