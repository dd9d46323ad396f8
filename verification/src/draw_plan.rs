//! The order of GPU commands for a frame's draw list when every draw is
//! issued on its own: pipeline and material binds only when they change,
//! static meshes drawn from the shared mesh buffer with runs of adjacent
//! opaque draws merged, skinned meshes from their own buffers, and the batch
//! statistics this gives.

use vstd::prelude::*;
use crate::batching::{BatchStats3D, DrawCmd, PipelineKey, ranges_fit};

verus! {

/// Meshes whose handle has this bit set are skinned; the other bits index
/// the skinned meshes.
pub const SKINNED_MESH_BIT: u32 = 0x8000_0000;

/// Where a static mesh lies in the shared mesh buffer.
#[derive(Debug, Clone, Copy, PartialEq, Eq, Structural)]
pub struct MeshRegion {
    pub index_offset: u32,
    pub index_count: u32,
    pub vertex_offset: i32,
}

/// One command of the render pass.
#[derive(Debug, Clone, Copy, PartialEq, Eq, Structural)]
pub enum DrawOp {
    /// Switch to the pipeline of this key.
    SetPipeline(PipelineKey),
    /// Bind the bind group of this material.
    SetMaterial(u32),
    /// Bind the shared vertex and index buffers of the static meshes.
    BindMegaBuffer,
    /// Bind the buffers of this skinned mesh.
    BindSkinnedMesh(u32),
    /// Draw `index_count` indices from `first_index`, vertices shifted by
    /// `base_vertex`, for `instance_count` instances from `first_instance`.
    DrawIndexed { first_index: u32, index_count: u32, base_vertex: i32, first_instance: u32, instance_count: u32 },
}

/// What a frame draws from: the commands, the order to draw them in (opaque
/// ones first, `opaque` of them), each material's pipeline key and whether
/// its pipeline exists, the index count of each skinned mesh and the region
/// of each static mesh.
pub struct DrawScene {
    pub cmds: Seq<DrawCmd>,
    pub ordered: Seq<usize>,
    pub opaque: int,
    pub keys: Seq<PipelineKey>,
    pub ready: Seq<bool>,
    pub skinned: Seq<u32>,
    pub regions: Seq<MeshRegion>,
}

/// What is bound while the pass runs: the pipeline, the material, and
/// whether the shared mesh buffer (rather than a skinned mesh's) is bound.
pub struct BindState {
    pub key: Option<PipelineKey>,
    pub material: Option<u32>,
    pub mega: bool,
}

/// Running totals of the batch statistics.
pub struct Counts {
    pub draws: int,
    pub pipelines: int,
    pub materials: int,
    pub instances: int,
    pub triangles: int,
}

/// No statistics yet.
pub open spec fn no_counts() -> Counts {
    Counts { draws: 0, pipelines: 0, materials: 0, instances: 0, triangles: 0 }
}

/// The sum of two sets of statistics.
pub open spec fn add_counts(a: Counts, b: Counts) -> Counts {
    Counts {
        draws: a.draws + b.draws,
        pipelines: a.pipelines + b.pipelines,
        materials: a.materials + b.materials,
        instances: a.instances + b.instances,
        triangles: a.triangles + b.triangles,
    }
}

/// The command drawn at position `i` of the order.
pub open spec fn cmd_at(s: DrawScene, i: int) -> DrawCmd {
    s.cmds[s.ordered[i] as int]
}

/// Command `j` of the order continues the run that starts at `oi` and has
/// `count` instances so far: same material and mesh, next instances.
pub open spec fn continues(s: DrawScene, oi: int, j: int, count: int) -> bool {
    &&& cmd_at(s, j).material == cmd_at(s, oi).material
    &&& cmd_at(s, j).mesh == cmd_at(s, oi).mesh
    &&& cmd_at(s, j).instance_offset == cmd_at(s, oi).instance_offset + count
}

/// How many opaque commands from position `j` on join the run that starts at
/// `oi` with `count` instances.
pub open spec fn merge_extra(s: DrawScene, oi: int, j: int, count: int) -> nat
    decreases s.opaque - j,
{
    if j < s.opaque && continues(s, oi, j, count) {
        1 + merge_extra(s, oi, j + 1, count + cmd_at(s, j).instance_count)
    } else {
        0
    }
}

/// The instance count of the run that starts at `oi`, continued from
/// position `j` with `count` instances.
pub open spec fn merged_count(s: DrawScene, oi: int, j: int, count: int) -> int
    decreases s.opaque - j,
{
    if j < s.opaque && continues(s, oi, j, count) {
        merged_count(s, oi, j + 1, count + cmd_at(s, j).instance_count)
    } else {
        count
    }
}

/// The statistics of one draw call of `count` instances of a mesh with
/// `index_count` indices.
pub open spec fn draw_counts(count: int, index_count: u32) -> Counts {
    Counts { draws: 1, pipelines: 0, materials: 0, instances: count, triangles: count * (index_count / 3) as int }
}

/// Processing position `oi` in bind state `st`: the commands it adds, the
/// state after, the position it moves on to and the statistics it adds.
/// A command with an unknown material, or whose pipeline is missing when a
/// switch is needed, adds nothing; one with an unknown mesh adds only its
/// binds.
pub open spec fn step(s: DrawScene, oi: int, st: BindState) -> (Seq<DrawOp>, BindState, int, Counts) {
    let c = cmd_at(s, oi);
    let m = c.material.0;
    if m as int >= s.keys.len() {
        (seq![], st, oi + 1, no_counts())
    } else if st.key != Some(s.keys[m as int]) && !s.ready[m as int] {
        (seq![], st, oi + 1, no_counts())
    } else {
        let switch = st.key != Some(s.keys[m as int]);
        let ops1: Seq<DrawOp> = if switch { seq![DrawOp::SetPipeline(s.keys[m as int])] } else { seq![] };
        let mat0 = if switch { None } else { st.material };
        let rebind = mat0 != Some(m);
        let ops2: Seq<DrawOp> = ops1 + if rebind { seq![DrawOp::SetMaterial(m)] } else { seq![] };
        let binds = Counts {
            draws: 0,
            pipelines: if switch { 1 } else { 0 },
            materials: if rebind { 1 } else { 0 },
            instances: 0,
            triangles: 0,
        };
        let st2 = BindState { key: Some(s.keys[m as int]), material: Some(m), mega: st.mega };
        if c.mesh.0 & SKINNED_MESH_BIT != 0 {
            let idx = c.mesh.0 & !SKINNED_MESH_BIT;
            if idx as int >= s.skinned.len() {
                (ops2, st2, oi + 1, binds)
            } else {
                let ic = s.skinned[idx as int];
                let ops3 = ops2 + if st.mega { seq![DrawOp::BindSkinnedMesh(idx)] } else { seq![] };
                let draw = DrawOp::DrawIndexed {
                    first_index: 0,
                    index_count: ic,
                    base_vertex: 0,
                    first_instance: c.instance_offset,
                    instance_count: c.instance_count,
                };
                (ops3.push(draw), BindState { mega: false, ..st2 }, oi + 1,
                    add_counts(binds, draw_counts(c.instance_count as int, ic)))
            }
        } else if c.mesh.0 as int >= s.regions.len() {
            (ops2, st2, oi + 1, binds)
        } else {
            let r = s.regions[c.mesh.0 as int];
            let ops3 = ops2 + if !st.mega { seq![DrawOp::BindMegaBuffer] } else { seq![] };
            let (extra, count) = if oi < s.opaque {
                (merge_extra(s, oi, oi + 1, c.instance_count as int), merged_count(s, oi, oi + 1, c.instance_count as int))
            } else {
                (0nat, c.instance_count as int)
            };
            let draw = DrawOp::DrawIndexed {
                first_index: r.index_offset,
                index_count: r.index_count,
                base_vertex: r.vertex_offset,
                first_instance: c.instance_offset,
                instance_count: count as u32,
            };
            (ops3.push(draw), BindState { mega: true, ..st2 }, oi + 1 + extra,
                add_counts(binds, draw_counts(count, r.index_count)))
        }
    }
}

/// The commands and statistics of drawing the order from position `oi` on,
/// in bind state `st`.
pub open spec fn plan_from(s: DrawScene, oi: int, st: BindState) -> (Seq<DrawOp>, Counts)
    decreases s.ordered.len() - oi,
{
    if oi < 0 || oi >= s.ordered.len() {
        (seq![], no_counts())
    } else {
        let (ops, st2, next, c) = step(s, oi, st);
        if next <= s.ordered.len() {
            let (rest, c2) = plan_from(s, next, st2);
            (ops + rest, add_counts(c, c2))
        } else {
            (ops, c)
        }
    }
}

/// The bind state at the start of the pass: nothing bound but the shared
/// mesh buffer.
pub open spec fn start_state() -> BindState {
    BindState { key: None, material: None, mega: true }
}

/// The scene of the given lists.
pub open spec fn scene_of(
    cmds: Seq<DrawCmd>,
    ordered: Seq<usize>,
    opaque: int,
    keys: Seq<PipelineKey>,
    ready: Seq<bool>,
    skinned: Seq<u32>,
    regions: Seq<MeshRegion>,
) -> DrawScene {
    DrawScene { cmds, ordered, opaque, keys, ready, skinned, regions }
}

/// The statistics fit their `u32` counters.
pub open spec fn counts_fit(c: Counts) -> bool {
    &&& c.draws <= u32::MAX
    &&& c.pipelines <= u32::MAX
    &&& c.materials <= u32::MAX
    &&& c.instances <= u32::MAX
    &&& c.triangles <= u32::MAX
}

/// Statistics are never negative.
pub open spec fn counts_nonneg(c: Counts) -> bool {
    c.draws >= 0 && c.pipelines >= 0 && c.materials >= 0 && c.instances >= 0 && c.triangles >= 0
}

proof fn lemma_merged_count_ge(s: DrawScene, oi: int, j: int, count: int)
    requires
        count >= 0,
    ensures
        merged_count(s, oi, j, count) >= count,
        j + merge_extra(s, oi, j, count) <= if j < s.opaque { s.opaque } else { j },
    decreases s.opaque - j,
{
    if j < s.opaque && continues(s, oi, j, count) {
        lemma_merged_count_ge(s, oi, j + 1, count + cmd_at(s, j).instance_count);
    }
}

proof fn lemma_plan_nonneg(s: DrawScene, oi: int, st: BindState)
    ensures
        counts_nonneg(plan_from(s, oi, st).1),
    decreases s.ordered.len() - oi,
{
    if 0 <= oi < s.ordered.len() {
        let (ops, st2, next, c) = step(s, oi, st);
        let c0 = cmd_at(s, oi);
        if oi < s.opaque {
            lemma_merged_count_ge(s, oi, oi + 1, c0.instance_count as int);
        }
        assert(counts_nonneg(c)) by (nonlinear_arith)
            requires
                c == step(s, oi, st).3,
                oi < s.opaque ==> merged_count(s, oi, oi + 1, c0.instance_count as int) >= 0,
                c0 == cmd_at(s, oi);
        if next <= s.ordered.len() {
            lemma_plan_nonneg(s, next, st2);
        }
    }
}

/// The material bound after the commands `ops`: that of the last material
/// bind among them.
pub open spec fn bound_material(ops: Seq<DrawOp>) -> Option<u32>
    decreases ops.len(),
{
    if ops.len() == 0 {
        None
    } else {
        match ops.last() {
            DrawOp::SetMaterial(m) => Some(m),
            _ => bound_material(ops.drop_last()),
        }
    }
}

/// Instance `t` is an instance of some command of the order that uses
/// material `m`.
pub open spec fn instance_of_material(s: DrawScene, m: u32, t: int) -> bool {
    exists|i: int|
        0 <= i < s.ordered.len() && (#[trigger] cmd_at(s, i)).material.0 == m
            && cmd_at(s, i).instance_offset <= t < cmd_at(s, i).instance_offset + cmd_at(s, i).instance_count
}

/// Command `op`, issued after `before`, is not a draw, or it draws only
/// instances of commands that use the material bound at that point.
pub open spec fn draw_uses_bound_material(s: DrawScene, before: Seq<DrawOp>, op: DrawOp) -> bool {
    match op {
        DrawOp::DrawIndexed { first_instance, instance_count, .. } => match bound_material(before) {
            Some(m) => forall|t: int| first_instance <= t < first_instance + instance_count
                ==> #[trigger] instance_of_material(s, m, t),
            None => false,
        },
        _ => true,
    }
}

/// Every command of `ops`, issued after `pre`, satisfies
/// `draw_uses_bound_material`.
pub open spec fn draws_use_bound_materials(s: DrawScene, pre: Seq<DrawOp>, ops: Seq<DrawOp>) -> bool {
    forall|p: int| 0 <= p < ops.len() ==> draw_uses_bound_material(s, pre + ops.take(p), #[trigger] ops[p])
}

/// The bind state's material is the one the commands so far bound last.
pub open spec fn material_tracked(pre: Seq<DrawOp>, st: BindState) -> bool {
    st.material matches Some(x) ==> bound_material(pre) == Some(x)
}

proof fn lemma_bound_after_push(a: Seq<DrawOp>, op: DrawOp)
    ensures
        bound_material(a.push(op)) == (match op {
            DrawOp::SetMaterial(m) => Some(m),
            _ => bound_material(a),
        }),
{
    assert(a.push(op).drop_last() =~= a);
    assert(a.push(op).last() == op);
}

proof fn lemma_merged_cover(s: DrawScene, oi: int, j: int, count: int)
    requires
        plan_inputs_ok(s),
        0 <= oi < s.ordered.len(),
        oi < j,
        count >= 0,
        cmd_at(s, oi).instance_offset + count <= u32::MAX,
        forall|t: int| cmd_at(s, oi).instance_offset <= t < cmd_at(s, oi).instance_offset + count
            ==> #[trigger] instance_of_material(s, cmd_at(s, oi).material.0, t),
    ensures
        merged_count(s, oi, j, count) >= count,
        cmd_at(s, oi).instance_offset + merged_count(s, oi, j, count) <= u32::MAX,
        forall|t: int| cmd_at(s, oi).instance_offset <= t < cmd_at(s, oi).instance_offset + merged_count(s, oi, j, count)
            ==> #[trigger] instance_of_material(s, cmd_at(s, oi).material.0, t),
    decreases s.opaque - j,
{
    if j < s.opaque && continues(s, oi, j, count) {
        let c = cmd_at(s, j);
        let off = cmd_at(s, oi).instance_offset;
        let m = cmd_at(s, oi).material.0;
        assert((s.ordered[j] as int) < s.cmds.len());
        assert(c.instance_offset + c.instance_count <= u32::MAX);
        let count2 = count + c.instance_count;
        assert forall|t: int| off <= t < off + count2 implies #[trigger] instance_of_material(s, m, t) by {
            if t >= off + count {
                assert(cmd_at(s, j).material.0 == m);
            }
        }
        lemma_merged_cover(s, oi, j + 1, count2);
    }
}

proof fn lemma_step_materials(s: DrawScene, oi: int, st: BindState, pre: Seq<DrawOp>)
    requires
        plan_inputs_ok(s),
        0 <= oi < s.ordered.len(),
        material_tracked(pre, st),
    ensures
        material_tracked(pre + step(s, oi, st).0, step(s, oi, st).1),
        draws_use_bound_materials(s, pre, step(s, oi, st).0),
{
    let c = cmd_at(s, oi);
    let m = c.material.0;
    let (ops, st2, next, cnt) = step(s, oi, st);
    assert((s.ordered[oi] as int) < s.cmds.len());
    assert(c.instance_offset + c.instance_count <= u32::MAX);
    if m as int >= s.keys.len() || (st.key != Some(s.keys[m as int]) && !s.ready[m as int]) {
        assert(pre + ops =~= pre);
    } else {
        let switch = st.key != Some(s.keys[m as int]);
        let ops1: Seq<DrawOp> = if switch { seq![DrawOp::SetPipeline(s.keys[m as int])] } else { seq![] };
        let mat0 = if switch { None } else { st.material };
        let rebind = mat0 != Some(m);
        let ops2: Seq<DrawOp> = ops1 + if rebind { seq![DrawOp::SetMaterial(m)] } else { seq![] };
        // After the binds, `m` is bound.
        if rebind {
            assert(pre + ops2 =~= (pre + ops1).push(DrawOp::SetMaterial(m)));
            lemma_bound_after_push(pre + ops1, DrawOp::SetMaterial(m));
        } else {
            assert(pre + ops2 =~= pre);
        }
        assert(bound_material(pre + ops2) == Some(m));
        // The binds before the draw are no draws.
        assert forall|p: int| 0 <= p < ops2.len() implies draw_uses_bound_material(s, pre + ops2.take(p), #[trigger] ops2[p]) by {
            if switch && p == 0 {
                assert(ops2[p] == DrawOp::SetPipeline(s.keys[m as int]));
            } else {
                assert(ops2[p] == DrawOp::SetMaterial(m));
            }
        }
        if c.mesh.0 & SKINNED_MESH_BIT != 0 {
            let idx = c.mesh.0 & !SKINNED_MESH_BIT;
            if idx as int >= s.skinned.len() {
                assert(ops == ops2);
            } else {
                let ic = s.skinned[idx as int];
                let ops3 = ops2 + if st.mega { seq![DrawOp::BindSkinnedMesh(idx)] } else { seq![] };
                let draw = DrawOp::DrawIndexed {
                    first_index: 0,
                    index_count: ic,
                    base_vertex: 0,
                    first_instance: c.instance_offset,
                    instance_count: c.instance_count,
                };
                assert(ops == ops3.push(draw));
                if st.mega {
                    assert(pre + ops3 =~= (pre + ops2).push(DrawOp::BindSkinnedMesh(idx)));
                    lemma_bound_after_push(pre + ops2, DrawOp::BindSkinnedMesh(idx));
                } else {
                    assert(pre + ops3 =~= pre + ops2);
                }
                assert(pre + ops =~= (pre + ops3).push(draw));
                lemma_bound_after_push(pre + ops3, draw);
                assert forall|t: int| c.instance_offset <= t < c.instance_offset + c.instance_count
                    implies #[trigger] instance_of_material(s, m, t) by {
                    assert(cmd_at(s, oi).material.0 == m);
                }
                assert forall|p: int| 0 <= p < ops.len() implies draw_uses_bound_material(s, pre + ops.take(p), #[trigger] ops[p]) by {
                    if p < ops2.len() {
                        assert(ops.take(p) =~= ops2.take(p));
                        assert(ops[p] == ops2[p]);
                    } else if p < ops3.len() {
                        assert(ops[p] == DrawOp::BindSkinnedMesh(idx));
                    } else {
                        assert(ops.take(p) =~= ops3);
                    }
                }
            }
        } else if c.mesh.0 as int >= s.regions.len() {
            assert(ops == ops2);
        } else {
            let r = s.regions[c.mesh.0 as int];
            let ops3 = ops2 + if !st.mega { seq![DrawOp::BindMegaBuffer] } else { seq![] };
            let count = if oi < s.opaque { merged_count(s, oi, oi + 1, c.instance_count as int) } else { c.instance_count as int };
            assert forall|t: int| c.instance_offset <= t < c.instance_offset + c.instance_count
                implies #[trigger] instance_of_material(s, m, t) by {
                assert(cmd_at(s, oi).material.0 == m);
            }
            if oi < s.opaque {
                lemma_merged_cover(s, oi, oi + 1, c.instance_count as int);
            }
            assert(0 <= count <= u32::MAX);
            let draw = DrawOp::DrawIndexed {
                first_index: r.index_offset,
                index_count: r.index_count,
                base_vertex: r.vertex_offset,
                first_instance: c.instance_offset,
                instance_count: count as u32,
            };
            assert(ops == ops3.push(draw));
            if !st.mega {
                assert(pre + ops3 =~= (pre + ops2).push(DrawOp::BindMegaBuffer));
                lemma_bound_after_push(pre + ops2, DrawOp::BindMegaBuffer);
            } else {
                assert(pre + ops3 =~= pre + ops2);
            }
            assert(pre + ops =~= (pre + ops3).push(draw));
            lemma_bound_after_push(pre + ops3, draw);
            assert forall|p: int| 0 <= p < ops.len() implies draw_uses_bound_material(s, pre + ops.take(p), #[trigger] ops[p]) by {
                if p < ops2.len() {
                    assert(ops.take(p) =~= ops2.take(p));
                    assert(ops[p] == ops2[p]);
                } else if p < ops3.len() {
                    assert(ops[p] == DrawOp::BindMegaBuffer);
                } else {
                    assert(ops.take(p) =~= ops3);
                }
            }
        }
    }
}

proof fn lemma_plan_materials(s: DrawScene, oi: int, st: BindState, pre: Seq<DrawOp>)
    requires
        plan_inputs_ok(s),
        material_tracked(pre, st),
    ensures
        draws_use_bound_materials(s, pre, plan_from(s, oi, st).0),
    decreases s.ordered.len() - oi,
{
    if 0 <= oi < s.ordered.len() {
        let (ops, st2, next, c) = step(s, oi, st);
        lemma_step_materials(s, oi, st, pre);
        if next <= s.ordered.len() {
            lemma_plan_materials(s, next, st2, pre + ops);
            let rest = plan_from(s, next, st2).0;
            let all = ops + rest;
            assert(plan_from(s, oi, st).0 == all);
            assert forall|p: int| 0 <= p < all.len() implies draw_uses_bound_material(s, pre + all.take(p), #[trigger] all[p]) by {
                if p < ops.len() {
                    assert(all.take(p) =~= ops.take(p));
                    assert(all[p] == ops[p]);
                } else {
                    let q = p - ops.len();
                    assert(all[p] == rest[q]);
                    assert(pre + all.take(p) =~= (pre + ops) + rest.take(q));
                }
            }
        }
    }
}

/// A draw never mixes materials: every draw of a frame's plan draws only
/// instances of commands that use the material bound when it is issued (the
/// last material bind before it), so a merged run of opaque draws never
/// spans two materials.
pub proof fn law_draws_use_bound_material(s: DrawScene, p: int)
    requires
        plan_inputs_ok(s),
        0 <= p < plan_from(s, 0, start_state()).0.len(),
    ensures
        ({
            let ops = plan_from(s, 0, start_state()).0;
            match ops[p] {
                DrawOp::DrawIndexed { first_instance, instance_count, .. } => match bound_material(ops.take(p)) {
                    Some(m) => forall|t: int| first_instance <= t < first_instance + instance_count
                        ==> #[trigger] instance_of_material(s, m, t),
                    None => false,
                },
                _ => true,
            }
        }),
{
    let ops = plan_from(s, 0, start_state()).0;
    lemma_plan_materials(s, 0, start_state(), Seq::empty());
    assert(Seq::<DrawOp>::empty() + ops.take(p) =~= ops.take(p));
    assert(draw_uses_bound_material(s, Seq::<DrawOp>::empty() + ops.take(p), ops[p]));
}

/// The batch statistics as running totals.
pub open spec fn stats_counts(b: BatchStats3D) -> Counts {
    Counts {
        draws: b.draw_calls as int,
        pipelines: b.pipeline_switches as int,
        materials: b.material_switches as int,
        instances: b.total_instances as int,
        triangles: b.total_triangles as int,
    }
}

/// A bind state held in plain values.
pub open spec fn bind_view(t: (Option<PipelineKey>, Option<u32>, bool)) -> BindState {
    BindState { key: t.0, material: t.1, mega: t.2 }
}

/// What `plan_draws` needs of its arguments: the order names commands, the
/// opaque ones are a prefix of it, every material's readiness is known and
/// instance ranges fit in `u32`.
pub open spec fn plan_inputs_ok(s: DrawScene) -> bool {
    &&& forall|i: int| 0 <= i < s.ordered.len() ==> (#[trigger] s.ordered[i] as int) < s.cmds.len()
    &&& 0 <= s.opaque <= s.ordered.len()
    &&& s.ready.len() == s.keys.len()
    &&& ranges_fit(s.cmds)
}

fn add_draw(stats: &mut BatchStats3D, count: u32, index_count: u32)
    requires
        counts_fit(add_counts(stats_counts(*old(stats)), draw_counts(count as int, index_count))),
        counts_nonneg(draw_counts(count as int, index_count)),
    ensures
        stats_counts(*final(stats)) == add_counts(stats_counts(*old(stats)), draw_counts(count as int, index_count)),
        final(stats).culled_draws == old(stats).culled_draws,
        final(stats).culled_instances == old(stats).culled_instances,
{
    let tri = index_count / 3;
    assert(count as int * tri as int <= u32::MAX);
    stats.draw_calls = stats.draw_calls + 1;
    stats.total_instances = stats.total_instances + count;
    stats.total_triangles = stats.total_triangles + count * tri;
}

fn exec_step(
    ops: &mut Vec<DrawOp>,
    stats: &mut BatchStats3D,
    cmds: &Vec<DrawCmd>,
    ordered: &Vec<usize>,
    opaque_count: usize,
    keys: &Vec<PipelineKey>,
    ready: &Vec<bool>,
    skinned: &Vec<u32>,
    regions: &Vec<MeshRegion>,
    oi: usize,
    st: (Option<PipelineKey>, Option<u32>, bool),
) -> (r: (usize, (Option<PipelineKey>, Option<u32>, bool)))
    requires
        plan_inputs_ok(scene_of(cmds@, ordered@, opaque_count as int, keys@, ready@, skinned@, regions@)),
        oi < ordered@.len(),
        counts_fit(add_counts(stats_counts(*old(stats)),
            step(scene_of(cmds@, ordered@, opaque_count as int, keys@, ready@, skinned@, regions@), oi as int, bind_view(st)).3)),
    ensures
        ({
            let (sops, st2, next, c) = step(scene_of(cmds@, ordered@, opaque_count as int, keys@, ready@, skinned@, regions@), oi as int, bind_view(st));
            &&& final(ops)@ == old(ops)@ + sops
            &&& bind_view(r.1) == st2
            &&& r.0 as int == next
            &&& oi < r.0 <= ordered@.len()
            &&& stats_counts(*final(stats)) == add_counts(stats_counts(*old(stats)), c)
        }),
        final(stats).culled_draws == old(stats).culled_draws,
        final(stats).culled_instances == old(stats).culled_instances,
{
    let ghost s = scene_of(cmds@, ordered@, opaque_count as int, keys@, ready@, skinned@, regions@);
    let ghost ops0 = ops@;
    let len = ordered.len();
    let after: usize = oi + 1;
    let c = cmds[ordered[oi]];
    let m = c.material.0;
    if m as usize >= keys.len() {
        assert(ops@ =~= ops0 + Seq::<DrawOp>::empty());
        return (after, st);
    }
    let key = keys[m as usize];
    let switch = match st.0 {
        Some(k) => k != key,
        None => true,
    };
    assert(switch == (st.0 != Some(key)));
    if switch && !ready[m as usize] {
        assert(ops@ =~= ops0 + Seq::<DrawOp>::empty());
        return (after, st);
    }
    let mut mat0 = st.1;
    if switch {
        ops.push(DrawOp::SetPipeline(key));
        stats.pipeline_switches = stats.pipeline_switches + 1;
        mat0 = None;
    }
    let rebind = match mat0 {
        Some(x) => x != m,
        None => true,
    };
    if rebind {
        ops.push(DrawOp::SetMaterial(m));
        stats.material_switches = stats.material_switches + 1;
    }
    let ghost ops2 = ops@;
    assert(ops2 =~= ops0 + (if switch { seq![DrawOp::SetPipeline(key)] } else { Seq::<DrawOp>::empty() })
        + (if rebind { seq![DrawOp::SetMaterial(m)] } else { Seq::<DrawOp>::empty() }));
    let mut mega = st.2;
    if c.mesh.0 & SKINNED_MESH_BIT != 0 {
        let idx = c.mesh.0 & !SKINNED_MESH_BIT;
        if idx as usize >= skinned.len() {
            return (after, (Some(key), Some(m), mega));
        }
        let ic = skinned[idx as usize];
        if mega {
            ops.push(DrawOp::BindSkinnedMesh(idx));
            mega = false;
        }
        proof {
            let x = c.instance_count as int;
            let t = (ic / 3) as int;
            assert(x * t >= 0) by (nonlinear_arith)
                requires x >= 0, t >= 0;
        }
        ops.push(DrawOp::DrawIndexed {
            first_index: 0,
            index_count: ic,
            base_vertex: 0,
            first_instance: c.instance_offset,
            instance_count: c.instance_count,
        });
        add_draw(stats, c.instance_count, ic);
        return (after, (Some(key), Some(m), false));
    }
    if c.mesh.0 as usize >= regions.len() {
        return (after, (Some(key), Some(m), mega));
    }
    let r = regions[c.mesh.0 as usize];
    if !mega {
        ops.push(DrawOp::BindMegaBuffer);
    }
    let mut count = c.instance_count;
    let mut next = oi + 1;
    if oi < opaque_count {
        let ghost c0 = c.instance_count as int;
        proof { lemma_merged_count_ge(s, oi as int, oi + 1, c0); }
        while next < opaque_count
            invariant
                plan_inputs_ok(s),
                s == scene_of(cmds@, ordered@, opaque_count as int, keys@, ready@, skinned@, regions@),
                c == cmd_at(s, oi as int),
                oi < next <= opaque_count,
                count as int >= c0,
                c.instance_offset + count <= u32::MAX,
                (next - (oi + 1)) + merge_extra(s, oi as int, next as int, count as int)
                    == merge_extra(s, oi as int, oi + 1, c0),
                merged_count(s, oi as int, next as int, count as int) == merged_count(s, oi as int, oi + 1, c0),
            ensures
                oi < next <= opaque_count,
                c.instance_offset + count <= u32::MAX,
                (next - (oi + 1)) == merge_extra(s, oi as int, oi + 1, c0),
                count == merged_count(s, oi as int, oi + 1, c0),
            decreases opaque_count - next,
        {
            let n = cmds[ordered[next]];
            assert(n == cmd_at(s, next as int));
            if n.material.0 == c.material.0 && n.mesh.0 == c.mesh.0 && n.instance_offset == c.instance_offset + count {
                assert(continues(s, oi as int, next as int, count as int));
                assert(n.instance_offset + n.instance_count <= u32::MAX);
                count = count + n.instance_count;
                next = next + 1;
            } else {
                assert(!continues(s, oi as int, next as int, count as int));
                break;
            }
        }
    }
    proof {
        let x = count as int;
        let t = (r.index_count / 3) as int;
        assert(x * t >= 0) by (nonlinear_arith)
            requires x >= 0, t >= 0;
    }
    ops.push(DrawOp::DrawIndexed {
        first_index: r.index_offset,
        index_count: r.index_count,
        base_vertex: r.vertex_offset,
        first_instance: c.instance_offset,
        instance_count: count,
    });
    add_draw(stats, count, r.index_count);
    (next, (Some(key), Some(m), true))
}

/// The render-pass commands for the draw order `ordered` over `cmds` (the
/// first `opaque_count` being opaque), with the statistics they give: binds
/// only when the pipeline or material changes, runs of adjacent opaque draws
/// of one mesh and material merged, draws whose material, pipeline or mesh
/// is missing skipped. The culled counts are left at zero for the caller.
pub fn plan_draws(
    cmds: &Vec<DrawCmd>,
    ordered: &Vec<usize>,
    opaque_count: usize,
    keys: &Vec<PipelineKey>,
    ready: &Vec<bool>,
    skinned: &Vec<u32>,
    regions: &Vec<MeshRegion>,
) -> (r: (Vec<DrawOp>, BatchStats3D))
    requires
        plan_inputs_ok(scene_of(cmds@, ordered@, opaque_count as int, keys@, ready@, skinned@, regions@)),
        counts_fit(plan_from(scene_of(cmds@, ordered@, opaque_count as int, keys@, ready@, skinned@, regions@), 0, start_state()).1),
    ensures
        r.0@ == plan_from(scene_of(cmds@, ordered@, opaque_count as int, keys@, ready@, skinned@, regions@), 0, start_state()).0,
        stats_counts(r.1) == plan_from(scene_of(cmds@, ordered@, opaque_count as int, keys@, ready@, skinned@, regions@), 0, start_state()).1,
        r.1.culled_draws == 0,
        r.1.culled_instances == 0,
{
    let ghost s = scene_of(cmds@, ordered@, opaque_count as int, keys@, ready@, skinned@, regions@);
    let ghost total = plan_from(s, 0, start_state());
    let mut ops: Vec<DrawOp> = Vec::new();
    let mut stats = BatchStats3D {
        draw_calls: 0,
        pipeline_switches: 0,
        material_switches: 0,
        total_instances: 0,
        total_triangles: 0,
        culled_draws: 0,
        culled_instances: 0,
    };
    let mut st: (Option<PipelineKey>, Option<u32>, bool) = (None, None, true);
    let mut oi: usize = 0;
    assert(ops@ + total.0 =~= total.0);
    while oi < ordered.len()
        invariant
            s == scene_of(cmds@, ordered@, opaque_count as int, keys@, ready@, skinned@, regions@),
            total == plan_from(s, 0, start_state()),
            plan_inputs_ok(s),
            counts_fit(total.1),
            oi <= ordered@.len(),
            ops@ + plan_from(s, oi as int, bind_view(st)).0 == total.0,
            add_counts(stats_counts(stats), plan_from(s, oi as int, bind_view(st)).1) == total.1,
            counts_nonneg(stats_counts(stats)),
            stats.culled_draws == 0,
            stats.culled_instances == 0,
        decreases ordered@.len() - oi,
    {
        let ghost (sops, st2, next, c) = step(s, oi as int, bind_view(st));
        proof {
            lemma_plan_nonneg(s, next, st2);
        }
        let ghost ops_before = ops@;
        let ghost stats_before = stats_counts(stats);
        let (n, st_next) = exec_step(&mut ops, &mut stats, cmds, ordered, opaque_count, keys, ready, skinned, regions, oi, st);
        proof {
            assert(plan_from(s, oi as int, bind_view(st)) == (sops + plan_from(s, next, st2).0, add_counts(c, plan_from(s, next, st2).1)));
            assert(ops@ + plan_from(s, n as int, bind_view(st_next)).0 =~= ops_before + plan_from(s, oi as int, bind_view(st)).0);
        }
        oi = n;
        st = st_next;
    }
    (ops, stats)
}

/// The arguments of one indexed draw of a multi-draw-indirect call.
#[derive(Debug, Clone, Copy, PartialEq, Eq, Structural)]
pub struct IndirectArgs {
    pub index_count: u32,
    pub instance_count: u32,
    pub first_index: u32,
    /// The base vertex, as the bits of an `i32`.
    pub base_vertex: u32,
    pub first_instance: u32,
}

/// One command of the render pass when draws are issued indirectly.
#[derive(Debug, Clone, Copy, PartialEq, Eq, Structural)]
pub enum IndirectOp {
    /// Switch to the pipeline of this key.
    SetPipeline(PipelineKey),
    /// Bind the bind group of this material.
    SetMaterial(u32),
    /// Issue `count` draws from the arguments at `start`.
    MultiDraw { start: u32, count: u32 },
}

/// The indirect draw of the command at position `i` of the order, with its
/// pipeline key and material, if its material and mesh exist.
pub open spec fn indirect_entry(s: DrawScene, i: int) -> Option<(PipelineKey, u32, IndirectArgs)> {
    let c = cmd_at(s, i);
    let m = c.material.0;
    if m as int >= s.keys.len() {
        None
    } else if c.mesh.0 & SKINNED_MESH_BIT != 0 {
        let idx = c.mesh.0 & !SKINNED_MESH_BIT;
        if idx as int >= s.skinned.len() {
            None
        } else {
            Some((s.keys[m as int], m, IndirectArgs {
                index_count: s.skinned[idx as int],
                instance_count: c.instance_count,
                first_index: 0,
                base_vertex: 0,
                first_instance: c.instance_offset,
            }))
        }
    } else if c.mesh.0 as int >= s.regions.len() {
        None
    } else {
        let r = s.regions[c.mesh.0 as int];
        Some((s.keys[m as int], m, IndirectArgs {
            index_count: r.index_count,
            instance_count: c.instance_count,
            first_index: r.index_offset,
            base_vertex: r.vertex_offset as u32,
            first_instance: c.instance_offset,
        }))
    }
}

/// The indirect draws of the first `n` positions of the order, in order.
pub open spec fn indirect_entries(s: DrawScene, n: int) -> Seq<(PipelineKey, u32, IndirectArgs)>
    decreases n,
{
    if n <= 0 {
        seq![]
    } else {
        match indirect_entry(s, n - 1) {
            Some(e) => indirect_entries(s, n - 1).push(e),
            None => indirect_entries(s, n - 1),
        }
    }
}

/// The runs of the first `n` entries with one pipeline key and material:
/// (key, material, first entry, number of entries).
pub open spec fn runs_of(entries: Seq<(PipelineKey, u32, IndirectArgs)>, n: int) -> Seq<(PipelineKey, u32, int, int)>
    decreases n,
{
    if n <= 0 {
        seq![]
    } else {
        let prev = runs_of(entries, n - 1);
        let e = entries[n - 1];
        if prev.len() > 0 && prev.last().0 == e.0 && prev.last().1 == e.1 {
            prev.update(prev.len() - 1, (e.0, e.1, prev.last().2, prev.last().3 + 1))
        } else {
            prev.push((e.0, e.1, n - 1, 1))
        }
    }
}

/// The commands for the runs from `g` on, in bind state (`key`, `material`),
/// with the draw calls and switches they count. A run whose pipeline is
/// missing when a switch is needed is skipped.
pub open spec fn issue_runs(s: DrawScene, runs: Seq<(PipelineKey, u32, int, int)>, g: int, key: Option<PipelineKey>, material: Option<u32>) -> (Seq<IndirectOp>, Counts)
    decreases runs.len() - g,
{
    if g < 0 || g >= runs.len() {
        (seq![], no_counts())
    } else {
        let (k, m, start, count) = runs[g];
        if key != Some(k) && !s.ready[m as int] {
            issue_runs(s, runs, g + 1, key, material)
        } else {
            let switch = key != Some(k);
            let mat0 = if switch { None } else { material };
            let rebind = mat0 != Some(m);
            let ops = (if switch { seq![IndirectOp::SetPipeline(k)] } else { seq![] })
                + (if rebind { seq![IndirectOp::SetMaterial(m)] } else { seq![] })
                + seq![IndirectOp::MultiDraw { start: start as u32, count: count as u32 }];
            let c = Counts {
                draws: 1,
                pipelines: if switch { 1 } else { 0 },
                materials: if rebind { 1 } else { 0 },
                instances: 0,
                triangles: 0,
            };
            let (rest, c2) = issue_runs(s, runs, g + 1, Some(k), Some(m));
            (ops + rest, add_counts(c, c2))
        }
    }
}

/// The instances and triangles of the first `n` indirect draws.
pub open spec fn args_counts(entries: Seq<(PipelineKey, u32, IndirectArgs)>, n: int) -> Counts
    decreases n,
{
    if n <= 0 {
        no_counts()
    } else {
        let a = entries[n - 1].2;
        add_counts(args_counts(entries, n - 1), Counts {
            draws: 0,
            pipelines: 0,
            materials: 0,
            instances: a.instance_count as int,
            triangles: a.instance_count as int * (a.index_count / 3) as int,
        })
    }
}

/// Runs held in plain values.
pub open spec fn groups_view(g: Seq<(PipelineKey, u32, u32, u32)>) -> Seq<(PipelineKey, u32, int, int)> {
    g.map_values(|r: (PipelineKey, u32, u32, u32)| (r.0, r.1, r.2 as int, r.3 as int))
}

/// The arguments of indirect draws.
pub open spec fn entry_args(entries: Seq<(PipelineKey, u32, IndirectArgs)>) -> Seq<IndirectArgs> {
    entries.map_values(|e: (PipelineKey, u32, IndirectArgs)| e.2)
}

proof fn lemma_runs_bounds(entries: Seq<(PipelineKey, u32, IndirectArgs)>, n: int)
    requires
        0 <= n <= entries.len(),
    ensures
        runs_of(entries, n).len() <= n,
        forall|g: int| 0 <= g < runs_of(entries, n).len() ==> {
            let r = #[trigger] runs_of(entries, n)[g];
            0 <= r.2 && 1 <= r.3 && r.2 + r.3 <= n
        },
    decreases n,
{
    if n > 0 {
        lemma_runs_bounds(entries, n - 1);
        let prev = runs_of(entries, n - 1);
        if prev.len() > 0 {
            let l = prev.last();
            assert(l == prev[prev.len() - 1]);
        }
    }
}

fn collect_indirect(
    cmds: &Vec<DrawCmd>,
    ordered: &Vec<usize>,
    opaque_count: usize,
    keys: &Vec<PipelineKey>,
    ready: &Vec<bool>,
    skinned: &Vec<u32>,
    regions: &Vec<MeshRegion>,
) -> (r: (Vec<IndirectArgs>, Vec<(PipelineKey, u32, u32, u32)>))
    requires
        plan_inputs_ok(scene_of(cmds@, ordered@, opaque_count as int, keys@, ready@, skinned@, regions@)),
        ordered@.len() <= u32::MAX,
    ensures
        ({
            let s = scene_of(cmds@, ordered@, opaque_count as int, keys@, ready@, skinned@, regions@);
            let entries = indirect_entries(s, ordered@.len() as int);
            &&& r.0@ == entry_args(entries)
            &&& groups_view(r.1@) == runs_of(entries, entries.len() as int)
            &&& entries.len() <= ordered@.len()
        }),
{
    let ghost s = scene_of(cmds@, ordered@, opaque_count as int, keys@, ready@, skinned@, regions@);
    let mut args: Vec<IndirectArgs> = Vec::new();
    let mut groups: Vec<(PipelineKey, u32, u32, u32)> = Vec::new();
    let mut i: usize = 0;
    while i < ordered.len()
        invariant
            s == scene_of(cmds@, ordered@, opaque_count as int, keys@, ready@, skinned@, regions@),
            plan_inputs_ok(s),
            ordered@.len() <= u32::MAX,
            i <= ordered@.len(),
            indirect_entries(s, i as int).len() <= i,
            args@ == entry_args(indirect_entries(s, i as int)),
            groups_view(groups@) == runs_of(indirect_entries(s, i as int), indirect_entries(s, i as int).len() as int),
        decreases ordered@.len() - i,
    {
        let ghost before = indirect_entries(s, i as int);
        proof {
            lemma_runs_bounds(before, before.len() as int);
        }
        let c = cmds[ordered[i]];
        let m = c.material.0;
        let entry: Option<(PipelineKey, IndirectArgs)> = if m as usize >= keys.len() {
            None
        } else if c.mesh.0 & SKINNED_MESH_BIT != 0 {
            let idx = c.mesh.0 & !SKINNED_MESH_BIT;
            if idx as usize >= skinned.len() {
                None
            } else {
                Some((keys[m as usize], IndirectArgs {
                    index_count: skinned[idx as usize],
                    instance_count: c.instance_count,
                    first_index: 0,
                    base_vertex: 0,
                    first_instance: c.instance_offset,
                }))
            }
        } else if c.mesh.0 as usize >= regions.len() {
            None
        } else {
            let r = regions[c.mesh.0 as usize];
            Some((keys[m as usize], IndirectArgs {
                index_count: r.index_count,
                instance_count: c.instance_count,
                first_index: r.index_offset,
                base_vertex: r.vertex_offset as u32,
                first_instance: c.instance_offset,
            }))
        };
        assert(indirect_entry(s, i as int) == match entry {
            Some((k, a)) => Some((k, m, a)),
            None => None::<(PipelineKey, u32, IndirectArgs)>,
        });
        match entry {
            Some((key, a)) => {
                let arg_idx = args.len() as u32;
                args.push(a);
                let ghost after = before.push((key, m, a));
                assert(indirect_entries(s, i + 1) == after);
                assert(args@ =~= entry_args(after));
                let n = groups.len();
                let ghost runs0 = runs_of(before, before.len() as int);
                assert(after.drop_last() =~= before);
                assert(runs_of(after, before.len() as int) == runs0) by {
                    lemma_runs_prefix(after, before, before.len() as int);
                }
                if n > 0 && groups[n - 1].0 == key && groups[n - 1].1 == m {
                    let (gk, gm, gs, gc) = groups[n - 1];
                    assert(groups_view(groups@)[n - 1] == runs0.last());
                    assert(gc as int <= before.len());
                    groups.set(n - 1, (gk, gm, gs, gc + 1));
                    assert(groups_view(groups@) =~= runs0.update(runs0.len() - 1, (key, m, runs0.last().2, runs0.last().3 + 1)));
                } else {
                    groups.push((key, m, arg_idx, 1));
                    assert(n > 0 ==> groups_view(groups@.take(n as int))[n - 1] == runs0.last());
                    assert(groups_view(groups@) =~= runs0.push((key, m, before.len() as int, 1)));
                }
            },
            None => {
                assert(indirect_entries(s, i + 1) == before);
            },
        }
        i = i + 1;
    }
    (args, groups)
}

proof fn lemma_runs_prefix(a: Seq<(PipelineKey, u32, IndirectArgs)>, b: Seq<(PipelineKey, u32, IndirectArgs)>, n: int)
    requires
        0 <= n <= b.len(),
        n <= a.len(),
        forall|i: int| 0 <= i < n ==> a[i] == b[i],
    ensures
        runs_of(a, n) == runs_of(b, n),
    decreases n,
{
    if n > 0 {
        lemma_runs_prefix(a, b, n - 1);
    }
}

proof fn lemma_issue_nonneg(s: DrawScene, runs: Seq<(PipelineKey, u32, int, int)>, g: int, key: Option<PipelineKey>, material: Option<u32>)
    ensures
        counts_nonneg(issue_runs(s, runs, g, key, material).1),
    decreases runs.len() - g,
{
    if 0 <= g < runs.len() {
        let (k, m, start, count) = runs[g];
        if key != Some(k) && !s.ready[m as int] {
            lemma_issue_nonneg(s, runs, g + 1, key, material);
        } else {
            lemma_issue_nonneg(s, runs, g + 1, Some(k), Some(m));
        }
    }
}

proof fn lemma_args_nonneg(entries: Seq<(PipelineKey, u32, IndirectArgs)>, n: int)
    ensures
        counts_nonneg(args_counts(entries, n)),
    decreases n,
{
    if n > 0 {
        lemma_args_nonneg(entries, n - 1);
        let a = entries[n - 1].2;
        let x = a.instance_count as int;
        let t = (a.index_count / 3) as int;
        assert(x * t >= 0) by (nonlinear_arith)
            requires x >= 0, t >= 0;
    }
}

/// Every run names a material with a known readiness.
pub open spec fn runs_known(s: DrawScene, runs: Seq<(PipelineKey, u32, int, int)>) -> bool {
    forall|g: int| 0 <= g < runs.len() ==> ((#[trigger] runs[g]).1 as int) < s.ready.len()
}

proof fn lemma_runs_known(s: DrawScene, n: int)
    requires
        plan_inputs_ok(s),
        0 <= n <= s.ordered.len(),
    ensures
        forall|k: int| 0 <= k < indirect_entries(s, n).len() ==> ((#[trigger] indirect_entries(s, n)[k]).1 as int) < s.ready.len(),
    decreases n,
{
    if n > 0 {
        lemma_runs_known(s, n - 1);
        let prev = indirect_entries(s, n - 1);
        match indirect_entry(s, n - 1) {
            Some(e) => {
                let now = prev.push(e);
                assert(indirect_entries(s, n) == now);
                assert((e.1 as int) < s.ready.len());
                assert forall|k: int| 0 <= k < now.len() implies ((#[trigger] now[k]).1 as int) < s.ready.len() by {
                    if k < prev.len() {
                        assert(now[k] == prev[k]);
                    }
                }
            },
            None => {},
        }
    }
}

proof fn lemma_runs_materials(entries: Seq<(PipelineKey, u32, IndirectArgs)>, n: int, bound: int)
    requires
        0 <= n <= entries.len(),
        forall|k: int| 0 <= k < entries.len() ==> ((#[trigger] entries[k]).1 as int) < bound,
    ensures
        forall|g: int| 0 <= g < runs_of(entries, n).len() ==> ((#[trigger] runs_of(entries, n)[g]).1 as int) < bound,
    decreases n,
{
    if n > 0 {
        lemma_runs_materials(entries, n - 1, bound);
        let prev = runs_of(entries, n - 1);
        assert(entries[n - 1].1 < bound);
        if prev.len() > 0 {
            assert(prev.last() == prev[prev.len() - 1]);
        }
    }
}

/// The material bound after the indirect commands `ops`: that of the last
/// material bind among them.
pub open spec fn bound_material_indirect(ops: Seq<IndirectOp>) -> Option<u32>
    decreases ops.len(),
{
    if ops.len() == 0 {
        None
    } else {
        match ops.last() {
            IndirectOp::SetMaterial(m) => Some(m),
            _ => bound_material_indirect(ops.drop_last()),
        }
    }
}

/// Indirect arguments `a` draw a command of the order that uses material
/// `m`, with that command's instance range.
pub open spec fn args_of_material(s: DrawScene, m: u32, a: IndirectArgs) -> bool {
    exists|i: int|
        0 <= i < s.ordered.len() && (#[trigger] cmd_at(s, i)).material.0 == m
            && cmd_at(s, i).instance_offset == a.first_instance && cmd_at(s, i).instance_count == a.instance_count
}

proof fn lemma_entries_from_cmds(s: DrawScene, n: int)
    requires
        0 <= n <= s.ordered.len(),
    ensures
        indirect_entries(s, n).len() <= n,
        forall|k: int| 0 <= k < indirect_entries(s, n).len()
            ==> args_of_material(s, (#[trigger] indirect_entries(s, n)[k]).1, indirect_entries(s, n)[k].2),
    decreases n,
{
    if n > 0 {
        lemma_entries_from_cmds(s, n - 1);
        let prev = indirect_entries(s, n - 1);
        match indirect_entry(s, n - 1) {
            Some(e) => {
                let now = prev.push(e);
                assert(indirect_entries(s, n) == now);
                assert(cmd_at(s, n - 1).material.0 == e.1);
                assert(args_of_material(s, e.1, e.2));
                assert forall|k: int| 0 <= k < now.len() implies args_of_material(s, (#[trigger] now[k]).1, now[k].2) by {
                    if k < prev.len() {
                        assert(now[k] == prev[k]);
                    }
                }
            },
            None => {},
        }
    }
}

proof fn lemma_runs_cover(entries: Seq<(PipelineKey, u32, IndirectArgs)>, n: int)
    requires
        0 <= n <= entries.len(),
    ensures
        forall|g: int, e: int| 0 <= g < runs_of(entries, n).len()
            && (#[trigger] runs_of(entries, n)[g]).2 <= e < runs_of(entries, n)[g].2 + runs_of(entries, n)[g].3
            ==> (#[trigger] entries[e]).1 == runs_of(entries, n)[g].1,
        n > 0 ==> runs_of(entries, n).len() > 0
            && runs_of(entries, n).last().2 + runs_of(entries, n).last().3 == n,
    decreases n,
{
    if n > 0 {
        lemma_runs_cover(entries, n - 1);
        lemma_runs_bounds(entries, n - 1);
        let prev = runs_of(entries, n - 1);
        let now = runs_of(entries, n);
        let x = entries[n - 1];
        if prev.len() > 0 && prev.last().0 == x.0 && prev.last().1 == x.1 {
            let l = prev.last();
            assert(l == prev[prev.len() - 1]);
            assert forall|g: int, e: int| 0 <= g < now.len() && (#[trigger] now[g]).2 <= e < now[g].2 + now[g].3
                implies (#[trigger] entries[e]).1 == now[g].1 by {
                if g < prev.len() - 1 {
                    assert(now[g] == prev[g]);
                } else if e < n - 1 {
                    assert(prev[g] == l);
                    assert(prev[g].2 <= e < prev[g].2 + prev[g].3);
                }
            }
        } else {
            assert forall|g: int, e: int| 0 <= g < now.len() && (#[trigger] now[g]).2 <= e < now[g].2 + now[g].3
                implies (#[trigger] entries[e]).1 == now[g].1 by {
                if g < prev.len() {
                    assert(now[g] == prev[g]);
                }
            }
        }
    }
}

proof fn lemma_bound_indirect_push(a: Seq<IndirectOp>, op: IndirectOp)
    ensures
        bound_material_indirect(a.push(op)) == (match op {
            IndirectOp::SetMaterial(m) => Some(m),
            _ => bound_material_indirect(a),
        }),
{
    assert(a.push(op).drop_last() =~= a);
    assert(a.push(op).last() == op);
}

proof fn lemma_issue_materials(
    s: DrawScene,
    runs: Seq<(PipelineKey, u32, int, int)>,
    g: int,
    key: Option<PipelineKey>,
    material: Option<u32>,
    pre: Seq<IndirectOp>,
)
    requires
        forall|h: int| 0 <= h < runs.len() ==> ((#[trigger] runs[h]).1 as int) < s.ready.len(),
        material matches Some(x) ==> bound_material_indirect(pre) == Some(x),
    ensures
        forall|p: int| 0 <= p < issue_runs(s, runs, g, key, material).0.len()
            && (#[trigger] issue_runs(s, runs, g, key, material).0[p]) is MultiDraw
            ==> exists|h: int| 0 <= h < runs.len()
                && issue_runs(s, runs, g, key, material).0[p] == (IndirectOp::MultiDraw { start: (#[trigger] runs[h]).2 as u32, count: runs[h].3 as u32 })
                && bound_material_indirect(pre + issue_runs(s, runs, g, key, material).0.take(p)) == Some(runs[h].1),
    decreases runs.len() - g,
{
    if 0 <= g < runs.len() {
        let (k, m, start, count) = runs[g];
        if key != Some(k) && !s.ready[m as int] {
            lemma_issue_materials(s, runs, g + 1, key, material, pre);
        } else {
            let switch = key != Some(k);
            let mat0 = if switch { None } else { material };
            let rebind = mat0 != Some(m);
            let ops1: Seq<IndirectOp> = if switch { seq![IndirectOp::SetPipeline(k)] } else { seq![] };
            let ops2: Seq<IndirectOp> = ops1 + (if rebind { seq![IndirectOp::SetMaterial(m)] } else { seq![] });
            let draw = IndirectOp::MultiDraw { start: start as u32, count: count as u32 };
            let ops = ops2 + seq![draw];
            assert(ops == ops2.push(draw));
            if rebind {
                assert(pre + ops2 =~= (pre + ops1).push(IndirectOp::SetMaterial(m)));
                lemma_bound_indirect_push(pre + ops1, IndirectOp::SetMaterial(m));
            } else {
                assert(pre + ops2 =~= pre);
            }
            assert(pre + ops =~= (pre + ops2).push(draw));
            lemma_bound_indirect_push(pre + ops2, draw);
            lemma_issue_materials(s, runs, g + 1, Some(k), Some(m), pre + ops);
            let rest = issue_runs(s, runs, g + 1, Some(k), Some(m)).0;
            let all = issue_runs(s, runs, g, key, material).0;
            assert(all == ops + rest);
            assert forall|p: int| 0 <= p < all.len() && (#[trigger] all[p]) is MultiDraw
                implies exists|h: int| 0 <= h < runs.len()
                    && all[p] == (IndirectOp::MultiDraw { start: (#[trigger] runs[h]).2 as u32, count: runs[h].3 as u32 })
                    && bound_material_indirect(pre + all.take(p)) == Some(runs[h].1) by {
                if p < ops.len() {
                    if p < ops2.len() {
                        if switch && p == 0 {
                            assert(ops2[p] == IndirectOp::SetPipeline(k));
                        } else {
                            assert(ops2[p] == IndirectOp::SetMaterial(m));
                        }
                        assert(all[p] == ops2[p]);
                    } else {
                        assert(all[p] == draw);
                        assert(all.take(p) =~= ops2);
                        assert(runs[g] == (k, m, start, count));
                    }
                } else {
                    let q = p - ops.len();
                    assert(all[p] == rest[q]);
                    assert(pre + all.take(p) =~= (pre + ops) + rest.take(q));
                }
            }
        }
    }
}

/// An indirect multi-draw never mixes materials: every multi-draw of the
/// indirect plan reads a range of the argument list that lies inside it,
/// and each argument in that range draws a command of the order that uses
/// the material bound when the multi-draw is issued, with that command's
/// instance range.
pub proof fn law_multidraws_use_bound_material(s: DrawScene, p: int)
    requires
        plan_inputs_ok(s),
        s.ordered.len() <= u32::MAX,
        ({
            let entries = indirect_entries(s, s.ordered.len() as int);
            0 <= p < issue_runs(s, runs_of(entries, entries.len() as int), 0, None, None).0.len()
        }),
    ensures
        ({
            let entries = indirect_entries(s, s.ordered.len() as int);
            let args = entry_args(entries);
            let ops = issue_runs(s, runs_of(entries, entries.len() as int), 0, None, None).0;
            match ops[p] {
                IndirectOp::MultiDraw { start, count } => match bound_material_indirect(ops.take(p)) {
                    Some(m) => start + count <= args.len()
                        && forall|e: int| start <= e < start + count ==> args_of_material(s, m, #[trigger] args[e]),
                    None => false,
                },
                _ => true,
            }
        }),
{
    let n = s.ordered.len() as int;
    let entries = indirect_entries(s, n);
    let runs = runs_of(entries, entries.len() as int);
    let args = entry_args(entries);
    let ops = issue_runs(s, runs, 0, None, None).0;
    lemma_entries_from_cmds(s, n);
    lemma_runs_known(s, n);
    lemma_runs_materials(entries, entries.len() as int, s.ready.len() as int);
    lemma_runs_bounds(entries, entries.len() as int);
    lemma_runs_cover(entries, entries.len() as int);
    lemma_issue_materials(s, runs, 0, None, None, Seq::empty());
    assert(Seq::<IndirectOp>::empty() + ops.take(p) =~= ops.take(p));
    if ops[p] is MultiDraw {
        let h = choose|h: int| 0 <= h < runs.len()
            && ops[p] == (IndirectOp::MultiDraw { start: (#[trigger] runs[h]).2 as u32, count: runs[h].3 as u32 })
            && bound_material_indirect(Seq::<IndirectOp>::empty() + ops.take(p)) == Some(runs[h].1);
        let r = runs[h];
        assert(0 <= r.2 && 1 <= r.3 && r.2 + r.3 <= entries.len());
        assert(r.2 as u32 == r.2 && r.3 as u32 == r.3);
        assert forall|e: int| r.2 <= e < r.2 + r.3 implies args_of_material(s, r.1, #[trigger] args[e]) by {
            assert(entries[e].1 == r.1);
            assert(args[e] == entries[e].2);
        }
    }
}

/// The render-pass commands when draws are issued indirectly: the indirect
/// arguments of every command whose material and mesh exist, in order; one
/// multi-draw per run of one pipeline key and material, with binds only when
/// they change (a run whose pipeline is missing is skipped); and the
/// statistics (instances and triangles over all arguments). The culled
/// counts are left at zero for the caller.
pub fn plan_indirect_draws(
    cmds: &Vec<DrawCmd>,
    ordered: &Vec<usize>,
    opaque_count: usize,
    keys: &Vec<PipelineKey>,
    ready: &Vec<bool>,
    skinned: &Vec<u32>,
    regions: &Vec<MeshRegion>,
) -> (r: (Vec<IndirectArgs>, Vec<IndirectOp>, BatchStats3D))
    requires
        plan_inputs_ok(scene_of(cmds@, ordered@, opaque_count as int, keys@, ready@, skinned@, regions@)),
        ordered@.len() <= u32::MAX,
        ({
            let s = scene_of(cmds@, ordered@, opaque_count as int, keys@, ready@, skinned@, regions@);
            let entries = indirect_entries(s, ordered@.len() as int);
            counts_fit(add_counts(issue_runs(s, runs_of(entries, entries.len() as int), 0, None, None).1,
                args_counts(entries, entries.len() as int)))
        }),
    ensures
        ({
            let s = scene_of(cmds@, ordered@, opaque_count as int, keys@, ready@, skinned@, regions@);
            let entries = indirect_entries(s, ordered@.len() as int);
            let issued = issue_runs(s, runs_of(entries, entries.len() as int), 0, None, None);
            &&& r.0@ == entry_args(entries)
            &&& r.1@ == issued.0
            &&& stats_counts(r.2) == add_counts(issued.1, args_counts(entries, entries.len() as int))
        }),
        r.2.culled_draws == 0,
        r.2.culled_instances == 0,
{
    let ghost s = scene_of(cmds@, ordered@, opaque_count as int, keys@, ready@, skinned@, regions@);
    let ghost entries = indirect_entries(s, ordered@.len() as int);
    let ghost runs = runs_of(entries, entries.len() as int);
    let ghost issued = issue_runs(s, runs, 0, None, None);
    let ghost total = add_counts(issued.1, args_counts(entries, entries.len() as int));
    let (args, groups) = collect_indirect(cmds, ordered, opaque_count, keys, ready, skinned, regions);
    proof {
        lemma_runs_bounds(entries, entries.len() as int);
        lemma_runs_known(s, ordered@.len() as int);
        lemma_runs_materials(entries, entries.len() as int, s.ready.len() as int);
        lemma_args_nonneg(entries, entries.len() as int);
        lemma_issue_nonneg(s, runs, 0, None, None);
    }
    let mut ops: Vec<IndirectOp> = Vec::new();
    let mut stats = BatchStats3D {
        draw_calls: 0,
        pipeline_switches: 0,
        material_switches: 0,
        total_instances: 0,
        total_triangles: 0,
        culled_draws: 0,
        culled_instances: 0,
    };
    let mut key: Option<PipelineKey> = None;
    let mut material: Option<u32> = None;
    let mut g: usize = 0;
    assert(ops@ + issued.0 =~= issued.0);
    while g < groups.len()
        invariant
            s == scene_of(cmds@, ordered@, opaque_count as int, keys@, ready@, skinned@, regions@),
            entries == indirect_entries(s, ordered@.len() as int),
            runs == runs_of(entries, entries.len() as int),
            issued == issue_runs(s, runs, 0, None, None),
            total == add_counts(issued.1, args_counts(entries, entries.len() as int)),
            counts_fit(total),
            counts_nonneg(args_counts(entries, entries.len() as int)),
            groups_view(groups@) == runs,
            forall|k: int| 0 <= k < runs.len() ==> ((#[trigger] runs[k]).1 as int) < s.ready.len(),
            s.ready.len() == ready@.len(),
            ready@ == s.ready,
            g <= groups@.len(),
            ops@ + issue_runs(s, runs, g as int, key, material).0 == issued.0,
            add_counts(stats_counts(stats), issue_runs(s, runs, g as int, key, material).1) == issued.1,
            counts_nonneg(stats_counts(stats)),
            stats.total_instances == 0,
            stats.total_triangles == 0,
            stats.culled_draws == 0,
            stats.culled_instances == 0,
        decreases groups@.len() - g,
    {
        let (k, m, start, count) = groups[g];
        assert(runs[g as int] == (k, m, start as int, count as int));
        let ghost rest_before = issue_runs(s, runs, g as int, key, material);
        let switch = match key {
            Some(cur) => cur != k,
            None => true,
        };
        assert(switch == (key != Some(k)));
        if switch && !ready[m as usize] {
            g = g + 1;
        } else {
            proof {
                lemma_issue_nonneg(s, runs, g + 1, Some(k), Some(m));
            }
            let ghost ops_before = ops@;
            let mut mat0 = material;
            if switch {
                ops.push(IndirectOp::SetPipeline(k));
                stats.pipeline_switches = stats.pipeline_switches + 1;
                mat0 = None;
            }
            let rebind = match mat0 {
                Some(x) => x != m,
                None => true,
            };
            if rebind {
                ops.push(IndirectOp::SetMaterial(m));
                stats.material_switches = stats.material_switches + 1;
            }
            ops.push(IndirectOp::MultiDraw { start, count });
            stats.draw_calls = stats.draw_calls + 1;
            proof {
                let step_ops = (if switch { seq![IndirectOp::SetPipeline(k)] } else { Seq::<IndirectOp>::empty() })
                    + (if rebind { seq![IndirectOp::SetMaterial(m)] } else { Seq::<IndirectOp>::empty() })
                    + seq![IndirectOp::MultiDraw { start: start, count: count }];
                assert(ops@ =~= ops_before + step_ops);
                assert(ops@ + issue_runs(s, runs, g + 1, Some(k), Some(m)).0 =~= ops_before + rest_before.0);
            }
            key = Some(k);
            material = Some(m);
            g = g + 1;
        }
    }
    let mut a: usize = 0;
    while a < args.len()
        invariant
            total == add_counts(issued.1, args_counts(entries, entries.len() as int)),
            counts_fit(total),
            args@ == entry_args(entries),
            a <= args@.len(),
            stats_counts(stats) == add_counts(issued.1, args_counts(entries, a as int)),
            counts_nonneg(issued.1),
            stats.culled_draws == 0,
            stats.culled_instances == 0,
        decreases args@.len() - a,
    {
        let x = args[a];
        assert(x == entries[a as int].2);
        proof {
            let rest = args_counts(entries, entries.len() as int);
            lemma_args_prefix(entries, a + 1, entries.len() as int);
            let xi = x.instance_count as int;
            let t = (x.index_count / 3) as int;
            assert(xi * t >= 0) by (nonlinear_arith)
                requires xi >= 0, t >= 0;
        }
        stats.total_instances = stats.total_instances + x.instance_count;
        stats.total_triangles = stats.total_triangles + x.instance_count * (x.index_count / 3);
        a = a + 1;
    }
    assert(args@.len() == entries.len());
    (args, ops, stats)
}

proof fn lemma_args_prefix(entries: Seq<(PipelineKey, u32, IndirectArgs)>, a: int, n: int)
    requires
        0 <= a <= n,
    ensures
        args_counts(entries, a).instances <= args_counts(entries, n).instances,
        args_counts(entries, a).triangles <= args_counts(entries, n).triangles,
    decreases n - a,
{
    if a < n {
        lemma_args_prefix(entries, a, n - 1);
        let x = entries[n - 1].2;
        let xi = x.instance_count as int;
        let t = (x.index_count / 3) as int;
        assert(xi * t >= 0) by (nonlinear_arith)
            requires xi >= 0, t >= 0;
    }
}

/// The most shadow cascades the shadow pass renders.
pub const MAX_SHADOW_CASCADES: usize = 4;

/// How many cascades are rendered for a requested count: clamped to
/// `2..=MAX_SHADOW_CASCADES`.
pub open spec fn shadow_cascades(requested: usize) -> usize {
    if requested < 2 {
        2
    } else if requested > MAX_SHADOW_CASCADES {
        MAX_SHADOW_CASCADES
    } else {
        requested
    }
}

/// The shadow draw of command `i`: none for a skinned mesh or a mesh without
/// a region; otherwise its mesh's region for its instance range.
pub open spec fn shadow_draw(cmds: Seq<DrawCmd>, regions: Seq<MeshRegion>, i: int) -> Option<DrawOp> {
    let c = cmds[i];
    if c.mesh.0 & SKINNED_MESH_BIT != 0 {
        None
    } else if c.mesh.0 as int >= regions.len() {
        None
    } else {
        let r = regions[c.mesh.0 as int];
        Some(DrawOp::DrawIndexed {
            first_index: r.index_offset,
            index_count: r.index_count,
            base_vertex: r.vertex_offset,
            first_instance: c.instance_offset,
            instance_count: c.instance_count,
        })
    }
}

/// The shadow draws of the first `n` opaque commands, in order.
pub open spec fn shadow_draws(cmds: Seq<DrawCmd>, regions: Seq<MeshRegion>, opaque: Seq<usize>, n: int) -> Seq<DrawOp>
    decreases n,
{
    if n <= 0 {
        Seq::empty()
    } else {
        let prev = shadow_draws(cmds, regions, opaque, n - 1);
        match shadow_draw(cmds, regions, opaque[n - 1] as int) {
            Some(d) => prev.push(d),
            None => prev,
        }
    }
}

/// What the shadow pass renders: each of `cascades` cascades draws `draws`.
pub struct ShadowPlan {
    pub cascades: usize,
    pub draws: Vec<DrawOp>,
}

/// The shadow pass of a frame, drawn before the scene: nothing when shadows
/// are disabled; otherwise the requested cascade count clamped to
/// `2..=MAX_SHADOW_CASCADES`, each cascade drawing every opaque command (in
/// `opaque` order) except skinned meshes and meshes without a region.
pub fn plan_shadow_pass(
    cmds: &Vec<DrawCmd>,
    opaque: &Vec<usize>,
    regions: &Vec<MeshRegion>,
    enabled: bool,
    requested_cascades: usize,
) -> (r: ShadowPlan)
    requires
        forall|k: int| 0 <= k < opaque@.len() ==> (#[trigger] opaque@[k] as int) < cmds@.len(),
    ensures
        !enabled ==> r.cascades == 0 && r.draws@.len() == 0,
        enabled ==> r.cascades == shadow_cascades(requested_cascades)
            && r.draws@ == shadow_draws(cmds@, regions@, opaque@, opaque@.len() as int),
        enabled && 2 <= requested_cascades <= MAX_SHADOW_CASCADES ==> r.cascades == requested_cascades,
        enabled && requested_cascades < 2 ==> r.cascades == 2,
        enabled && requested_cascades > MAX_SHADOW_CASCADES ==> r.cascades == MAX_SHADOW_CASCADES,
{
    if !enabled {
        return ShadowPlan { cascades: 0, draws: Vec::new() };
    }
    let cascades = if requested_cascades < 2 {
        2
    } else if requested_cascades > MAX_SHADOW_CASCADES {
        MAX_SHADOW_CASCADES
    } else {
        requested_cascades
    };
    let mut draws: Vec<DrawOp> = Vec::new();
    let mut k: usize = 0;
    while k < opaque.len()
        invariant
            k <= opaque@.len(),
            forall|j: int| 0 <= j < opaque@.len() ==> (#[trigger] opaque@[j] as int) < cmds@.len(),
            draws@ == shadow_draws(cmds@, regions@, opaque@, k as int),
        decreases opaque@.len() - k,
    {
        let c = cmds[opaque[k]];
        if c.mesh.0 & SKINNED_MESH_BIT == 0 {
            let m = c.mesh.0 as usize;
            if m < regions.len() {
                let reg = regions[m];
                draws.push(DrawOp::DrawIndexed {
                    first_index: reg.index_offset,
                    index_count: reg.index_count,
                    base_vertex: reg.vertex_offset,
                    first_instance: c.instance_offset,
                    instance_count: c.instance_count,
                });
            }
        }
        k = k + 1;
    }
    ShadowPlan { cascades, draws }
}

/// The cascade count is the request clamped to `2..=MAX_SHADOW_CASCADES`:
/// a request inside that range is rendered as asked, one below it as 2, one
/// above it as the maximum; and a larger request never gives fewer cascades.
pub proof fn law_cascades_clamp(requested: usize, other: usize)
    ensures
        2 <= requested <= MAX_SHADOW_CASCADES ==> shadow_cascades(requested) == requested,
        requested < 2 ==> shadow_cascades(requested) == 2,
        requested > MAX_SHADOW_CASCADES ==> shadow_cascades(requested) == MAX_SHADOW_CASCADES,
        2 <= shadow_cascades(requested) <= MAX_SHADOW_CASCADES,
        requested <= other ==> shadow_cascades(requested) <= shadow_cascades(other),
{
}

/// Opaque command `j` is drawn into the shadow maps: its mesh is a static
/// one with a region.
pub open spec fn casts_shadow(cmds: Seq<DrawCmd>, regions: Seq<MeshRegion>, opaque: Seq<usize>, j: int) -> bool {
    let c = cmds[opaque[j] as int];
    c.mesh.0 & SKINNED_MESH_BIT == 0 && (c.mesh.0 as int) < regions.len()
}

/// The draw of opaque command `j`'s mesh region for its instances.
pub open spec fn region_draw(cmds: Seq<DrawCmd>, regions: Seq<MeshRegion>, opaque: Seq<usize>, j: int) -> DrawOp {
    let c = cmds[opaque[j] as int];
    let r = regions[c.mesh.0 as int];
    DrawOp::DrawIndexed {
        first_index: r.index_offset,
        index_count: r.index_count,
        base_vertex: r.vertex_offset,
        first_instance: c.instance_offset,
        instance_count: c.instance_count,
    }
}

proof fn lemma_shadow_draws(cmds: Seq<DrawCmd>, regions: Seq<MeshRegion>, opaque: Seq<usize>, n: int)
    requires
        0 <= n <= opaque.len(),
    ensures
        shadow_draws(cmds, regions, opaque, n).len() <= n,
        forall|k: int| 0 <= k < shadow_draws(cmds, regions, opaque, n).len() ==> exists|j: int|
            0 <= j < n && casts_shadow(cmds, regions, opaque, j)
                && #[trigger] shadow_draws(cmds, regions, opaque, n)[k] == region_draw(cmds, regions, opaque, j),
        forall|j: int| 0 <= j < n && casts_shadow(cmds, regions, opaque, j) ==> exists|k: int|
            0 <= k < shadow_draws(cmds, regions, opaque, n).len()
                && shadow_draws(cmds, regions, opaque, n)[k] == #[trigger] region_draw(cmds, regions, opaque, j),
    decreases n,
{
    if n > 0 {
        lemma_shadow_draws(cmds, regions, opaque, n - 1);
        let prev = shadow_draws(cmds, regions, opaque, n - 1);
        let now = shadow_draws(cmds, regions, opaque, n);
        let j0 = n - 1;
        if casts_shadow(cmds, regions, opaque, j0) {
            assert(shadow_draw(cmds, regions, opaque[j0] as int) == Some(region_draw(cmds, regions, opaque, j0)));
            assert(now == prev.push(region_draw(cmds, regions, opaque, j0)));
            assert forall|k: int| 0 <= k < now.len() implies exists|j: int|
                0 <= j < n && casts_shadow(cmds, regions, opaque, j)
                    && #[trigger] now[k] == region_draw(cmds, regions, opaque, j) by {
                if k < prev.len() {
                    assert(now[k] == prev[k]);
                    let j = choose|j: int| 0 <= j < n - 1 && casts_shadow(cmds, regions, opaque, j)
                        && #[trigger] prev[k] == region_draw(cmds, regions, opaque, j);
                } else {
                    assert(now[k] == region_draw(cmds, regions, opaque, j0));
                }
            }
            assert forall|j: int| 0 <= j < n && casts_shadow(cmds, regions, opaque, j) implies exists|k: int|
                0 <= k < now.len() && now[k] == #[trigger] region_draw(cmds, regions, opaque, j) by {
                if j < n - 1 {
                    let k = choose|k: int| 0 <= k < prev.len() && prev[k] == #[trigger] region_draw(cmds, regions, opaque, j);
                    assert(now[k] == prev[k]);
                } else {
                    assert(now[prev.len() as int] == region_draw(cmds, regions, opaque, j0));
                }
            }
        } else {
            assert(shadow_draw(cmds, regions, opaque[j0] as int) is None);
            assert(now == prev);
            assert forall|k: int| 0 <= k < now.len() implies exists|j: int|
                0 <= j < n && casts_shadow(cmds, regions, opaque, j)
                    && #[trigger] now[k] == region_draw(cmds, regions, opaque, j) by {
                let j = choose|j: int| 0 <= j < n - 1 && casts_shadow(cmds, regions, opaque, j)
                    && #[trigger] prev[k] == region_draw(cmds, regions, opaque, j);
            }
        }
    }
}

/// The shadow pass draws exactly the shadow casters: every shadow draw is
/// the mesh region of some opaque command with a static, known mesh, drawn
/// for that command's instances, and every such command is drawn; skinned
/// meshes and meshes without a region never are.
pub proof fn law_shadow_draws_are_casters(cmds: Seq<DrawCmd>, regions: Seq<MeshRegion>, opaque: Seq<usize>)
    ensures
        ({
            let d = shadow_draws(cmds, regions, opaque, opaque.len() as int);
            &&& d.len() <= opaque.len()
            &&& forall|k: int| 0 <= k < d.len() ==> exists|j: int|
                0 <= j < opaque.len() && casts_shadow(cmds, regions, opaque, j)
                    && #[trigger] d[k] == region_draw(cmds, regions, opaque, j)
            &&& forall|j: int| 0 <= j < opaque.len() && casts_shadow(cmds, regions, opaque, j) ==> exists|k: int|
                0 <= k < d.len() && d[k] == #[trigger] region_draw(cmds, regions, opaque, j)
        }),
{
    let n = opaque.len() as int;
    let d = shadow_draws(cmds, regions, opaque, n);
    lemma_shadow_draws(cmds, regions, opaque, n);
    assert forall|k: int| 0 <= k < d.len() implies exists|j: int|
        0 <= j < opaque.len() && casts_shadow(cmds, regions, opaque, j)
            && #[trigger] d[k] == region_draw(cmds, regions, opaque, j) by {
        let j = choose|j: int| 0 <= j < n && casts_shadow(cmds, regions, opaque, j)
            && #[trigger] d[k] == region_draw(cmds, regions, opaque, j);
    }
    assert forall|j: int| 0 <= j < opaque.len() && casts_shadow(cmds, regions, opaque, j) implies exists|k: int|
        0 <= k < d.len() && d[k] == #[trigger] region_draw(cmds, regions, opaque, j) by {
        let k = choose|k: int| 0 <= k < d.len() && d[k] == #[trigger] region_draw(cmds, regions, opaque, j);
    }
}

} // verus!
