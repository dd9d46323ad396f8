use esox::batching::{BlendMode3D, CullMode3D, DrawCmd, MaterialType, PipelineKey};
use esox::draw_plan::{plan_draws, plan_shadow_pass, plan_indirect_draws, DrawOp, IndirectArgs, IndirectOp, MeshRegion, SKINNED_MESH_BIT};
use esox::handles::{MaterialHandle, MeshHandle};

fn key(material_type: MaterialType) -> PipelineKey {
    PipelineKey { material_type, blend_mode: BlendMode3D::Opaque, cull_mode: CullMode3D::Back, depth_write: true }
}

fn cmd(mesh: u32, material: u32, offset: u32, count: u32) -> DrawCmd {
    DrawCmd { mesh: MeshHandle(mesh), material: MaterialHandle(material), instance_offset: offset, instance_count: count }
}

fn draw(first_index: u32, index_count: u32, base_vertex: i32, first_instance: u32, instance_count: u32) -> DrawOp {
    DrawOp::DrawIndexed { first_index, index_count, base_vertex, first_instance, instance_count }
}

#[test]
fn plan_merges_and_switches() {
    let keys = vec![key(MaterialType::Lit), key(MaterialType::PBR)];
    let cmds = vec![cmd(0, 0, 0, 5), cmd(0, 0, 5, 3), cmd(1, 0, 8, 2), cmd(SKINNED_MESH_BIT, 1, 10, 1)];
    let regions = vec![
        MeshRegion { index_offset: 0, index_count: 36, vertex_offset: 0 },
        MeshRegion { index_offset: 36, index_count: 6, vertex_offset: 24 },
    ];
    let (ops, stats) = plan_draws(&cmds, &vec![0, 1, 2, 3], 4, &keys, &vec![true, true], &vec![300], &regions);
    assert_eq!(
        ops,
        vec![
            DrawOp::SetPipeline(keys[0]),
            DrawOp::SetMaterial(0),
            draw(0, 36, 0, 0, 8),
            draw(36, 6, 24, 8, 2),
            DrawOp::SetPipeline(keys[1]),
            DrawOp::SetMaterial(1),
            DrawOp::BindSkinnedMesh(0),
            draw(0, 300, 0, 10, 1),
        ]
    );
    assert_eq!(stats.draw_calls, 3);
    assert_eq!(stats.pipeline_switches, 2);
    assert_eq!(stats.material_switches, 2);
    assert_eq!(stats.total_instances, 11);
    assert_eq!(stats.total_triangles, 8 * 12 + 2 * 2 + 100);
    assert_eq!(stats.culled_draws, 0);
}

#[test]
fn plan_skips_missing_pipeline_material_and_mesh() {
    let keys = vec![key(MaterialType::Lit), key(MaterialType::Unlit)];
    let cmds = vec![cmd(0, 1, 0, 1), cmd(0, 7, 1, 1), cmd(9, 0, 2, 1), cmd(0, 0, 3, 1)];
    let regions = vec![MeshRegion { index_offset: 0, index_count: 3, vertex_offset: 0 }];
    let (ops, stats) = plan_draws(&cmds, &vec![0, 1, 2, 3], 4, &keys, &vec![true, false], &vec![], &regions);
    // Material 1 has no pipeline, material 7 does not exist, mesh 9 has no
    // region (its binds stand), then a plain draw.
    assert_eq!(ops, vec![DrawOp::SetPipeline(keys[0]), DrawOp::SetMaterial(0), draw(0, 3, 0, 3, 1)]);
    assert_eq!(stats.draw_calls, 1);
    assert_eq!(stats.pipeline_switches, 1);
    assert_eq!(stats.material_switches, 1);
    assert_eq!(stats.total_triangles, 1);
}

#[test]
fn transparent_draws_are_not_merged() {
    let keys = vec![key(MaterialType::Lit)];
    let cmds = vec![cmd(0, 0, 0, 2), cmd(0, 0, 2, 2)];
    let regions = vec![MeshRegion { index_offset: 6, index_count: 6, vertex_offset: 4 }];
    let (ops, stats) = plan_draws(&cmds, &vec![0, 1], 0, &keys, &vec![true], &vec![], &regions);
    assert_eq!(
        ops,
        vec![DrawOp::SetPipeline(keys[0]), DrawOp::SetMaterial(0), draw(6, 6, 4, 0, 2), draw(6, 6, 4, 2, 2)]
    );
    assert_eq!(stats.draw_calls, 2);
    assert_eq!(stats.total_instances, 4);
}

#[test]
fn static_after_skinned_rebinds_shared_buffer() {
    let keys = vec![key(MaterialType::Lit)];
    let cmds = vec![cmd(SKINNED_MESH_BIT | 1, 0, 0, 1), cmd(0, 0, 1, 1)];
    let regions = vec![MeshRegion { index_offset: 0, index_count: 3, vertex_offset: 0 }];
    let (ops, _) = plan_draws(&cmds, &vec![0, 1], 2, &keys, &vec![true], &vec![6, 9], &regions);
    assert_eq!(
        ops,
        vec![
            DrawOp::SetPipeline(keys[0]),
            DrawOp::SetMaterial(0),
            DrawOp::BindSkinnedMesh(1),
            draw(0, 9, 0, 0, 1),
            DrawOp::BindMegaBuffer,
            draw(0, 3, 0, 1, 1),
        ]
    );
}

fn scene() -> (Vec<PipelineKey>, Vec<DrawCmd>, Vec<MeshRegion>) {
    let keys = vec![key(MaterialType::Lit), key(MaterialType::PBR)];
    let cmds = vec![cmd(0, 0, 0, 5), cmd(0, 0, 5, 3), cmd(1, 0, 8, 2), cmd(SKINNED_MESH_BIT, 1, 10, 1)];
    let regions = vec![
        MeshRegion { index_offset: 0, index_count: 36, vertex_offset: 0 },
        MeshRegion { index_offset: 36, index_count: 6, vertex_offset: -4 },
    ];
    (keys, cmds, regions)
}

#[test]
fn indirect_runs_by_pipeline_and_material() {
    let (keys, cmds, regions) = scene();
    let (args, ops, stats) = plan_indirect_draws(&cmds, &vec![0, 1, 2, 3], 4, &keys, &vec![true, true], &vec![300], &regions);
    assert_eq!(args.len(), 4);
    assert_eq!(
        args[2],
        IndirectArgs { index_count: 6, instance_count: 2, first_index: 36, base_vertex: (-4i32) as u32, first_instance: 8 }
    );
    assert_eq!(args[3], IndirectArgs { index_count: 300, instance_count: 1, first_index: 0, base_vertex: 0, first_instance: 10 });
    assert_eq!(
        ops,
        vec![
            IndirectOp::SetPipeline(keys[0]),
            IndirectOp::SetMaterial(0),
            IndirectOp::MultiDraw { start: 0, count: 3 },
            IndirectOp::SetPipeline(keys[1]),
            IndirectOp::SetMaterial(1),
            IndirectOp::MultiDraw { start: 3, count: 1 },
        ]
    );
    assert_eq!(stats.draw_calls, 2);
    assert_eq!(stats.pipeline_switches, 2);
    assert_eq!(stats.material_switches, 2);
    assert_eq!(stats.total_instances, 11);
    assert_eq!(stats.total_triangles, 5 * 12 + 3 * 12 + 2 * 2 + 100);
}

#[test]
fn indirect_run_without_pipeline_is_skipped_but_counted() {
    let (keys, cmds, regions) = scene();
    let (args, ops, stats) = plan_indirect_draws(&cmds, &vec![0, 1, 2, 3], 4, &keys, &vec![true, false], &vec![300], &regions);
    assert_eq!(args.len(), 4);
    assert_eq!(
        ops,
        vec![IndirectOp::SetPipeline(keys[0]), IndirectOp::SetMaterial(0), IndirectOp::MultiDraw { start: 0, count: 3 }]
    );
    assert_eq!(stats.draw_calls, 1);
    assert_eq!(stats.total_instances, 11);
}

#[test]
fn indirect_skips_unknown_materials_and_meshes() {
    let (keys, _, regions) = scene();
    let cmds = vec![cmd(0, 5, 0, 1), cmd(7, 0, 1, 1), cmd(SKINNED_MESH_BIT | 3, 0, 2, 1), cmd(1, 0, 3, 1)];
    let (args, ops, _) = plan_indirect_draws(&cmds, &vec![0, 1, 2, 3], 4, &keys, &vec![true, true], &vec![300], &regions);
    assert_eq!(args.len(), 1);
    assert_eq!(args[0].first_instance, 3);
    assert_eq!(ops.len(), 3);
}

#[test]
fn shadow_pass_skips_skinned_and_unknown_meshes() {
    let cmds = vec![cmd(0, 0, 0, 2), cmd(SKINNED_MESH_BIT | 1, 0, 2, 1), cmd(5, 0, 3, 1), cmd(1, 0, 4, 3)];
    let regions = vec![
        MeshRegion { index_offset: 0, index_count: 36, vertex_offset: 0 },
        MeshRegion { index_offset: 36, index_count: 6, vertex_offset: 24 },
    ];
    let plan = plan_shadow_pass(&cmds, &vec![3, 1, 2, 0], &regions, true, 7);
    assert_eq!(plan.cascades, 4);
    assert_eq!(
        plan.draws,
        vec![
            DrawOp::DrawIndexed { first_index: 36, index_count: 6, base_vertex: 24, first_instance: 4, instance_count: 3 },
            DrawOp::DrawIndexed { first_index: 0, index_count: 36, base_vertex: 0, first_instance: 0, instance_count: 2 },
        ]
    );
    assert_eq!(plan_shadow_pass(&cmds, &vec![0], &regions, true, 1).cascades, 2);
    let off = plan_shadow_pass(&cmds, &vec![0], &regions, false, 3);
    assert_eq!(off.cascades, 0);
    assert!(off.draws.is_empty());
}
