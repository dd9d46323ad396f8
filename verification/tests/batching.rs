use esox::batching::{
    merge_adjacent_draws, partition_draws, pipeline_key_sort_tuple, sort_opaque_draws, BatchStats3D, BlendMode3D,
    CullMode3D, DrawBatch, DrawCmd, MaterialType, PipelineKey,
};
use esox::handles::{MaterialHandle, MeshHandle};

#[test]
fn draw_cmd_sort_order() {
    let keys = vec![
        PipelineKey {
            material_type: MaterialType::Lit,
            blend_mode: BlendMode3D::Opaque,
            cull_mode: CullMode3D::Back,
            depth_write: true,
        },
        PipelineKey {
            material_type: MaterialType::PBR,
            blend_mode: BlendMode3D::Opaque,
            cull_mode: CullMode3D::Back,
            depth_write: true,
        },
    ];

    let mut cmds = vec![
        DrawCmd {
            mesh: MeshHandle(1),
            material: MaterialHandle(1),
            instance_offset: 0,
            instance_count: 1,
        },
        DrawCmd {
            mesh: MeshHandle(0),
            material: MaterialHandle(0),
            instance_offset: 1,
            instance_count: 1,
        },
    ];

    cmds.sort_by(|a, b| {
        let key_a = &keys[a.material.0 as usize];
        let key_b = &keys[b.material.0 as usize];
        pipeline_key_sort_tuple(key_a, a.material.0, a.mesh.0)
            .cmp(&pipeline_key_sort_tuple(key_b, b.material.0, b.mesh.0))
    });

    assert_eq!(cmds[0].material.0, 0); // Lit
    assert_eq!(cmds[1].material.0, 1); // PBR
}

#[test]
fn draw_cmd_merge_adjacent() {
    let cmds = vec![
        DrawCmd {
            mesh: MeshHandle(0),
            material: MaterialHandle(0),
            instance_offset: 0,
            instance_count: 5,
        },
        DrawCmd {
            mesh: MeshHandle(0),
            material: MaterialHandle(0),
            instance_offset: 5,
            instance_count: 3,
        },
        DrawCmd {
            mesh: MeshHandle(1),
            material: MaterialHandle(0),
            instance_offset: 8,
            instance_count: 2,
        },
    ];

    let merged: Vec<(u32, u32, u32, u32)> = merge_adjacent_draws(&cmds)
        .iter()
        .map(|b| (b.mesh.0, b.material.0, b.instance_offset, b.instance_count))
        .collect();

    assert_eq!(merged.len(), 2);
    assert_eq!(merged[0], (0, 0, 0, 8));
    assert_eq!(merged[1], (1, 0, 8, 2));
}

#[test]
fn batch_stats_default() {
    let stats = BatchStats3D::default();
    assert_eq!(stats.draw_calls, 0);
    assert_eq!(stats.total_triangles, 0);
}

fn key(material_type: MaterialType, blend_mode: BlendMode3D) -> PipelineKey {
    PipelineKey { material_type, blend_mode, cull_mode: CullMode3D::Back, depth_write: true }
}

fn cmd(mesh: u32, material: u32, offset: u32, count: u32) -> DrawCmd {
    DrawCmd { mesh: MeshHandle(mesh), material: MaterialHandle(material), instance_offset: offset, instance_count: count }
}

#[test]
fn sort_tuple_values() {
    let k = key(MaterialType::PBR, BlendMode3D::Additive);
    let k = PipelineKey { cull_mode: CullMode3D::Disabled, depth_write: false, ..k };
    assert_eq!(pipeline_key_sort_tuple(&k, 3, 9), (2, 2, false, 3, 9));
    let u = key(MaterialType::Unlit, BlendMode3D::Opaque);
    assert_eq!(pipeline_key_sort_tuple(&u, 0, 1), (0, 0, true, 0, 1));
}

#[test]
fn partition_keeps_submission_order() {
    let keys = vec![key(MaterialType::Lit, BlendMode3D::Opaque), key(MaterialType::Lit, BlendMode3D::AlphaBlend)];
    let cmds = vec![cmd(0, 1, 0, 1), cmd(0, 0, 1, 1), cmd(0, 5, 2, 1), cmd(1, 0, 3, 1), cmd(1, 1, 4, 1)];
    let (opaque, blended) = partition_draws(&cmds, &keys);
    assert_eq!(opaque, vec![1, 3]);
    assert_eq!(blended, vec![0, 4]);
}

#[test]
fn sort_opaque_is_stable_by_tuple() {
    let keys = vec![key(MaterialType::PBR, BlendMode3D::Opaque), key(MaterialType::Unlit, BlendMode3D::Opaque)];
    let cmds = vec![cmd(2, 0, 0, 1), cmd(1, 1, 1, 1), cmd(2, 0, 2, 1), cmd(0, 0, 3, 1)];
    let order = sort_opaque_draws(&cmds, &keys, vec![0, 1, 2, 3]);
    // Unlit first, then PBR by mesh; equal tuples keep submission order.
    assert_eq!(order, vec![1, 3, 0, 2]);
}

#[test]
fn merge_needs_contiguous_ranges() {
    let cmds = vec![cmd(0, 0, 0, 2), cmd(0, 0, 5, 1), cmd(0, 0, 6, 1)];
    let merged = merge_adjacent_draws(&cmds);
    assert_eq!(
        merged,
        vec![
            DrawBatch { mesh: MeshHandle(0), material: MaterialHandle(0), instance_offset: 0, instance_count: 2 },
            DrawBatch { mesh: MeshHandle(0), material: MaterialHandle(0), instance_offset: 5, instance_count: 2 },
        ]
    );
    assert!(merge_adjacent_draws(&[]).is_empty());
}

#[test]
fn merge_keeps_instance_total() {
    let cmds = vec![cmd(0, 0, 0, 5), cmd(0, 0, 5, 3), cmd(1, 0, 8, 2), cmd(1, 1, 10, 4)];
    let merged = merge_adjacent_draws(&cmds);
    let before: u32 = cmds.iter().map(|c| c.instance_count).sum();
    let after: u32 = merged.iter().map(|b| b.instance_count).sum();
    assert_eq!(before, after);
    assert_eq!(merged.len(), 3);
}
