use hexxengine::batching::{
    batch_mesh_instances, batch_meshes_in_draw_order, batch_ui_draws, leading_opaque_batches, mesh_draw_binds,
    mesh_draw_order, push_quad_indices, ui_pipeline_binds, MeshBatch, MeshDrawBinds, MeshDrawKey,
    MeshHandle,
    MeshInstanceKey, UiBatch, MAX_INSTANCE_COUNT,
};

#[test]
fn ui_draws_are_grouped_by_kind() {
    let draws = [(false, 4, 6), (false, 4, 6), (true, 8, 12), (true, 4, 6), (false, 4, 6)];
    let batches = batch_ui_draws(&draws);
    assert_eq!(
        batches,
        vec![
            UiBatch { vertex_offset: 0, index_offset: 0, vertex_count: 8, index_count: 12, is_text: false },
            UiBatch { vertex_offset: 8, index_offset: 12, vertex_count: 12, index_count: 18, is_text: true },
            UiBatch { vertex_offset: 20, index_offset: 30, vertex_count: 4, index_count: 6, is_text: false },
        ]
    );
}

#[test]
fn no_ui_draws_no_batches() {
    assert!(batch_ui_draws(&[]).is_empty());
}

#[test]
fn empty_text_still_makes_a_batch() {
    let batches = batch_ui_draws(&[(true, 0, 0)]);
    assert_eq!(
        batches,
        vec![UiBatch { vertex_offset: 0, index_offset: 0, vertex_count: 0, index_count: 0, is_text: true }]
    );
}

#[test]
fn quad_indices_make_two_triangles() {
    let mut indices = vec![9u16];
    push_quad_indices(&mut indices, 4);
    assert_eq!(indices, vec![9, 4, 5, 6, 4, 6, 7]);
    let mut wrapped = Vec::new();
    push_quad_indices(&mut wrapped, 65536 + 8);
    assert_eq!(wrapped, vec![8, 9, 10, 8, 10, 11]);
}

fn key(material_id: u32, mesh: u32, depth: u32, is_opaque: bool) -> MeshInstanceKey {
    MeshInstanceKey { material_id, mesh_id: MeshHandle(mesh), depth, is_opaque }
}

#[test]
fn mesh_instances_are_grouped_by_material_mesh_and_depth() {
    let keys = [
        key(0, 1, 0, true),
        key(0, 1, 0, true),
        key(0, 2, 0, true),
        key(3, 2, 0, true),
        key(3, 2, 0, true),
        key(3, 2, 0, true),
        key(3, 2, 17, false),
        key(3, 2, 18, false),
    ];
    let batches = batch_mesh_instances(&keys, 80);
    assert_eq!(
        batches,
        vec![
            MeshBatch { mesh_id: MeshHandle(1), material_id: 0, instance_offset: 0, instance_count: 2, is_opaque: true },
            MeshBatch { mesh_id: MeshHandle(2), material_id: 0, instance_offset: 160, instance_count: 1, is_opaque: true },
            MeshBatch { mesh_id: MeshHandle(2), material_id: 3, instance_offset: 240, instance_count: 3, is_opaque: true },
            MeshBatch { mesh_id: MeshHandle(2), material_id: 3, instance_offset: 480, instance_count: 1, is_opaque: false },
            MeshBatch { mesh_id: MeshHandle(2), material_id: 3, instance_offset: 560, instance_count: 1, is_opaque: false },
        ]
    );
}

#[test]
fn mesh_instances_past_the_limit_are_not_drawn() {
    let keys = vec![key(1, 1, 0, true); MAX_INSTANCE_COUNT + 5];
    let batches = batch_mesh_instances(&keys, 4);
    assert_eq!(batches.len(), 1);
    assert_eq!(batches[0].instance_count as usize, MAX_INSTANCE_COUNT);
    assert_eq!(batches[0].instance_offset, 0);
}

fn mesh_batch(material_id: u32, is_opaque: bool) -> MeshBatch {
    MeshBatch { mesh_id: MeshHandle(1), material_id, instance_offset: 0, instance_count: 1, is_opaque }
}

#[test]
fn mesh_batches_bind_only_what_changes() {
    let batches = [
        mesh_batch(3, true),
        mesh_batch(3, true),
        mesh_batch(5, true),
        mesh_batch(5, false),
        mesh_batch(3, false),
    ];
    let binds = mesh_draw_binds(&batches);
    assert_eq!(
        binds,
        vec![
            MeshDrawBinds { pipeline: Some(true), material: Some(3) },
            MeshDrawBinds { pipeline: None, material: None },
            MeshDrawBinds { pipeline: None, material: Some(5) },
            MeshDrawBinds { pipeline: Some(false), material: None },
            MeshDrawBinds { pipeline: None, material: Some(3) },
        ]
    );
    assert_eq!(mesh_draw_binds(&[]), vec![]);
}

#[test]
fn the_shadow_map_takes_the_leading_opaque_batches() {
    let batches = [mesh_batch(1, true), mesh_batch(2, true), mesh_batch(2, false), mesh_batch(4, true)];
    assert_eq!(leading_opaque_batches(&batches), 2);
    assert_eq!(leading_opaque_batches(&batches[2..]), 0);
    assert_eq!(leading_opaque_batches(&batches[..2]), 2);
    assert_eq!(leading_opaque_batches(&[]), 0);
}

#[test]
fn ui_batches_switch_pipeline_when_their_kind_changes() {
    let batch = |is_text: bool| UiBatch { vertex_offset: 0, index_offset: 0, vertex_count: 4, index_count: 6, is_text };
    let batches = [batch(false), batch(true), batch(true), batch(false)];
    assert_eq!(ui_pipeline_binds(&batches), vec![Some(false), Some(true), None, Some(false)]);
}

fn draw_key(is_opaque: bool, depth: u32, material_id: u32, mesh: u32) -> MeshDrawKey {
    MeshDrawKey { is_opaque, depth, material_id, mesh_id: MeshHandle(mesh) }
}

#[test]
fn meshes_are_drawn_opaque_first_then_by_depth_material_and_mesh() {
    let keys = [
        draw_key(false, 5, 1, 1),
        draw_key(true, 0, 2, 1),
        draw_key(false, 3, 9, 9),
        draw_key(true, 0, 1, 7),
        draw_key(true, 0, 1, 2),
        draw_key(false, 3, 2, 0),
    ];
    assert_eq!(mesh_draw_order(&keys), vec![4, 3, 1, 5, 2, 0]);
    assert!(mesh_draw_order(&[]).is_empty());
}

#[test]
fn meshes_are_batched_in_draw_order_opaque_batches_first() {
    let keys = [
        draw_key(false, 4, 1, 1),
        draw_key(true, 0, 2, 3),
        draw_key(true, 0, 2, 3),
        draw_key(false, 4, 1, 1),
        draw_key(true, 0, 1, 5),
    ];
    let batch_depths = [9, 0, 0, 9, 0];
    let (order, batches) = batch_meshes_in_draw_order(&keys, &batch_depths, 16);
    assert_eq!(order, vec![4, 1, 2, 0, 3]);
    assert_eq!(
        batches,
        vec![
            MeshBatch { mesh_id: MeshHandle(5), material_id: 1, instance_offset: 0, instance_count: 1, is_opaque: true },
            MeshBatch { mesh_id: MeshHandle(3), material_id: 2, instance_offset: 16, instance_count: 2, is_opaque: true },
            MeshBatch { mesh_id: MeshHandle(1), material_id: 1, instance_offset: 48, instance_count: 2, is_opaque: false },
        ]
    );
}
