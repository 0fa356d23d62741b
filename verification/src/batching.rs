use vstd::prelude::*;

verus! {

/// Index of a mesh uploaded to the renderer.
#[derive(Clone, Copy, PartialEq, Eq, PartialOrd, Ord, Debug, Structural)]
pub struct MeshHandle(pub u32);

/// A run of consecutive UI draws of one kind, drawn with one pipeline from one
/// stretch of the vertex and index buffers.
#[derive(Clone, Copy, PartialEq, Eq, Debug, Structural)]
pub struct UiBatch {
    pub vertex_offset: u32,
    pub index_offset: u32,
    pub vertex_count: u32,
    pub index_count: u32,
    pub is_text: bool,
}

/// One UI draw as the batching sees it: whether it is text, and how many
/// vertices and indices it wrote.
pub type UiDrawCounts = (bool, u32, u32);

/// The vertices written by the first `j` draws.
pub open spec fn vertices_before(d: Seq<UiDrawCounts>, j: int) -> int
    decreases j,
{
    if j <= 0 {
        0
    } else {
        vertices_before(d, j - 1) + d[j - 1].1
    }
}

/// The indices written by the first `j` draws.
pub open spec fn indices_before(d: Seq<UiDrawCounts>, j: int) -> int
    decreases j,
{
    if j <= 0 {
        0
    } else {
        indices_before(d, j - 1) + d[j - 1].2
    }
}

/// Where the run of draws of the same kind as `d[i]` that starts at `i` ends.
pub open spec fn ui_run_end(d: Seq<UiDrawCounts>, i: int) -> int
    decreases d.len() - i,
{
    if i + 1 >= d.len() || d[i + 1].0 != d[i].0 {
        i + 1
    } else {
        ui_run_end(d, i + 1)
    }
}

/// The batches for the draws from `i` on: one per maximal run of draws of one
/// kind, each covering the vertices and indices its draws wrote.
pub open spec fn ui_batches_from(d: Seq<UiDrawCounts>, i: int) -> Seq<UiBatch>
    decreases d.len() - i,
{
    if i < 0 || i >= d.len() {
        Seq::empty()
    } else {
        let e = ui_run_end(d, i);
        let b = UiBatch {
            vertex_offset: vertices_before(d, i) as u32,
            index_offset: indices_before(d, i) as u32,
            vertex_count: (vertices_before(d, e) - vertices_before(d, i)) as u32,
            index_count: (indices_before(d, e) - indices_before(d, i)) as u32,
            is_text: d[i].0,
        };
        if i < e <= d.len() {
            seq![b] + ui_batches_from(d, e)
        } else {
            seq![b]
        }
    }
}

proof fn lemma_run_end(d: Seq<UiDrawCounts>, i: int)
    requires
        0 <= i < d.len(),
    ensures
        i < ui_run_end(d, i) <= d.len(),
    decreases d.len() - i,
{
    if !(i + 1 >= d.len() || d[i + 1].0 != d[i].0) {
        lemma_run_end(d, i + 1);
    }
}

proof fn lemma_before_mono(d: Seq<UiDrawCounts>, i: int, j: int)
    requires
        0 <= i <= j,
    ensures
        vertices_before(d, i) <= vertices_before(d, j),
        indices_before(d, i) <= indices_before(d, j),
    decreases j - i,
{
    if i < j {
        lemma_before_mono(d, i, j - 1);
    }
}

proof fn lemma_run_end_kind(d: Seq<UiDrawCounts>, i: int)
    requires
        0 <= i < d.len(),
    ensures
        ui_run_end(d, i) < d.len() ==> d[ui_run_end(d, i)].0 != d[i].0,
    decreases d.len() - i,
{
    if !(i + 1 >= d.len() || d[i + 1].0 != d[i].0) {
        lemma_run_end_kind(d, i + 1);
    }
}

proof fn lemma_batches_from(d: Seq<UiDrawCounts>, i: int, k: int)
    requires
        vertices_before(d, d.len() as int) <= u32::MAX,
        indices_before(d, d.len() as int) <= u32::MAX,
        0 <= i < d.len(),
        0 <= k < ui_batches_from(d, i).len(),
    ensures
        k == 0 ==> ui_batches_from(d, i)[k].vertex_offset == vertices_before(d, i),
        k == 0 ==> ui_batches_from(d, i)[k].index_offset == indices_before(d, i),
        k + 1 < ui_batches_from(d, i).len() ==> {
            let b = ui_batches_from(d, i);
            &&& b[k + 1].vertex_offset == b[k].vertex_offset + b[k].vertex_count
            &&& b[k + 1].index_offset == b[k].index_offset + b[k].index_count
            &&& b[k + 1].is_text != b[k].is_text
        },
        k + 1 == ui_batches_from(d, i).len() ==> {
            let b = ui_batches_from(d, i);
            &&& b[k].vertex_offset + b[k].vertex_count == vertices_before(d, d.len() as int)
            &&& b[k].index_offset + b[k].index_count == indices_before(d, d.len() as int)
        },
    decreases d.len() - i,
{
    let e = ui_run_end(d, i);
    lemma_run_end(d, i);
    lemma_run_end_kind(d, i);
    lemma_before_mono(d, 0, i);
    lemma_before_mono(d, i, e);
    lemma_before_mono(d, e, d.len() as int);
    let b = ui_batches_from(d, i);
    assert(b == seq![b[0]] + ui_batches_from(d, e));
    if e < d.len() {
        lemma_batches_from(d, e, 0);
        if k >= 1 {
            lemma_batches_from(d, e, k - 1);
            assert(b[k] == ui_batches_from(d, e)[k - 1]);
            if k + 1 < b.len() {
                assert(b[k + 1] == ui_batches_from(d, e)[k]);
            }
        } else {
            assert(b[1] == ui_batches_from(d, e)[0]);
            assert(d[e].0 != d[i].0);
        }
    } else {
        assert(ui_batches_from(d, e) =~= Seq::<UiBatch>::empty());
    }
}

/// The batches tile the buffers: the first starts at zero, each starts where
/// the one before it ends and is of the other kind, and the last ends where
/// the draws' vertices and indices end.
pub proof fn law_ui_batches_tile(d: Seq<UiDrawCounts>, k: int)
    requires
        vertices_before(d, d.len() as int) <= u32::MAX,
        indices_before(d, d.len() as int) <= u32::MAX,
        0 <= k < ui_batches_from(d, 0).len(),
    ensures
        ({
            let b = ui_batches_from(d, 0);
            &&& b[0].vertex_offset == 0 && b[0].index_offset == 0
            &&& k + 1 < b.len() ==> {
                &&& b[k + 1].vertex_offset == b[k].vertex_offset + b[k].vertex_count
                &&& b[k + 1].index_offset == b[k].index_offset + b[k].index_count
                &&& b[k + 1].is_text != b[k].is_text
            }
            &&& k + 1 == b.len() ==> {
                &&& b[k].vertex_offset + b[k].vertex_count == vertices_before(d, d.len() as int)
                &&& b[k].index_offset + b[k].index_count == indices_before(d, d.len() as int)
            }
        }),
{
    lemma_batches_from(d, 0, 0);
    lemma_batches_from(d, 0, k);
}

/// Groups UI draws, in order, into batches: each maximal run of draws of one
/// kind becomes one batch whose offsets are what the earlier draws wrote and
/// whose counts are what its own draws wrote.
pub fn batch_ui_draws(draws: &[UiDrawCounts]) -> (r: Vec<UiBatch>)
    requires
        vertices_before(draws@, draws@.len() as int) <= u32::MAX,
        indices_before(draws@, draws@.len() as int) <= u32::MAX,
    ensures
        r@ == ui_batches_from(draws@, 0),
{
    let ghost d = draws@;
    let ui_count = draws.len();
    let mut ui_batches: Vec<UiBatch> = Vec::new();
    let mut start_i: usize = 0;
    let mut start_vertex: u32 = 0;
    let mut start_index: u32 = 0;
    while start_i < ui_count
        invariant
            d == draws@,
            ui_count == d.len(),
            start_i <= ui_count,
            start_vertex == vertices_before(d, start_i as int),
            start_index == indices_before(d, start_i as int),
            vertices_before(d, d.len() as int) <= u32::MAX,
            indices_before(d, d.len() as int) <= u32::MAX,
            ui_batches@ + ui_batches_from(d, start_i as int) == ui_batches_from(d, 0),
        decreases ui_count - start_i,
    {
        let is_text = draws[start_i].0;
        proof {
            lemma_before_mono(d, start_i as int + 1, d.len() as int);
        }
        let mut end_vertex: u32 = start_vertex + draws[start_i].1;
        let mut end_index: u32 = start_index + draws[start_i].2;
        let mut end_i: usize = start_i + 1;
        while end_i < ui_count
            invariant
                d == draws@,
                ui_count == d.len(),
                start_i < end_i <= ui_count,
                d[end_i - 1].0 == is_text,
                is_text == d[start_i as int].0,
                ui_run_end(d, start_i as int) == ui_run_end(d, end_i - 1),
                end_vertex == vertices_before(d, end_i as int),
                end_index == indices_before(d, end_i as int),
                vertices_before(d, d.len() as int) <= u32::MAX,
                indices_before(d, d.len() as int) <= u32::MAX,
            ensures
                start_i < end_i <= ui_count,
                ui_run_end(d, start_i as int) == end_i,
                end_vertex == vertices_before(d, end_i as int),
                end_index == indices_before(d, end_i as int),
            decreases ui_count - end_i,
        {
            let is_next_text = draws[end_i].0;
            if is_text != is_next_text {
                break;
            }
            proof {
                lemma_before_mono(d, end_i as int + 1, d.len() as int);
            }
            end_vertex = end_vertex + draws[end_i].1;
            end_index = end_index + draws[end_i].2;
            end_i = end_i + 1;
        }
        proof {
            lemma_before_mono(d, start_i as int, end_i as int);
            lemma_run_end(d, start_i as int);
        }
        let batch = UiBatch {
            vertex_offset: start_vertex,
            index_offset: start_index,
            vertex_count: end_vertex - start_vertex,
            index_count: end_index - start_index,
            is_text,
        };
        proof {
            let s = start_i as int;
            assert(ui_batches_from(d, s) == seq![batch] + ui_batches_from(d, end_i as int));
            assert(ui_batches@.push(batch) + ui_batches_from(d, end_i as int) =~= ui_batches@ + ui_batches_from(d, s));
        }
        ui_batches.push(batch);
        start_i = end_i;
        start_vertex = end_vertex;
        start_index = end_index;
    }
    proof {
        assert(ui_batches@ + ui_batches_from(d, start_i as int) =~= ui_batches@);
    }
    ui_batches
}

/// Appends the indices of the two triangles of a quad whose four vertices
/// start at `vert_offset` (taken modulo 2^16): corners 0, 1, 2 and 0, 2, 3.
pub fn push_quad_indices(indices: &mut Vec<u16>, vert_offset: usize)
    requires
        (vert_offset as u16) + 3 <= u16::MAX,
    ensures
        ({
            let o = vert_offset as u16;
            final(indices)@ == old(indices)@ + seq![o, (o + 1) as u16, (o + 2) as u16, o, (o + 2) as u16, (o + 3) as u16]
        }),
{
    #[verifier::truncate]
    let o = vert_offset as u16;
    indices.push(o);
    indices.push(o + 1);
    indices.push(o + 2);
    indices.push(o);
    indices.push(o + 2);
    indices.push(o + 3);
    assert(indices@ =~= old(indices)@ + seq![o, (o + 1) as u16, (o + 2) as u16, o, (o + 2) as u16, (o + 3) as u16]);
}

/// The most mesh instances drawn in one frame.
pub const MAX_INSTANCE_COUNT: usize = 10000;

/// A run of consecutive mesh instances sharing mesh, material and depth, drawn
/// with one instanced call.
#[derive(Clone, Copy, PartialEq, Eq, Debug, Structural)]
pub struct MeshBatch {
    pub mesh_id: MeshHandle,
    pub material_id: u32,
    pub instance_offset: u64,
    pub instance_count: u32,
    pub is_opaque: bool,
}

/// What the batching reads of one mesh instance, in draw order: its material
/// and mesh, its depth key (zero for opaque instances), and whether it is opaque.
#[derive(Clone, Copy, PartialEq, Eq, Debug, Structural)]
pub struct MeshInstanceKey {
    pub material_id: u32,
    pub mesh_id: MeshHandle,
    pub depth: u32,
    pub is_opaque: bool,
}

/// Two instances can share a draw call.
pub open spec fn same_batch(a: MeshInstanceKey, b: MeshInstanceKey) -> bool {
    a.material_id == b.material_id && a.mesh_id == b.mesh_id && a.depth == b.depth
}

/// How many instances are drawn: at most `MAX_INSTANCE_COUNT`.
pub open spec fn drawn_count(n: int) -> int {
    if n <= MAX_INSTANCE_COUNT { n } else { MAX_INSTANCE_COUNT as int }
}

/// Where the run of instances that can share a draw call with `k[i]` ends,
/// among the first `n`.
pub open spec fn mesh_run_end(k: Seq<MeshInstanceKey>, n: int, i: int) -> int
    decreases n - i,
{
    if i + 1 >= n || !same_batch(k[i + 1], k[i]) {
        i + 1
    } else {
        mesh_run_end(k, n, i + 1)
    }
}

/// The batches for the first `n` instances from `i` on: one per maximal run
/// of instances that can share a draw call, its offset in bytes being the
/// instances before it times `instance_size`.
pub open spec fn mesh_batches_from(k: Seq<MeshInstanceKey>, n: int, i: int, instance_size: u64) -> Seq<MeshBatch>
    decreases n - i,
{
    if i < 0 || i >= n {
        Seq::empty()
    } else {
        let e = mesh_run_end(k, n, i);
        let b = MeshBatch {
            mesh_id: k[i].mesh_id,
            material_id: k[i].material_id,
            instance_offset: (i * instance_size) as u64,
            instance_count: (e - i) as u32,
            is_opaque: k[i].is_opaque,
        };
        if i < e <= n {
            seq![b] + mesh_batches_from(k, n, e, instance_size)
        } else {
            seq![b]
        }
    }
}

proof fn lemma_mesh_run_end(k: Seq<MeshInstanceKey>, n: int, i: int)
    requires
        0 <= i < n,
    ensures
        i < mesh_run_end(k, n, i) <= n,
    decreases n - i,
{
    if !(i + 1 >= n || !same_batch(k[i + 1], k[i])) {
        lemma_mesh_run_end(k, n, i + 1);
    }
}

proof fn lemma_mesh_batches_from(k: Seq<MeshInstanceKey>, n: int, i: int, size: u64, j: int)
    requires
        n <= MAX_INSTANCE_COUNT,
        size * MAX_INSTANCE_COUNT <= u64::MAX,
        0 <= i < n,
        0 <= j < mesh_batches_from(k, n, i, size).len(),
    ensures
        j == 0 ==> mesh_batches_from(k, n, i, size)[j].instance_offset == i * size,
        j + 1 < mesh_batches_from(k, n, i, size).len() ==> {
            let b = mesh_batches_from(k, n, i, size);
            b[j + 1].instance_offset == b[j].instance_offset + b[j].instance_count * size
        },
        j + 1 == mesh_batches_from(k, n, i, size).len() ==> {
            let b = mesh_batches_from(k, n, i, size);
            b[j].instance_offset + b[j].instance_count * size == n * size
        },
    decreases n - i,
{
    let e = mesh_run_end(k, n, i);
    lemma_mesh_run_end(k, n, i);
    let b = mesh_batches_from(k, n, i, size);
    assert(i * size <= MAX_INSTANCE_COUNT * size) by (nonlinear_arith)
        requires
            0 <= i <= MAX_INSTANCE_COUNT,
    ;
    assert(e * size == i * size + (e - i) * size) by (nonlinear_arith);
    assert(b == seq![b[0]] + mesh_batches_from(k, n, e, size));
    if e < n {
        lemma_mesh_batches_from(k, n, e, size, 0);
        if j >= 1 {
            lemma_mesh_batches_from(k, n, e, size, j - 1);
            assert(b[j] == mesh_batches_from(k, n, e, size)[j - 1]);
            if j + 1 < b.len() {
                assert(b[j + 1] == mesh_batches_from(k, n, e, size)[j]);
            }
        } else {
            assert(b[1] == mesh_batches_from(k, n, e, size)[0]);
        }
    } else {
        assert(mesh_batches_from(k, n, e, size) =~= Seq::<MeshBatch>::empty());
    }
}

/// The batches tile the instances drawn: the first starts at offset zero,
/// each starts where the one before it ends, and the last ends after the
/// last instance drawn.
pub proof fn law_mesh_batches_tile(keys: Seq<MeshInstanceKey>, size: u64, j: int)
    requires
        size * MAX_INSTANCE_COUNT <= u64::MAX,
        0 <= j < mesh_batches_from(keys, drawn_count(keys.len() as int), 0, size).len(),
    ensures
        ({
            let n = drawn_count(keys.len() as int);
            let b = mesh_batches_from(keys, n, 0, size);
            &&& b[0].instance_offset == 0
            &&& j + 1 < b.len() ==> b[j + 1].instance_offset == b[j].instance_offset + b[j].instance_count * size
            &&& j + 1 == b.len() ==> b[j].instance_offset + b[j].instance_count * size == n * size
        }),
{
    let n = drawn_count(keys.len() as int);
    lemma_mesh_batches_from(keys, n, 0, size, 0);
    lemma_mesh_batches_from(keys, n, 0, size, j);
}

/// Groups the instances drawn this frame (the first `MAX_INSTANCE_COUNT` of
/// `keys`, already in draw order) into batches: each maximal run of instances
/// with the same material, mesh and depth becomes one batch.
pub fn batch_mesh_instances(keys: &[MeshInstanceKey], instance_size: u64) -> (r: Vec<MeshBatch>)
    requires
        instance_size * MAX_INSTANCE_COUNT <= u64::MAX,
    ensures
        r@ == mesh_batches_from(keys@, drawn_count(keys@.len() as int), 0, instance_size),
{
    let ghost k = keys@;
    let mesh_count = if keys.len() < MAX_INSTANCE_COUNT { keys.len() } else { MAX_INSTANCE_COUNT };
    let ghost n = mesh_count as int;
    let mut batch_infos: Vec<MeshBatch> = Vec::new();
    let mut start: usize = 0;
    while start < mesh_count
        invariant
            k == keys@,
            n == mesh_count,
            n == drawn_count(k.len() as int),
            n <= k.len(),
            n <= MAX_INSTANCE_COUNT,
            instance_size * MAX_INSTANCE_COUNT <= u64::MAX,
            start <= mesh_count,
            batch_infos@ + mesh_batches_from(k, n, start as int, instance_size) == mesh_batches_from(k, n, 0, instance_size),
        decreases mesh_count - start,
    {
        let key = keys[start];
        let mut end: usize = start + 1;
        while end < mesh_count
            invariant
                k == keys@,
                n == mesh_count,
                n <= k.len(),
                start < end <= mesh_count,
                key == k[start as int],
                same_batch(k[end - 1], key),
                mesh_run_end(k, n, start as int) == mesh_run_end(k, n, end - 1),
            ensures
                start < end <= mesh_count,
                mesh_run_end(k, n, start as int) == end,
            decreases mesh_count - end,
        {
            let new_key = keys[end];
            if new_key.material_id != key.material_id || new_key.mesh_id.0 != key.mesh_id.0 || new_key.depth != key.depth {
                break;
            }
            end = end + 1;
        }
        proof {
            lemma_mesh_run_end(k, n, start as int);
            assert(start * instance_size <= MAX_INSTANCE_COUNT * instance_size) by (nonlinear_arith)
                requires
                    start <= MAX_INSTANCE_COUNT,
            ;
        }
        let batch = MeshBatch {
            mesh_id: key.mesh_id,
            material_id: key.material_id,
            instance_offset: start as u64 * instance_size,
            instance_count: (end - start) as u32,
            is_opaque: key.is_opaque,
        };
        proof {
            let s = start as int;
            assert(mesh_batches_from(k, n, s, instance_size) == seq![batch] + mesh_batches_from(k, n, end as int, instance_size));
            assert(batch_infos@.push(batch) + mesh_batches_from(k, n, end as int, instance_size)
                =~= batch_infos@ + mesh_batches_from(k, n, s, instance_size));
        }
        batch_infos.push(batch);
        start = end;
    }
    proof {
        assert(batch_infos@ + mesh_batches_from(k, n, start as int, instance_size) =~= batch_infos@);
    }
    batch_infos
}

/// What has to be bound before a mesh batch is drawn: the pipeline (by
/// whether it is the opaque one) where it differs from the previous batch's,
/// and the material where it differs from the previous batch's.
#[derive(Clone, Copy, PartialEq, Eq, Debug, Structural)]
pub struct MeshDrawBinds {
    pub pipeline: Option<bool>,
    pub material: Option<u32>,
}

/// The binds of batch `i` of `b`.
pub open spec fn spec_mesh_binds(b: Seq<MeshBatch>, i: int) -> MeshDrawBinds {
    MeshDrawBinds {
        pipeline: if i == 0 || b[i - 1].is_opaque != b[i].is_opaque { Some(b[i].is_opaque) } else { None },
        material: if i == 0 || b[i - 1].material_id != b[i].material_id { Some(b[i].material_id) } else { None },
    }
}

/// The pipeline bound when batch `i` is drawn: the last one bound at or before it.
pub open spec fn bound_pipeline(b: Seq<MeshBatch>, i: int) -> Option<bool>
    decreases i,
{
    if i < 0 {
        None
    } else {
        match spec_mesh_binds(b, i).pipeline {
            Some(p) => Some(p),
            None => bound_pipeline(b, i - 1),
        }
    }
}

/// The material bound when batch `i` is drawn: the last one bound at or before it.
pub open spec fn bound_material(b: Seq<MeshBatch>, i: int) -> Option<u32>
    decreases i,
{
    if i < 0 {
        None
    } else {
        match spec_mesh_binds(b, i).material {
            Some(m) => Some(m),
            None => bound_material(b, i - 1),
        }
    }
}

/// Binding only what changes draws every batch with its own pipeline and
/// its own material.
pub proof fn law_mesh_binds_match_batches(b: Seq<MeshBatch>, i: int)
    requires
        0 <= i < b.len(),
    ensures
        bound_pipeline(b, i) == Some(b[i].is_opaque),
        bound_material(b, i) == Some(b[i].material_id),
    decreases i,
{
    if i > 0 {
        law_mesh_binds_match_batches(b, i - 1);
    }
}

/// For each batch, in order, what has to be bound before it is drawn.
pub fn mesh_draw_binds(batches: &[MeshBatch]) -> (r: Vec<MeshDrawBinds>)
    ensures
        r@.len() == batches@.len(),
        forall|i: int| 0 <= i < batches@.len() ==> r@[i] == spec_mesh_binds(batches@, i),
{
    let mut binds: Vec<MeshDrawBinds> = Vec::new();
    let mut is_opaque: Option<bool> = None;
    let mut last_material: Option<u32> = None;
    let mut i: usize = 0;
    while i < batches.len()
        invariant
            i <= batches@.len(),
            binds@.len() == i,
            forall|j: int| 0 <= j < i ==> binds@[j] == spec_mesh_binds(batches@, j),
            i == 0 ==> is_opaque is None && last_material is None,
            i > 0 ==> is_opaque == Some(batches@[i - 1].is_opaque) && last_material == Some(batches@[i - 1].material_id),
        decreases batches@.len() - i,
    {
        let batch = batches[i];
        let pipeline = if is_opaque != Some(batch.is_opaque) {
            is_opaque = Some(batch.is_opaque);
            Some(batch.is_opaque)
        } else {
            None
        };
        let material = if last_material != Some(batch.material_id) {
            last_material = Some(batch.material_id);
            Some(batch.material_id)
        } else {
            None
        };
        binds.push(MeshDrawBinds { pipeline, material });
        i += 1;
    }
    binds
}

/// How many batches at the front are opaque: the ones drawn into the shadow
/// map, which stops at the first transparent batch.
pub fn leading_opaque_batches(batches: &[MeshBatch]) -> (r: usize)
    ensures
        r <= batches@.len(),
        forall|i: int| 0 <= i < r ==> batches@[i].is_opaque,
        r < batches@.len() ==> !batches@[r as int].is_opaque,
{
    let mut i: usize = 0;
    while i < batches.len()
        invariant
            i <= batches@.len(),
            forall|j: int| 0 <= j < i ==> batches@[j].is_opaque,
        decreases batches@.len() - i,
    {
        if !batches[i].is_opaque {
            return i;
        }
        i += 1;
    }
    i
}

/// The pipeline (text or not) to bind before UI batch `i` of `b`, where it
/// differs from the previous batch's.
pub open spec fn spec_ui_pipeline_bind(b: Seq<UiBatch>, i: int) -> Option<bool> {
    if i == 0 || b[i - 1].is_text != b[i].is_text { Some(b[i].is_text) } else { None }
}

/// The UI pipeline bound when batch `i` is drawn.
pub open spec fn bound_ui_pipeline(b: Seq<UiBatch>, i: int) -> Option<bool>
    decreases i,
{
    if i < 0 {
        None
    } else {
        match spec_ui_pipeline_bind(b, i) {
            Some(p) => Some(p),
            None => bound_ui_pipeline(b, i - 1),
        }
    }
}

/// Binding only what changes draws every UI batch with the pipeline of its kind.
pub proof fn law_ui_binds_match_batches(b: Seq<UiBatch>, i: int)
    requires
        0 <= i < b.len(),
    ensures
        bound_ui_pipeline(b, i) == Some(b[i].is_text),
    decreases i,
{
    if i > 0 {
        law_ui_binds_match_batches(b, i - 1);
    }
}

/// For each UI batch, in order, the pipeline to bind before it is drawn, if any.
pub fn ui_pipeline_binds(batches: &[UiBatch]) -> (r: Vec<Option<bool>>)
    ensures
        r@.len() == batches@.len(),
        forall|i: int| 0 <= i < batches@.len() ==> r@[i] == spec_ui_pipeline_bind(batches@, i),
{
    let mut binds: Vec<Option<bool>> = Vec::new();
    let mut is_text: Option<bool> = None;
    let mut i: usize = 0;
    while i < batches.len()
        invariant
            i <= batches@.len(),
            binds@.len() == i,
            forall|j: int| 0 <= j < i ==> binds@[j] == spec_ui_pipeline_bind(batches@, j),
            i == 0 ==> is_text is None,
            i > 0 ==> is_text == Some(batches@[i - 1].is_text),
        decreases batches@.len() - i,
    {
        let batch_is_text = batches[i].is_text;
        if is_text != Some(batch_is_text) {
            is_text = Some(batch_is_text);
            binds.push(Some(batch_is_text));
        } else {
            binds.push(None);
        }
        i += 1;
    }
    binds
}

/// What the draw order of a mesh instance is decided by: whether it is
/// opaque, its depth key (zero for opaque instances), its material and its mesh.
#[derive(Clone, Copy, PartialEq, Eq, Debug, Structural)]
pub struct MeshDrawKey {
    pub is_opaque: bool,
    pub depth: u32,
    pub material_id: u32,
    pub mesh_id: MeshHandle,
}

/// Transparent instances come after opaque ones.
pub open spec fn transparency_rank(k: MeshDrawKey) -> int {
    if k.is_opaque { 0 } else { 1 }
}

/// `a` may be drawn before `b`: compared by opacity (opaque first), then
/// depth key, then material, then mesh, each smallest first.
pub open spec fn draw_key_le(a: MeshDrawKey, b: MeshDrawKey) -> bool {
    ||| transparency_rank(a) < transparency_rank(b)
    ||| transparency_rank(a) == transparency_rank(b) && a.depth < b.depth
    ||| transparency_rank(a) == transparency_rank(b) && a.depth == b.depth && a.material_id < b.material_id
    ||| transparency_rank(a) == transparency_rank(b) && a.depth == b.depth && a.material_id == b.material_id
        && a.mesh_id.0 <= b.mesh_id.0
}

/// `order` lists each of the `n` instances exactly once.
pub open spec fn is_permutation(order: Seq<usize>, n: int) -> bool {
    &&& order.len() == n
    &&& forall|a: int| 0 <= a < order.len() ==> #[trigger] order[a] < n
    &&& forall|a: int, b: int| 0 <= a < order.len() && 0 <= b < order.len() && a != b ==> #[trigger] order[a] != #[trigger] order[b]
}

/// `order` lists the instances of `keys` in draw order.
pub open spec fn in_draw_order(keys: Seq<MeshDrawKey>, order: Seq<usize>) -> bool {
    forall|a: int, b: int| 0 <= a < b < order.len() ==> draw_key_le(#[trigger] keys[order[a] as int], #[trigger] keys[order[b] as int])
}

/// Whether `a` may be drawn before `b`.
fn draw_key_le_exec(a: &MeshDrawKey, b: &MeshDrawKey) -> (r: bool)
    ensures
        r == draw_key_le(*a, *b),
{
    if a.is_opaque != b.is_opaque {
        return a.is_opaque;
    }
    if a.depth != b.depth {
        return a.depth < b.depth;
    }
    if a.material_id != b.material_id {
        return a.material_id < b.material_id;
    }
    a.mesh_id.0 <= b.mesh_id.0
}

/// The order the instances of `keys` are drawn in, as positions in `keys`:
/// every instance once, opaque ones first, then by depth key, material and
/// mesh.
pub fn mesh_draw_order(keys: &[MeshDrawKey]) -> (order: Vec<usize>)
    ensures
        is_permutation(order@, keys@.len() as int),
        in_draw_order(keys@, order@),
{
    let mut order: Vec<usize> = Vec::new();
    let n = keys.len();
    for i in 0..n
        invariant
            n == keys@.len(),
            is_permutation(order@, i as int),
            in_draw_order(keys@, order@),
    {
        let key = keys[i];
        let mut pos: usize = 0;
        while pos < order.len() && draw_key_le_exec(&keys[order[pos]], &key)
            invariant
                n == keys@.len(),
                i < n,
                key == keys@[i as int],
                is_permutation(order@, i as int),
                in_draw_order(keys@, order@),
                pos <= order@.len(),
                forall|a: int| 0 <= a < pos ==> draw_key_le(#[trigger] keys@[order@[a] as int], key),
            decreases order@.len() - pos,
        {
            pos += 1;
        }
        let ghost before = order@;
        order.insert(pos, i);
        proof {
            let now = order@;
            assert(now == before.insert(pos as int, i));
            assert forall|a: int| 0 <= a < now.len() implies #[trigger] now[a] < i + 1 by {
                if a < pos {
                    assert(now[a] == before[a]);
                } else if a > pos {
                    assert(now[a] == before[a - 1]);
                }
            }
            assert forall|a: int, b: int| 0 <= a < now.len() && 0 <= b < now.len() && a != b implies #[trigger] now[a] != #[trigger] now[b] by {
                let oa = if a < pos { a } else { a - 1 };
                let ob = if b < pos { b } else { b - 1 };
                if a != pos as int && b != pos as int {
                    assert(now[a] == before[oa] && now[b] == before[ob]);
                } else if a == pos as int {
                    assert(now[b] == before[ob]);
                } else {
                    assert(now[a] == before[oa]);
                }
            }
            assert forall|a: int, b: int| 0 <= a < b < now.len() implies draw_key_le(#[trigger] keys@[now[a] as int], #[trigger] keys@[now[b] as int]) by {
                if b < pos {
                    assert(now[a] == before[a] && now[b] == before[b]);
                } else if b == pos {
                    assert(now[a] == before[a]);
                    assert(draw_key_le(keys@[before[a] as int], key));
                } else if a < pos {
                    assert(now[a] == before[a] && now[b] == before[b - 1]);
                    assert(draw_key_le(keys@[before[a] as int], key));
                    assert(!draw_key_le(keys@[before[pos as int] as int], key));
                    if b - 1 > pos {
                        assert(draw_key_le(keys@[before[pos as int] as int], keys@[before[b - 1] as int]));
                    }
                } else if a == pos {
                    assert(now[b] == before[b - 1]);
                    assert(!draw_key_le(keys@[before[pos as int] as int], key));
                    if b - 1 > pos {
                        assert(draw_key_le(keys@[before[pos as int] as int], keys@[before[b - 1] as int]));
                    }
                } else {
                    assert(now[a] == before[a - 1] && now[b] == before[b - 1]);
                }
            }
        }
    }
    order
}

/// In draw order, no transparent instance comes before an opaque one.
pub proof fn law_opaque_drawn_first(keys: Seq<MeshDrawKey>, order: Seq<usize>, a: int, b: int)
    requires
        in_draw_order(keys, order),
        0 <= a < b < order.len(),
        keys[order[b] as int].is_opaque,
    ensures
        keys[order[a] as int].is_opaque,
{
    assert(draw_key_le(keys[order[a] as int], keys[order[b] as int]));
}

/// Every batch made from the instances `i..n` that is opaque starts at an
/// opaque instance among them.
proof fn lemma_opaque_batch_source(k: Seq<MeshInstanceKey>, n: int, i: int, size: u64)
    requires
        0 <= i,
        n <= k.len(),
    ensures
        forall|y: int| 0 <= y < mesh_batches_from(k, n, i, size).len() && (#[trigger] mesh_batches_from(k, n, i, size)[y]).is_opaque
            ==> exists|j: int| i <= j < n && k[j].is_opaque,
    decreases n - i,
{
    if 0 <= i < n {
        let e = mesh_run_end(k, n, i);
        lemma_mesh_run_end(k, n, i);
        lemma_opaque_batch_source(k, n, e, size);
        let b = mesh_batches_from(k, n, i, size);
        let rest = mesh_batches_from(k, n, e, size);
        assert forall|y: int| 0 <= y < b.len() && (#[trigger] b[y]).is_opaque implies exists|j: int| i <= j < n && k[j].is_opaque by {
            if y == 0 {
                assert(k[i].is_opaque);
            } else {
                assert(b[y] == rest[y - 1]);
                let j = choose|j: int| e <= j < n && k[j].is_opaque;
                assert(i <= j < n && k[j].is_opaque);
            }
        }
    }
}

/// When no transparent instance comes before an opaque one, no transparent
/// batch comes before an opaque one either.
pub proof fn law_opaque_batches_first(k: Seq<MeshInstanceKey>, n: int, i: int, size: u64)
    requires
        0 <= i,
        n <= k.len(),
        forall|a: int, b: int| i <= a < b < n && (#[trigger] k[b]).is_opaque ==> (#[trigger] k[a]).is_opaque,
    ensures
        forall|x: int, y: int| 0 <= x < y < mesh_batches_from(k, n, i, size).len()
            && (#[trigger] mesh_batches_from(k, n, i, size)[y]).is_opaque
            ==> (#[trigger] mesh_batches_from(k, n, i, size)[x]).is_opaque,
    decreases n - i,
{
    if 0 <= i < n {
        let e = mesh_run_end(k, n, i);
        lemma_mesh_run_end(k, n, i);
        law_opaque_batches_first(k, n, e, size);
        lemma_opaque_batch_source(k, n, e, size);
        let b = mesh_batches_from(k, n, i, size);
        let rest = mesh_batches_from(k, n, e, size);
        assert forall|x: int, y: int| 0 <= x < y < b.len() && (#[trigger] b[y]).is_opaque implies (#[trigger] b[x]).is_opaque by {
            assert(b[y] == rest[y - 1]);
            if x == 0 {
                let j = choose|j: int| e <= j < n && k[j].is_opaque;
                assert(k[i].is_opaque);
            } else {
                assert(b[x] == rest[x - 1]);
            }
        }
    }
}

/// The instance keys of meshes taken in `order`: the draw key's opacity,
/// material and mesh, with the depth the batching compares.
pub open spec fn keys_in_order(draw_keys: Seq<MeshDrawKey>, batch_depths: Seq<u32>, order: Seq<usize>) -> Seq<MeshInstanceKey> {
    Seq::new(order.len(), |t: int| MeshInstanceKey {
        material_id: draw_keys[order[t] as int].material_id,
        mesh_id: draw_keys[order[t] as int].mesh_id,
        depth: batch_depths[order[t] as int],
        is_opaque: draw_keys[order[t] as int].is_opaque,
    })
}

/// Puts the meshes in draw order and groups the ones drawn this frame into
/// batches: `draw_keys` decides the order and `batch_depths` the depth each
/// mesh is batched by. Returns the order (positions in `draw_keys`) and the
/// batches, opaque batches before transparent ones.
pub fn batch_meshes_in_draw_order(draw_keys: &[MeshDrawKey], batch_depths: &[u32], instance_size: u64) -> (r: (
    Vec<usize>,
    Vec<MeshBatch>,
))
    requires
        batch_depths@.len() == draw_keys@.len(),
        instance_size * MAX_INSTANCE_COUNT <= u64::MAX,
    ensures
        is_permutation(r.0@, draw_keys@.len() as int),
        in_draw_order(draw_keys@, r.0@),
        r.1@ == mesh_batches_from(
            keys_in_order(draw_keys@, batch_depths@, r.0@),
            drawn_count(draw_keys@.len() as int),
            0,
            instance_size,
        ),
        forall|x: int, y: int| 0 <= x < y < r.1@.len() && (#[trigger] r.1@[y]).is_opaque ==> (#[trigger] r.1@[x]).is_opaque,
{
    let order = mesh_draw_order(draw_keys);
    let mut keys: Vec<MeshInstanceKey> = Vec::new();
    let n = order.len();
    for t in 0..n
        invariant
            n == order@.len(),
            is_permutation(order@, draw_keys@.len() as int),
            batch_depths@.len() == draw_keys@.len(),
            keys@ =~= keys_in_order(draw_keys@, batch_depths@, order@).take(t as int),
    {
        let i = order[t];
        let key = draw_keys[i];
        keys.push(MeshInstanceKey { material_id: key.material_id, mesh_id: key.mesh_id, depth: batch_depths[i], is_opaque: key.is_opaque });
    }
    let ghost ks = keys_in_order(draw_keys@, batch_depths@, order@);
    assert(keys@ =~= ks);
    let batches = batch_mesh_instances(&keys, instance_size);
    proof {
        assert forall|a: int, b: int| 0 <= a < b < drawn_count(ks.len() as int) && (#[trigger] ks[b]).is_opaque implies (#[trigger] ks[a]).is_opaque by {
            law_opaque_drawn_first(draw_keys@, order@, a, b);
        }
        law_opaque_batches_first(ks, drawn_count(ks.len() as int), 0, instance_size);
    }
    (order, batches)
}

} // verus!
