use vstd::prelude::*;

verus! {

/// The six faces of a skybox, each `width` x `height` RGBA pixels.
pub struct SkyboxImageData<'a> {
    pub width: u32,
    pub height: u32,
    pub top: &'a [u8],
    pub bottom: &'a [u8],
    pub front: &'a [u8],
    pub back: &'a [u8],
    pub left: &'a [u8],
    pub right: &'a [u8],
}

impl<'a> SkyboxImageData<'a> {
    /// The faces in the order of the layers of a cube image: right, left,
    /// top, bottom, back, front.
    pub open spec fn spec_cube_layers(&self) -> Seq<u8> {
        self.right@ + self.left@ + self.top@ + self.bottom@ + self.back@ + self.front@
    }

    /// The pixel data of the six faces laid out one after another as the
    /// layers of a cube image.
    pub fn cube_layer_data(&self) -> (r: Vec<u8>)
        requires
            self.spec_cube_layers().len() <= usize::MAX,
        ensures
            r@ == self.spec_cube_layers(),
    {
        let mut all_image_data: Vec<u8> = Vec::new();
        append_bytes(&mut all_image_data, self.right);
        append_bytes(&mut all_image_data, self.left);
        append_bytes(&mut all_image_data, self.top);
        append_bytes(&mut all_image_data, self.bottom);
        append_bytes(&mut all_image_data, self.back);
        append_bytes(&mut all_image_data, self.front);
        all_image_data
    }
}

fn append_bytes(v: &mut Vec<u8>, bytes: &[u8])
    ensures
        final(v)@ == old(v)@ + bytes@,
{
    v.extend_from_slice(bytes);
    assert(v@ =~= old(v)@ + bytes@);
}

/// A face of a skybox.
#[derive(Debug, Clone, Copy, PartialEq, Eq, Structural)]
pub enum SkyboxFace {
    Top,
    Bottom,
    Front,
    Back,
    Left,
    Right,
}

/// Where a face lies in a skybox image laid out as a cross, in face-sized
/// tiles (column, row): the top above the back; left, back, right and front
/// side by side in the middle row; the bottom below the back.
pub open spec fn spec_cross_tile(face: SkyboxFace) -> (u32, u32) {
    match face {
        SkyboxFace::Top => (1, 0),
        SkyboxFace::Left => (0, 1),
        SkyboxFace::Back => (1, 1),
        SkyboxFace::Right => (2, 1),
        SkyboxFace::Front => (3, 1),
        SkyboxFace::Bottom => (1, 2),
    }
}

/// The top-left pixel of `face` in a cross-shaped skybox image whose faces
/// are `face_size` pixels square.
pub fn cross_face_origin(face: SkyboxFace, face_size: u32) -> (r: (u32, u32))
    requires
        face_size * 3 <= u32::MAX,
    ensures
        r.0 == spec_cross_tile(face).0 * face_size,
        r.1 == spec_cross_tile(face).1 * face_size,
{
    let (column, row): (u32, u32) = match face {
        SkyboxFace::Top => (1, 0),
        SkyboxFace::Left => (0, 1),
        SkyboxFace::Back => (1, 1),
        SkyboxFace::Right => (2, 1),
        SkyboxFace::Front => (3, 1),
        SkyboxFace::Bottom => (1, 2),
    };
    proof {
        assert(column * face_size <= 3 * face_size) by (nonlinear_arith)
            requires
                column <= 3,
        ;
        assert(row * face_size <= 3 * face_size) by (nonlinear_arith)
            requires
                row <= 3,
        ;
    }
    (column * face_size, row * face_size)
}

} // verus!
