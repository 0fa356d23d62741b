use image::GenericImage;

use vstd::prelude::*;

use crate::atlas_image::{rgba_image_bytes, rgba_image_dims, DebugImage};
use crate::textures::{cross_face_origin, spec_cross_tile, SkyboxFace, SkyboxImageData};

verus! {

/// What decoding the encoded image `b` and converting it to RGBA gives: its
/// RGBA bytes row by row and its width and height, or nothing when `b` is no
/// image the decoders can read.
pub uninterp spec fn png_decode(b: Seq<u8>) -> Option<(Seq<u8>, Seq<u32>)>;

/// `image::load_from_memory` followed by `DynamicImage::into_rgba8`: the
/// image `png` encodes, as RGBA, when the decoders can read it. The result
/// is a function of the bytes alone; like every RGBA image it has a width
/// and a height and at least four bytes per pixel.
#[verifier::external_body]
fn decode_rgba(png: &[u8]) -> (r: Option<DebugImage>)
    ensures
        match png_decode(png@) {
            None => r is None,
            Some((bytes, dims)) => r matches Some(img) && rgba_image_bytes(img) == bytes && rgba_image_dims(img) == dims,
        },
        r matches Some(img) ==> rgba_image_dims(img).len() == 2
            && 4 * (rgba_image_dims(img)[0] * rgba_image_dims(img)[1]) <= rgba_image_bytes(img).len(),
{
    image::load_from_memory(png).ok().map(|decoded| DebugImage { image: decoded.into_rgba8() })
}

/// `ImageBuffer::dimensions` of an RGBA image: its width and height.
#[verifier::external_body]
fn image_dims(img: &DebugImage) -> (r: (u32, u32))
    ensures
        rgba_image_dims(*img) == seq![r.0, r.1],
{
    img.image.dimensions()
}

/// `crop` is the `w` x `h` part of an RGBA image of width `width` whose
/// top-left pixel is (`x`, `y`), row by row, four bytes per pixel.
pub open spec fn is_crop(crop: Seq<u8>, bytes: Seq<u8>, width: int, x: int, y: int, w: int, h: int) -> bool {
    &&& crop.len() == 4 * (w * h)
    &&& forall|px: int, py: int, c: int| 0 <= px < w && 0 <= py < h && 0 <= c < 4
        ==> #[trigger] crop[4 * (py * w + px) + c] == bytes[4 * ((y + py) * width + x + px) + c]
}

/// `GenericImage::sub_image(x, y, w, h).to_image()` on an RGBA image, as
/// raw bytes: the pixels of the `w` x `h` rectangle at (`x`, `y`), copied row
/// by row. The rectangle must lie inside the image, which `sub_image`
/// asserts; the image is left as it was.
#[verifier::external_body]
fn rgba_crop(img: &mut DebugImage, x: u32, y: u32, w: u32, h: u32) -> (r: Vec<u8>)
    requires
        rgba_image_dims(*old(img)).len() == 2,
        x + w <= rgba_image_dims(*old(img))[0],
        y + h <= rgba_image_dims(*old(img))[1],
    ensures
        rgba_image_bytes(*final(img)) == rgba_image_bytes(*old(img)),
        rgba_image_dims(*final(img)) == rgba_image_dims(*old(img)),
        is_crop(r@, rgba_image_bytes(*old(img)), rgba_image_dims(*old(img))[0] as int, x as int, y as int, w as int, h as int),
{
    img.image.sub_image(x, y, w, h).to_image().into_raw()
}

/// The six faces of a skybox, each `face_size` pixels square, as RGBA bytes.
pub struct SkyboxFaces {
    pub face_size: u32,
    pub top: Vec<u8>,
    pub bottom: Vec<u8>,
    pub front: Vec<u8>,
    pub back: Vec<u8>,
    pub left: Vec<u8>,
    pub right: Vec<u8>,
}

/// `face` is the crop of face `which` out of a cross-shaped RGBA image.
pub open spec fn is_face(face: Seq<u8>, bytes: Seq<u8>, width: int, which: SkyboxFace, face_size: int) -> bool {
    is_crop(face, bytes, width, spec_cross_tile(which).0 * face_size, spec_cross_tile(which).1 * face_size, face_size, face_size)
}

/// A cross of `face_size`-pixel faces fits in an image of `dims`: four faces
/// across and three down.
pub open spec fn cross_fits(dims: Seq<u32>, face_size: int) -> bool {
    dims.len() == 2 && 4 * face_size <= dims[0] && 3 * face_size <= dims[1]
}

impl SkyboxFaces {
    /// The faces as the skybox data a cube texture is made from.
    pub fn image_data(&self) -> (r: SkyboxImageData<'_>)
        ensures
            r.width == self.face_size,
            r.height == self.face_size,
            r.top@ == self.top@,
            r.bottom@ == self.bottom@,
            r.front@ == self.front@,
            r.back@ == self.back@,
            r.left@ == self.left@,
            r.right@ == self.right@,
    {
        SkyboxImageData {
            width: self.face_size,
            height: self.face_size,
            top: self.top.as_slice(),
            bottom: self.bottom.as_slice(),
            front: self.front.as_slice(),
            back: self.back.as_slice(),
            left: self.left.as_slice(),
            right: self.right.as_slice(),
        }
    }
}

/// The faces of the cross-shaped skybox image that `png` encodes, each
/// `face_size` pixels square and cut out at its place in the cross. None
/// when `png` is no readable image or the cross does not fit in it.
pub fn skybox_faces(png: &[u8], face_size: u32) -> (r: Option<SkyboxFaces>)
    ensures
        match png_decode(png@) {
            Some(decoded) => if cross_fits(decoded.1, face_size as int) {
                r matches Some(f) && {
                    let bytes = decoded.0;
                    let w = decoded.1[0] as int;
                    let s = face_size as int;
                    &&& f.face_size == face_size
                    &&& is_face(f.top@, bytes, w, SkyboxFace::Top, s)
                    &&& is_face(f.bottom@, bytes, w, SkyboxFace::Bottom, s)
                    &&& is_face(f.front@, bytes, w, SkyboxFace::Front, s)
                    &&& is_face(f.back@, bytes, w, SkyboxFace::Back, s)
                    &&& is_face(f.left@, bytes, w, SkyboxFace::Left, s)
                    &&& is_face(f.right@, bytes, w, SkyboxFace::Right, s)
                }
            } else {
                r is None
            },
            None => r is None,
        },
{
    let mut img = match decode_rgba(png) {
        Some(img) => img,
        None => return None,
    };
    let (width, height) = image_dims(&img);
    if 4 * (face_size as u64) > width as u64 || 3 * (face_size as u64) > height as u64 {
        return None;
    }
    let top = cut_face(&mut img, SkyboxFace::Top, face_size);
    let bottom = cut_face(&mut img, SkyboxFace::Bottom, face_size);
    let front = cut_face(&mut img, SkyboxFace::Front, face_size);
    let back = cut_face(&mut img, SkyboxFace::Back, face_size);
    let left = cut_face(&mut img, SkyboxFace::Left, face_size);
    let right = cut_face(&mut img, SkyboxFace::Right, face_size);
    Some(SkyboxFaces { face_size, top, bottom, front, back, left, right })
}

/// Cuts face `which` out of the cross-shaped image `img`.
fn cut_face(img: &mut DebugImage, which: SkyboxFace, face_size: u32) -> (r: Vec<u8>)
    requires
        cross_fits(rgba_image_dims(*old(img)), face_size as int),
    ensures
        rgba_image_bytes(*final(img)) == rgba_image_bytes(*old(img)),
        rgba_image_dims(*final(img)) == rgba_image_dims(*old(img)),
        is_face(r@, rgba_image_bytes(*old(img)), rgba_image_dims(*old(img))[0] as int, which, face_size as int),
{
    let (x, y) = cross_face_origin(which, face_size);
    proof {
        let (c, w) = spec_cross_tile(which);
        assert(c * face_size + face_size <= 4 * face_size) by (nonlinear_arith)
            requires
                c <= 3,
        ;
        assert(w * face_size + face_size <= 3 * face_size) by (nonlinear_arith)
            requires
                w <= 2,
        ;
    }
    rgba_crop(img, x, y, face_size, face_size)
}

} // verus!
