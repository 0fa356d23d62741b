use image::{ImageBuffer, RgbaImage};

use vstd::prelude::*;

use crate::glyph_atlas::{pix, within, GlyphAtlas};
use crate::shapes::Rect;

verus! {

/// An RGBA image of the `image` crate (`RgbaImage`), held here because the
/// verifier cannot be told about that generic type directly.
#[verifier::external_body]
pub struct DebugImage {
    pub image: RgbaImage,
}

/// The bytes an RGBA image holds, row by row, four per pixel.
pub uninterp spec fn rgba_image_bytes(img: DebugImage) -> Seq<u8>;

/// The width and height an RGBA image was made with, in that order.
pub uninterp spec fn rgba_image_dims(img: DebugImage) -> Seq<u32>;

/// `ImageBuffer::from_raw` for RGBA bytes: an image of `width` x `height`
/// pixels over `buf` when `buf` holds at least four bytes per pixel, else `None`.
#[verifier::external_body]
fn rgba_image_from_raw(width: u32, height: u32, buf: Vec<u8>) -> (r: Option<DebugImage>)
    ensures
        r is Some <==> 4 * (width * height) <= buf@.len(),
        r matches Some(img) ==> rgba_image_bytes(img) == buf@ && rgba_image_dims(img) == seq![width, height],
{
    let image: Option<RgbaImage> = ImageBuffer::from_raw(width, height, buf);
    image.map(|image| DebugImage { image })
}

/// The position of channel `c` of pixel (`px`, `py`) in RGBA bytes of an image
/// `width` pixels wide.
pub open spec fn chan(width: int, px: int, py: int, c: int) -> int {
    byte_at(pix(width, px, py), c)
}

/// The position of channel `c` of the `j`-th pixel in RGBA bytes.
pub open spec fn byte_at(j: int, c: int) -> int {
    4 * j + c
}

/// The debug view marks pixel (`px`, `py`) as part of the outline of `b`: its
/// top and bottom rows and its left and right columns, as the drawing loops
/// reach them.
pub open spec fn marks(b: Rect, px: int, py: int) -> bool {
    ||| b.x <= px < b.right() && (py == b.y || py == b.bottom() - 1)
    ||| b.y <= py < b.bottom() && (px == b.x || px == b.right() - 1)
}

/// Some bin of `bins` marks pixel (`px`, `py`).
pub open spec fn marked(bins: Seq<Rect>, px: int, py: int) -> bool {
    exists|i: int| 0 <= i < bins.len() && marks(bins[i], px, py)
}

/// The outline of `b` can be drawn in a `w` x `h` image: its rows and
/// columns exist there.
pub open spec fn outline_drawable(b: Rect, w: int, h: int) -> bool {
    &&& within(b, w, h)
    &&& b.width > 0 ==> 1 <= b.bottom() && b.y < h
    &&& b.height > 0 ==> 1 <= b.right() && b.x < w
}

/// `rgba` shows atlas pixel (`px`, `py`) as grey of its coverage, made green
/// where `marked` says so, opaque.
pub open spec fn shows_pixel(rgba: Seq<u8>, bitmap: Seq<u8>, width: int, px: int, py: int, green: bool) -> bool {
    let v = bitmap[pix(width, px, py)];
    &&& rgba[chan(width, px, py, 0)] == v
    &&& rgba[chan(width, px, py, 1)] == if green { 255u8 } else { v }
    &&& rgba[chan(width, px, py, 2)] == v
    &&& rgba[chan(width, px, py, 3)] == 255u8
}

proof fn lemma_chan(w: int, h: int, px: int, py: int, c: int)
    requires
        0 <= px < w,
        0 <= py < h,
        0 <= c < 4,
    ensures
        0 <= chan(w, px, py, c) < 4 * (w * h),
{
    crate::glyph_atlas::lemma_pix_bound(w, h, px, py);
}

proof fn lemma_chan_distinct(w: int, px1: int, py1: int, c1: int, px2: int, py2: int, c2: int)
    requires
        0 <= px1 < w,
        0 <= px2 < w,
        0 <= py1,
        0 <= py2,
        0 <= c1 < 4,
        0 <= c2 < 4,
        chan(w, px1, py1, c1) == chan(w, px2, py2, c2),
    ensures
        px1 == px2 && py1 == py2 && c1 == c2,
{
    assert(pix(w, px1, py1) == pix(w, px2, py2));
    crate::glyph_atlas::lemma_pix_injective(w, px1, py1, px2, py2);
}

/// Writing the green channel of pixel (`qx`, `qy`) touches no other channel
/// and no other pixel.
proof fn lemma_green_hit(w: int, px: int, py: int, qx: int, qy: int)
    requires
        0 <= px < w,
        0 <= qx < w,
        0 <= py,
        0 <= qy,
    ensures
        chan(w, px, py, 0) != chan(w, qx, qy, 1),
        chan(w, px, py, 2) != chan(w, qx, qy, 1),
        chan(w, px, py, 3) != chan(w, qx, qy, 1),
        chan(w, px, py, 1) == chan(w, qx, qy, 1) ==> px == qx && py == qy,
{
    if chan(w, px, py, 0) == chan(w, qx, qy, 1) {
        lemma_chan_distinct(w, px, py, 0, qx, qy, 1);
    }
    if chan(w, px, py, 2) == chan(w, qx, qy, 1) {
        lemma_chan_distinct(w, px, py, 2, qx, qy, 1);
    }
    if chan(w, px, py, 3) == chan(w, qx, qy, 1) {
        lemma_chan_distinct(w, px, py, 3, qx, qy, 1);
    }
    if chan(w, px, py, 1) == chan(w, qx, qy, 1) {
        lemma_chan_distinct(w, px, py, 1, qx, qy, 1);
    }
}

/// Pixels already marked in the rows of `b` after `i` steps of the row loop.
pub open spec fn rows_done(b: Rect, i: int, px: int, py: int) -> bool {
    b.x <= px < b.x + i && (py == b.y || py == b.bottom() - 1)
}

/// Pixels already marked in the columns of `b` after `i` steps of the column loop.
pub open spec fn cols_done(b: Rect, i: int, px: int, py: int) -> bool {
    b.y <= py < b.y + i && (px == b.x || px == b.right() - 1)
}

/// Marking pixel (`qx`, `qy`) green keeps every pixel shown as before, and
/// shows (`qx`, `qy`) itself green.
proof fn lemma_mark(old: Seq<u8>, new: Seq<u8>, bitmap: Seq<u8>, w: int, h: int, px: int, py: int, g: bool, qx: int, qy: int)
    requires
        0 <= px < w,
        0 <= py < h,
        0 <= qx < w,
        0 <= qy < h,
        old.len() == 4 * (w * h),
        shows_pixel(old, bitmap, w, px, py, g),
        new == old.update(chan(w, qx, qy, 1), 255u8),
    ensures
        shows_pixel(new, bitmap, w, px, py, g || (px == qx && py == qy)),
{
    lemma_green_hit(w, px, py, qx, qy);
    lemma_chan(w, h, px, py, 0);
    lemma_chan(w, h, qx, qy, 1);
}

/// Grey, opaque RGBA bytes for the first `n` coverage bytes of `bitmap`.
fn grey_rgba(bitmap: &Vec<u8>, n: usize) -> (r: Vec<u8>)
    requires
        n == bitmap@.len(),
        4 * n <= u32::MAX,
    ensures
        r@.len() == 4 * n,
        forall|j: int| 0 <= j < n ==> {
            &&& #[trigger] r@[byte_at(j, 0)] == bitmap@[j]
            &&& r@[byte_at(j, 1)] == bitmap@[j]
            &&& r@[byte_at(j, 2)] == bitmap@[j]
            &&& r@[byte_at(j, 3)] == 255u8
        },
{
    let mut bitmap_rgba: Vec<u8> = vec![0; n * 4];
    let mut i: usize = 0;
    while i < n
        invariant
            i <= n,
            n == bitmap@.len(),
            4 * n <= u32::MAX,
            bitmap_rgba@.len() == 4 * n,
            forall|j: int| 0 <= j < i ==> {
                &&& #[trigger] bitmap_rgba@[byte_at(j, 0)] == bitmap@[j]
                &&& bitmap_rgba@[byte_at(j, 1)] == bitmap@[j]
                &&& bitmap_rgba@[byte_at(j, 2)] == bitmap@[j]
                &&& bitmap_rgba@[byte_at(j, 3)] == 255u8
            },
        decreases n - i,
    {
        let col = bitmap[i];
        let r = i * 4;
        let ghost s0 = bitmap_rgba@;
        bitmap_rgba.set(r, col);
        bitmap_rgba.set(r + 1, col);
        bitmap_rgba.set(r + 2, col);
        bitmap_rgba.set(r + 3, 255);
        assert forall|j: int| 0 <= j < i + 1 implies {
            &&& #[trigger] bitmap_rgba@[byte_at(j, 0)] == bitmap@[j]
            &&& bitmap_rgba@[byte_at(j, 1)] == bitmap@[j]
            &&& bitmap_rgba@[byte_at(j, 2)] == bitmap@[j]
            &&& bitmap_rgba@[byte_at(j, 3)] == 255u8
        } by {
            if j < i {
                assert(byte_at(j, 3) < r);
                assert(s0[byte_at(j, 0)] == bitmap@[j]);
            } else {
                assert(byte_at(j, 0) == r);
            }
        }
        i = i + 1;
    }
    bitmap_rgba
}

impl GlyphAtlas {
    /// The atlas as RGBA bytes for inspection: each pixel grey of its coverage
    /// and opaque, with the outline of every free bin drawn in green.
    pub fn debug_rgba(&self) -> (r: Vec<u8>)
        requires
            self.wf(),
            4 * (self.width * self.height) <= u32::MAX,
            forall|i: int| 0 <= i < self.bins@.len() ==> outline_drawable(#[trigger] self.bins@[i], self.width as int, self.height as int),
        ensures
            r@.len() == 4 * (self.width * self.height),
            forall|px: int, py: int| 0 <= px < self.width && 0 <= py < self.height ==>
                shows_pixel(r@, self.bitmap@, self.width as int, px, py, #[trigger] marked(self.bins@, px, py)),
    {
        let w = self.width;
        let h = self.height;
        let ghost wi = w as int;
        let ghost hi = h as int;
        let n = self.bitmap.len();
        let mut bitmap_rgba = grey_rgba(&self.bitmap, n);
        proof {
            assert forall|px: int, py: int| 0 <= px < wi && 0 <= py < hi implies
                shows_pixel(bitmap_rgba@, self.bitmap@, wi, px, py, #[trigger] marked(self.bins@.take(0), px, py)) by {
                crate::glyph_atlas::lemma_pix_bound(wi, hi, px, py);
                let j = pix(wi, px, py);
                assert(bitmap_rgba@[byte_at(j, 0)] == self.bitmap@[j]);
            }
        }
        let nb = self.bins.len();
        let mut k: usize = 0;
        while k < nb
            invariant
                k <= nb,
                nb == self.bins@.len(),
                w == self.width,
                h == self.height,
                wi == w,
                hi == h,
                4 * (wi * hi) <= u32::MAX,
                bitmap_rgba@.len() == 4 * (wi * hi),
                self.wf(),
                forall|i: int| 0 <= i < self.bins@.len() ==> outline_drawable(#[trigger] self.bins@[i], wi, hi),
                forall|px: int, py: int| 0 <= px < wi && 0 <= py < hi ==>
                    shows_pixel(bitmap_rgba@, self.bitmap@, wi, px, py, #[trigger] marked(self.bins@.take(k as int), px, py)),
            decreases nb - k,
        {
            let bin = self.bins[k];
            assert(outline_drawable(self.bins@[k as int], wi, hi));
            let mut i: u32 = 0;
            while i < bin.width
                invariant
                    i <= bin.width,
                    k < nb,
                    nb == self.bins@.len(),
                    bin == self.bins@[k as int],
                    outline_drawable(bin, wi, hi),
                    w == self.width,
                    wi == w,
                    hi == h,
                    4 * (wi * hi) <= u32::MAX,
                    bitmap_rgba@.len() == 4 * (wi * hi),
                    forall|px: int, py: int| 0 <= px < wi && 0 <= py < hi ==>
                        shows_pixel(bitmap_rgba@, self.bitmap@, wi, px, py, #[trigger] marked(self.bins@.take(k as int), px, py)
                            || rows_done(bin, i as int, px, py)),
                decreases bin.width - i,
            {
                let ghost ty = bin.y as int;
                let ghost by = bin.bottom() - 1;
                let ghost qx = bin.x + i;
                proof {
                    crate::glyph_atlas::lemma_mul_le(ty, wi, hi, wi);
                    crate::glyph_atlas::lemma_mul_le(by, wi, hi, wi);
                    lemma_chan(wi, hi, qx, ty, 1);
                    lemma_chan(wi, hi, qx, by, 1);
                }
                let top = ((bin.x + i + bin.y * w) as usize) * 4;
                let bottom = ((bin.x + i + (bin.y + bin.height - 1) * w) as usize) * 4;
                let ghost s0 = bitmap_rgba@;
                bitmap_rgba.set(top + 1, 255);
                let ghost s1 = bitmap_rgba@;
                bitmap_rgba.set(bottom + 1, 255);
                proof {
                    assert(top + 1 == chan(wi, qx, ty, 1));
                    assert(bottom + 1 == chan(wi, qx, by, 1));
                    assert forall|px: int, py: int| 0 <= px < wi && 0 <= py < hi implies
                        shows_pixel(bitmap_rgba@, self.bitmap@, wi, px, py, #[trigger] marked(self.bins@.take(k as int), px, py)
                            || rows_done(bin, i + 1, px, py)) by {
                        let g = marked(self.bins@.take(k as int), px, py) || rows_done(bin, i as int, px, py);
                        lemma_mark(s0, s1, self.bitmap@, wi, hi, px, py, g, qx, ty);
                        lemma_mark(s1, bitmap_rgba@, self.bitmap@, wi, hi, px, py, g || (px == qx && py == ty), qx, by);
                    }
                }
                i = i + 1;
            }
            let mut i: u32 = 0;
            while i < bin.height
                invariant
                    i <= bin.height,
                    k < nb,
                    nb == self.bins@.len(),
                    bin == self.bins@[k as int],
                    outline_drawable(bin, wi, hi),
                    w == self.width,
                    wi == w,
                    hi == h,
                    4 * (wi * hi) <= u32::MAX,
                    bitmap_rgba@.len() == 4 * (wi * hi),
                    forall|px: int, py: int| 0 <= px < wi && 0 <= py < hi ==>
                        shows_pixel(bitmap_rgba@, self.bitmap@, wi, px, py, #[trigger] marked(self.bins@.take(k as int), px, py)
                            || rows_done(bin, bin.width as int, px, py) || cols_done(bin, i as int, px, py)),
                decreases bin.height - i,
            {
                let ghost qy = bin.y + i;
                let ghost lx = bin.x as int;
                let ghost rx = bin.right() - 1;
                proof {
                    crate::glyph_atlas::lemma_mul_le(qy, wi, hi, wi);
                    lemma_chan(wi, hi, lx, qy, 1);
                    lemma_chan(wi, hi, rx, qy, 1);
                }
                let left = ((bin.x + (bin.y + i) * w) as usize) * 4;
                let right = (((bin.x + bin.width - 1) + (bin.y + i) * w) as usize) * 4;
                let ghost s0 = bitmap_rgba@;
                bitmap_rgba.set(left + 1, 255);
                let ghost s1 = bitmap_rgba@;
                bitmap_rgba.set(right + 1, 255);
                proof {
                    assert(left + 1 == chan(wi, lx, qy, 1));
                    assert(right + 1 == chan(wi, rx, qy, 1));
                    assert forall|px: int, py: int| 0 <= px < wi && 0 <= py < hi implies
                        shows_pixel(bitmap_rgba@, self.bitmap@, wi, px, py, #[trigger] marked(self.bins@.take(k as int), px, py)
                            || rows_done(bin, bin.width as int, px, py) || cols_done(bin, i + 1, px, py)) by {
                        let g = marked(self.bins@.take(k as int), px, py) || rows_done(bin, bin.width as int, px, py)
                            || cols_done(bin, i as int, px, py);
                        lemma_mark(s0, s1, self.bitmap@, wi, hi, px, py, g, lx, qy);
                        lemma_mark(s1, bitmap_rgba@, self.bitmap@, wi, hi, px, py, g || (px == lx && py == qy), rx, qy);
                    }
                }
                i = i + 1;
            }
            proof {
                assert forall|px: int, py: int| 0 <= px < wi && 0 <= py < hi implies
                    shows_pixel(bitmap_rgba@, self.bitmap@, wi, px, py, #[trigger] marked(self.bins@.take(k + 1), px, py)) by {
                    let t = self.bins@.take(k + 1);
                    let t0 = self.bins@.take(k as int);
                    assert(t[k as int] == bin);
                    let before = marked(t0, px, py) || rows_done(bin, bin.width as int, px, py) || cols_done(bin, bin.height as int, px, py);
                    assert(shows_pixel(bitmap_rgba@, self.bitmap@, wi, px, py, before));
                    if marked(t0, px, py) {
                        let j = choose|j: int| 0 <= j < t0.len() && marks(t0[j], px, py);
                        assert(t[j] == t0[j]);
                    }
                    if marks(bin, px, py) {
                        assert(marks(t[k as int], px, py));
                    }
                    if marked(t, px, py) && !marks(bin, px, py) {
                        let j = choose|j: int| 0 <= j < t.len() && marks(t[j], px, py);
                        assert(j != k);
                        assert(t0[j] == t[j]);
                    }
                    assert(before == marked(t, px, py));
                }
            }
            k = k + 1;
        }
        proof {
            assert(self.bins@.take(nb as int) =~= self.bins@);
        }
        bitmap_rgba
    }

    /// The debug view of `debug_rgba` as an image the size of the atlas.
    pub fn debug_render(&self) -> (r: DebugImage)
        requires
            self.wf(),
            4 * (self.width * self.height) <= u32::MAX,
            forall|i: int| 0 <= i < self.bins@.len() ==> outline_drawable(#[trigger] self.bins@[i], self.width as int, self.height as int),
        ensures
            rgba_image_dims(r) == seq![self.width, self.height],
            rgba_image_bytes(r).len() == 4 * (self.width * self.height),
            forall|px: int, py: int| 0 <= px < self.width && 0 <= py < self.height ==>
                shows_pixel(rgba_image_bytes(r), self.bitmap@, self.width as int, px, py, #[trigger] marked(self.bins@, px, py)),
    {
        let bytes = self.debug_rgba();
        let img = rgba_image_from_raw(self.width, self.height, bytes);
        img.unwrap()
    }
}

} // verus!
