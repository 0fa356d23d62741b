use vstd::prelude::*;

verus! {

/// An axis-aligned rectangle of pixels: `x`, `y` is the top-left corner.
#[derive(PartialEq, Eq, PartialOrd, Ord, Debug, Clone, Copy, Structural)]
pub struct Rect {
    pub x: u32,
    pub y: u32,
    pub width: u32,
    pub height: u32,
}

impl Rect {
    /// One past the right-most column.
    pub open spec fn right(self) -> int {
        self.x + self.width
    }

    /// One past the bottom-most row.
    pub open spec fn bottom(self) -> int {
        self.y + self.height
    }

    /// The far corner can be computed in `u32` without overflow.
    pub open spec fn fits_u32(self) -> bool {
        self.right() <= u32::MAX && self.bottom() <= u32::MAX
    }

    /// `other` lies inside `self` (edges may touch).
    pub open spec fn spec_contains(self, other: Rect) -> bool {
        &&& other.x >= self.x
        &&& other.right() <= self.right()
        &&& other.y >= self.y
        &&& other.bottom() <= self.bottom()
    }

    /// The closed rectangles touch or overlap.
    pub open spec fn spec_intersects(self, other: Rect) -> bool {
        &&& self.right() >= other.x
        &&& other.right() >= self.x
        &&& self.bottom() >= other.y
        &&& other.bottom() >= self.y
    }

    /// The rectangles share at least one pixel.
    pub open spec fn overlaps(self, other: Rect) -> bool {
        &&& self.x < other.right()
        &&& other.x < self.right()
        &&& self.y < other.bottom()
        &&& other.y < self.bottom()
    }

    /// Whether `rect` lies inside `self`.
    pub fn contains(&self, rect: &Rect) -> (r: bool)
        requires
            self.fits_u32(),
            rect.fits_u32(),
        ensures
            r == self.spec_contains(*rect),
    {
        rect.x >= self.x && rect.x + rect.width <= self.x + self.width && rect.y >= self.y
            && rect.y + rect.height <= self.y + self.height
    }

    /// Whether `self` and `rect` touch or overlap.
    pub fn intersects(&self, rect: &Rect) -> (r: bool)
        requires
            self.fits_u32(),
            rect.fits_u32(),
        ensures
            r == self.spec_intersects(*rect),
    {
        self.x + self.width >= rect.x && rect.x + rect.width >= self.x && self.y + self.height
            >= rect.y && rect.y + rect.height >= self.y
    }
}

/// The pixels a glyph takes up.
#[derive(PartialEq, Eq, PartialOrd, Ord, Debug, Structural)]
pub struct GlyphBounds {
    rect: Rect,
}

/// A pair of unsigned pixel coordinates.
#[derive(PartialEq, Eq, Debug, Clone, Copy, Structural)]
pub struct Point2u {
    pub x: u32,
    pub y: u32,
}

/// The rectangle spanned by two corners; `bottom_right` is exclusive.
#[derive(PartialEq, Eq, Debug, Clone, Copy, Structural)]
pub struct Region2d {
    pub top_left: Point2u,
    pub bottom_right: Point2u,
}

impl Region2d {
    /// Every pixel of `rect` lies in this region.
    pub open spec fn covers(self, rect: Rect) -> bool {
        &&& self.top_left.x <= rect.x
        &&& self.top_left.y <= rect.y
        &&& rect.right() <= self.bottom_right.x
        &&& rect.bottom() <= self.bottom_right.y
    }

    /// Every pixel of `other` lies in this region.
    pub open spec fn covers_region(self, other: Region2d) -> bool {
        &&& self.top_left.x <= other.top_left.x
        &&& self.top_left.y <= other.top_left.y
        &&& other.bottom_right.x <= self.bottom_right.x
        &&& other.bottom_right.y <= self.bottom_right.y
    }

    /// The smallest region covering both regions.
    pub fn union(&self, other: &Region2d) -> (r: Region2d)
        ensures
            r.covers_region(*self),
            r.covers_region(*other),
            r.top_left.x == self.top_left.x || r.top_left.x == other.top_left.x,
            r.top_left.y == self.top_left.y || r.top_left.y == other.top_left.y,
            r.bottom_right.x == self.bottom_right.x || r.bottom_right.x == other.bottom_right.x,
            r.bottom_right.y == self.bottom_right.y || r.bottom_right.y == other.bottom_right.y,
    {
        Region2d {
            top_left: Point2u {
                x: if self.top_left.x <= other.top_left.x { self.top_left.x } else { other.top_left.x },
                y: if self.top_left.y <= other.top_left.y { self.top_left.y } else { other.top_left.y },
            },
            bottom_right: Point2u {
                x: if self.bottom_right.x >= other.bottom_right.x { self.bottom_right.x } else { other.bottom_right.x },
                y: if self.bottom_right.y >= other.bottom_right.y { self.bottom_right.y } else { other.bottom_right.y },
            },
        }
    }

    /// The number of columns of the region.
    pub fn width(&self) -> (r: u32)
        requires
            self.top_left.x <= self.bottom_right.x,
        ensures
            r == self.bottom_right.x - self.top_left.x,
    {
        self.bottom_right.x - self.top_left.x
    }

    /// The number of rows of the region.
    pub fn height(&self) -> (r: u32)
        requires
            self.top_left.y <= self.bottom_right.y,
        ensures
            r == self.bottom_right.y - self.top_left.y,
    {
        self.bottom_right.y - self.top_left.y
    }

    /// Where the region's first pixel lies in an image stored row after row,
    /// `row_length` pixels to a row.
    pub fn pixel_offset(&self, row_length: u32) -> (r: u32)
        requires
            self.top_left.x + self.top_left.y * row_length <= u32::MAX,
        ensures
            r == self.top_left.x + self.top_left.y * row_length,
    {
        proof {
            assert(0 <= self.top_left.y * row_length) by (nonlinear_arith);
        }
        self.top_left.x + self.top_left.y * row_length
    }
}

/// A box in signed 64-bit coordinates, as reported for a glyph outline.
#[derive(PartialEq, Eq, Debug, Clone, Copy, Structural)]
pub struct Boundsi64 {
    pub x_min: i64,
    pub y_min: i64,
    pub x_max: i64,
    pub y_max: i64,
}

} // verus!
