use glam::{IVec4, Vec2, Vec4};
use thunderdome::{Arena, Index};

use vstd::prelude::*;
use vstd::arithmetic::power2::{lemma_pow2_pos, lemma_pow2_strictly_increases, lemma_pow2_unfold, pow2};

use crate::font::{FontHandle, GlyphCache, GlyphData, GlyphKey};
use crate::input::InputEvent;

verus! {

#[verifier::external_type_specification]
#[verifier::external_body]
pub struct ExVec4(Vec4);

#[verifier::external_type_specification]
#[verifier::external_body]
#[verifier::reject_recursive_types(T)]
pub struct ExArena<T>(Arena<T>);

/// The float vector glam makes of the integer point (`x`, `y`, `z`, `w`)
/// (`IVec4::as_vec4`): each coordinate converted to the nearest `f32`.
pub uninterp spec fn ivec4_as_vec4(x: i32, y: i32, z: i32, w: i32) -> Vec4;

/// The point (`x`, `y`, `z`, `w`) as a glam vector of floats
/// (`IVec4::as_vec4`), a function of the four integers alone.
#[verifier::external_body]
fn vec4_of_ints(x: i32, y: i32, z: i32, w: i32) -> (r: Vec4)
    ensures
        r == ivec4_as_vec4(x, y, z, w),
{
    IVec4::new(x, y, z, w).as_vec4()
}

/// The zero vector of four components.
pub open spec fn zero4() -> Vec4 {
    ivec4_as_vec4(0, 0, 0, 0)
}

/// The zero vector of four components, as glam makes it of the integer origin.
fn vec4_zero() -> (r: Vec4)
    ensures
        r == zero4(),
{
    vec4_of_ints(0, 0, 0, 0)
}

/// The pen position before glyph `j` of a line: the sums of the horizontal
/// and vertical advances of the glyphs before it.
pub open spec fn pen_before(glyphs: Seq<GlyphData>, j: int) -> (int, int)
    decreases j,
{
    if j <= 0 {
        (0, 0)
    } else {
        let p = pen_before(glyphs, j - 1);
        (p.0 + glyphs[j - 1].advance.0, p.1 + glyphs[j - 1].advance.1)
    }
}

/// Every pen position along the line, the one after the last glyph
/// included, fits in an `i32`.
pub open spec fn pens_fit(glyphs: Seq<GlyphData>) -> bool {
    forall|j: int| 0 <= j <= glyphs.len() ==> {
        &&& i32::MIN <= (#[trigger] pen_before(glyphs, j)).0 <= i32::MAX
        &&& i32::MIN <= pen_before(glyphs, j).1 <= i32::MAX
    }
}

/// Whether every pen position along the line fits in an `i32`, so that
/// `pen_offsets` and `TextBox::calculate_layout` can run.
pub fn pens_fit_checked(glyphs: &[GlyphData]) -> (r: bool)
    ensures
        r == pens_fit(glyphs@),
{
    let mut pen_x: i64 = 0;
    let mut pen_y: i64 = 0;
    let mut i: usize = 0;
    while i < glyphs.len()
        invariant
            i <= glyphs@.len(),
            pen_x == pen_before(glyphs@, i as int).0,
            pen_y == pen_before(glyphs@, i as int).1,
            forall|j: int| 0 <= j <= i ==> {
                &&& i32::MIN <= (#[trigger] pen_before(glyphs@, j)).0 <= i32::MAX
                &&& i32::MIN <= pen_before(glyphs@, j).1 <= i32::MAX
            },
        decreases glyphs@.len() - i,
    {
        pen_x = pen_x + glyphs[i].advance.0 as i64;
        pen_y = pen_y + glyphs[i].advance.1 as i64;
        if pen_x < i32::MIN as i64 || pen_x > i32::MAX as i64 || pen_y < i32::MIN as i64 || pen_y > i32::MAX as i64 {
            assert(!(i32::MIN <= pen_before(glyphs@, i + 1).0 <= i32::MAX && i32::MIN <= pen_before(glyphs@, i + 1).1 <= i32::MAX));
            return false;
        }
        i = i + 1;
    }
    true
}

/// The pen position before each glyph of a line, in whole pixels.
pub fn pen_offsets(glyphs: &[GlyphData]) -> (r: Vec<(i32, i32)>)
    requires
        pens_fit(glyphs@),
    ensures
        r@.len() == glyphs@.len(),
        forall|j: int| 0 <= j < glyphs@.len() ==> (#[trigger] r@[j]).0 == pen_before(glyphs@, j).0
            && r@[j].1 == pen_before(glyphs@, j).1,
{
    let mut offsets: Vec<(i32, i32)> = Vec::new();
    let mut pen_x: i32 = 0;
    let mut pen_y: i32 = 0;
    let mut i: usize = 0;
    while i < glyphs.len()
        invariant
            i <= glyphs@.len(),
            pens_fit(glyphs@),
            offsets@.len() == i,
            pen_x == pen_before(glyphs@, i as int).0,
            pen_y == pen_before(glyphs@, i as int).1,
            forall|j: int| 0 <= j < i ==> (#[trigger] offsets@[j]).0 == pen_before(glyphs@, j).0
                && offsets@[j].1 == pen_before(glyphs@, j).1,
        decreases glyphs@.len() - i,
    {
        offsets.push((pen_x, pen_y));
        let glyph_data = glyphs[i];
        proof {
            let next = pen_before(glyphs@, i + 1);
            assert(i32::MIN <= next.0 <= i32::MAX && i32::MIN <= next.1 <= i32::MAX);
        }
        pen_x = pen_x + glyph_data.advance.0;
        pen_y = pen_y + glyph_data.advance.1;
        i = i + 1;
    }
    offsets
}

/// The cache key of character `j` of `text` at pixel height `h`.
pub open spec fn text_glyph_key(text: Seq<char>, j: int, h: u32) -> GlyphKey {
    GlyphKey { glyph: text[j] as u64, font_height: h }
}

/// Every character of `text` has glyph data in `m` at height `h`.
pub open spec fn text_cached(text: Seq<char>, m: Map<GlyphKey, GlyphData>, h: u32) -> bool {
    forall|j: int| 0 <= j < text.len() ==> m.contains_key(#[trigger] text_glyph_key(text, j, h))
}

/// The glyph data of each character of `text` at height `h`, in order.
pub open spec fn text_glyphs(text: Seq<char>, m: Map<GlyphKey, GlyphData>, h: u32) -> Seq<GlyphData> {
    Seq::new(text.len(), |j: int| m[text_glyph_key(text, j, h)])
}

/// `text` can be laid out from `m`: every character is cached and the pen
/// positions fit in `i32`.
pub open spec fn layout_ready(text: Seq<char>, m: Map<GlyphKey, GlyphData>, h: u32) -> bool {
    text_cached(text, m, h) && pens_fit(text_glyphs(text, m, h))
}

/// A text is laid out from the glyph data cached under each of its
/// characters at the height asked for, and from no other entry: it is ready
/// exactly when every `(character, h)` pair is cached, and the data of its
/// character `j` is the entry cached under `(text[j], h)`.
pub proof fn law_layout_uses_height(text: Seq<char>, m: Map<GlyphKey, GlyphData>, h: u32)
    ensures
        text_cached(text, m, h) <==> forall|j: int| 0 <= j < text.len() ==> #[trigger] m.contains_key(GlyphKey { glyph: text[j] as u64, font_height: h }),
        text_glyphs(text, m, h).len() == text.len(),
        forall|j: int| 0 <= j < text.len() ==> #[trigger] text_glyphs(text, m, h)[j] == m[GlyphKey {
            glyph: text[j] as u64,
            font_height: h,
        }],
{
    if text_cached(text, m, h) {
        assert forall|j: int| 0 <= j < text.len() implies #[trigger] m.contains_key(GlyphKey { glyph: text[j] as u64, font_height: h }) by {
            assert(m.contains_key(text_glyph_key(text, j, h)));
        }
    }
    if forall|j: int| 0 <= j < text.len() ==> #[trigger] m.contains_key(GlyphKey { glyph: text[j] as u64, font_height: h }) {
        assert forall|j: int| 0 <= j < text.len() implies m.contains_key(#[trigger] text_glyph_key(text, j, h)) by {
            assert(m.contains_key(GlyphKey { glyph: text[j] as u64, font_height: h }));
        }
    }
}

/// The glyph data of each character of `text` at `font_height`, when all of
/// them are cached.
fn cached_glyphs(text: &str, cache: &GlyphCache, font_height: u32) -> (r: Option<Vec<GlyphData>>)
    requires
        cache.wf(),
    ensures
        match r {
            Some(glyphs) => text_cached(text@, cache.view_map(), font_height)
                && glyphs@ == text_glyphs(text@, cache.view_map(), font_height),
            None => !text_cached(text@, cache.view_map(), font_height),
        },
{
    let mut glyphs: Vec<GlyphData> = Vec::new();
    for c in it: text.chars()
        invariant
            cache.wf(),
            it.seq() == text@,
            glyphs@.len() == it.index(),
            forall|j: int| 0 <= j < it.index() ==> cache.view_map().contains_key(#[trigger] text_glyph_key(it.seq(), j, font_height))
                && glyphs@[j] == cache.view_map()[text_glyph_key(it.seq(), j, font_height)],
    {
        match cache.get_glyph(c as u64, font_height) {
            Some(d) => glyphs.push(d),
            None => {
                proof {
                    assert(c == text@[it.index() as int]);
                    assert(!cache.view_map().contains_key(text_glyph_key(text@, it.index() as int, font_height)));
                }
                return None;
            },
        }
    }
    assert(glyphs@ =~= text_glyphs(text@, cache.view_map(), font_height));
    Some(glyphs)
}

/// Identifies a UI element: the bits of its arena index.
#[derive(Debug, Clone, Copy, PartialEq, Eq, Hash, Structural)]
pub struct UiIndex(pub u64);

/// A length relative to the parent's size (`scale`) plus an absolute `offset`.
#[derive(Clone, Copy, Debug)]
pub struct UiDim {
    pub scale: Vec2,
    pub offset: Vec2,
}

impl Default for UiDim {
    /// No scale and no offset: both are the zero vector.
    fn default() -> (r: Self)
        ensures
            r.scale == crate::input::zero2(),
            r.offset == crate::input::zero2(),
    {
        let zero = crate::input::vec2_zero();
        UiDim { scale: zero, offset: zero }
    }
}

#[derive(Debug, Clone, Copy, PartialEq, Eq, Structural)]
pub enum HorizontalJustification {
    Left,
    Center,
    Right,
}

#[derive(Debug, Clone, Copy, PartialEq, Eq, Structural)]
pub enum VerticalJustification {
    Top,
    Center,
    Bottom,
}

/// Where a glyph goes, relative to the start of the text.
#[derive(Clone, Copy)]
pub struct GlyphPositions {
    pub glyph_index: u32,
    pub offset: Vec2,
}

/// A block of text and the layout computed for it.
pub struct TextBox {
    pub horizontal_justification: HorizontalJustification,
    pub vertical_justification: VerticalJustification,
    pub font_height: u32,
    pub font: FontHandle,
    pub size: Vec2,
    pub text: String,
    pub glyph_positions: Vec<GlyphPositions>,
    pub is_dirty: bool,
}

impl TextBox {
    /// An empty box for `font`: 16 pixels high, centred both ways, of zero
    /// size, with its layout still to compute.
    pub fn new(font: FontHandle) -> (r: Self)
        ensures
            r.font == font,
            r.horizontal_justification == HorizontalJustification::Center,
            r.vertical_justification == VerticalJustification::Center,
            r.text@ == Seq::<char>::empty(),
            r.is_dirty,
            r.glyph_positions@ == Seq::<GlyphPositions>::empty(),
            r.font_height == 16,
            r.size == crate::input::zero2(),
    {
        TextBox {
            font,
            horizontal_justification: HorizontalJustification::Center,
            vertical_justification: VerticalJustification::Center,
            size: crate::input::vec2_zero(),
            text: String::new(),
            is_dirty: true,
            glyph_positions: Vec::new(),
            font_height: 16,
        }
    }

    /// Lays the text out again if it changed, from its glyph data in the
    /// font's cache: one position per character, with its glyph's index, at
    /// the sum of the advances of the glyphs before it. A box whose layout is
    /// current is left as it is. Every character of a changed text must be
    /// cached (see `layout_ready`).
    pub fn calculate_layout(&mut self, cache: &GlyphCache)
        requires
            cache.wf(),
            old(self).is_dirty ==> layout_ready(old(self).text@, cache.view_map(), old(self).font_height),
        ensures
            !old(self).is_dirty ==> *final(self) == *old(self),
            old(self).is_dirty ==> {
                let glyphs = text_glyphs(old(self).text@, cache.view_map(), old(self).font_height);
                &&& !final(self).is_dirty
                &&& final(self).glyph_positions@.len() == glyphs.len()
                &&& forall|j: int| 0 <= j < glyphs.len() ==> (#[trigger] final(self).glyph_positions@[j]).glyph_index
                    == glyphs[j].glyph_index
                    && final(self).glyph_positions@[j].offset == crate::input::ivec2_as_vec2(
                        pen_before(glyphs, j).0 as i32,
                        pen_before(glyphs, j).1 as i32,
                    )
                &&& forall|j: int| 0 <= j < glyphs.len() ==> (#[trigger] final(self).glyph_positions@[j]).glyph_index
                    == cache.view_map()[GlyphKey { glyph: old(self).text@[j] as u64, font_height: old(self).font_height }].glyph_index
                &&& final(self).text == old(self).text
                &&& final(self).font == old(self).font
                &&& final(self).font_height == old(self).font_height
                &&& final(self).size == old(self).size
            },
    {
        if !self.is_dirty {
            return;
        }
        let glyphs = cached_glyphs(self.text.as_str(), cache, self.font_height).unwrap();
        self.lay_out_glyphs(glyphs.as_slice());
        proof {
            law_layout_uses_height(old(self).text@, cache.view_map(), old(self).font_height);
        }
    }

    /// Whether `calculate_layout` can lay the text out from `cache`: every
    /// character is cached at the box's height and the pen positions fit in `i32`.
    pub fn layout_ready(&self, cache: &GlyphCache) -> (r: bool)
        requires
            cache.wf(),
        ensures
            r == layout_ready(self.text@, cache.view_map(), self.font_height),
    {
        match cached_glyphs(self.text.as_str(), cache, self.font_height) {
            Some(glyphs) => pens_fit_checked(glyphs.as_slice()),
            None => false,
        }
    }

    /// Lays the text out from `glyphs`, the data of its characters in order.
    fn lay_out_glyphs(&mut self, glyphs: &[GlyphData])
        requires
            pens_fit(glyphs@),
        ensures
            !old(self).is_dirty ==> *final(self) == *old(self),
            old(self).is_dirty ==> {
                &&& !final(self).is_dirty
                &&& final(self).glyph_positions@.len() == glyphs@.len()
                &&& forall|j: int| 0 <= j < glyphs@.len() ==> (#[trigger] final(self).glyph_positions@[j]).glyph_index
                    == glyphs@[j].glyph_index
                    && final(self).glyph_positions@[j].offset == crate::input::ivec2_as_vec2(
                        pen_before(glyphs@, j).0 as i32,
                        pen_before(glyphs@, j).1 as i32,
                    )
                &&& final(self).text == old(self).text
                &&& final(self).font == old(self).font
                &&& final(self).font_height == old(self).font_height
                &&& final(self).size == old(self).size
            },
    {
        if !self.is_dirty {
            return;
        }
        self.glyph_positions.clear();
        let offsets = pen_offsets(glyphs);
        let mut i: usize = 0;
        while i < glyphs.len()
            invariant
                i <= glyphs@.len(),
                offsets@.len() == glyphs@.len(),
                self.glyph_positions@.len() == i,
                forall|j: int| 0 <= j < glyphs@.len() ==> (#[trigger] offsets@[j]).0 == pen_before(glyphs@, j).0
                    && offsets@[j].1 == pen_before(glyphs@, j).1,
                forall|j: int| 0 <= j < i ==> (#[trigger] self.glyph_positions@[j]).glyph_index == glyphs@[j].glyph_index
                    && self.glyph_positions@[j].offset == crate::input::ivec2_as_vec2(
                        pen_before(glyphs@, j).0 as i32,
                        pen_before(glyphs@, j).1 as i32,
                    ),
                self.text == old(self).text,
                self.font == old(self).font,
                self.font_height == old(self).font_height,
                self.size == old(self).size,
            decreases glyphs@.len() - i,
        {
            let (pen_x, pen_y) = offsets[i];
            self.glyph_positions.push(GlyphPositions { glyph_index: glyphs[i].glyph_index, offset: crate::input::vec2_of_ints(pen_x, pen_y) });
            i = i + 1;
        }
        self.is_dirty = false;
    }

    /// Replaces the text; the layout must be computed again.
    pub fn set_text(&mut self, text: String)
        ensures
            *final(self) == (TextBox { text, is_dirty: true, ..*old(self) }),
    {
        self.text = text;
        self.is_dirty = true;
    }

    /// Changes the size; the layout must be computed again.
    pub fn set_size(&mut self, size: Vec2)
        ensures
            *final(self) == (TextBox { size, is_dirty: true, ..*old(self) }),
    {
        self.size = size;
        self.is_dirty = true;
    }

    /// Changes the font; the layout must be computed again.
    pub fn set_font(&mut self, font: FontHandle)
        ensures
            *final(self) == (TextBox { font, is_dirty: true, ..*old(self) }),
    {
        self.font = font;
        self.is_dirty = true;
    }

    /// Changes the pixel height; the layout must be computed again.
    pub fn set_font_height(&mut self, font_height: u32)
        ensures
            *final(self) == (TextBox { font_height, is_dirty: true, ..*old(self) }),
    {
        self.font_height = font_height;
        self.is_dirty = true;
    }

    /// Changes the horizontal justification; the layout must be computed again.
    pub fn set_horizontal_justification(&mut self, horizontal_justification: HorizontalJustification)
        ensures
            *final(self) == (TextBox { horizontal_justification, is_dirty: true, ..*old(self) }),
    {
        self.horizontal_justification = horizontal_justification;
        self.is_dirty = true;
    }

    /// Changes the vertical justification; the layout must be computed again.
    pub fn set_vertical_justification(&mut self, vertical_justification: VerticalJustification)
        ensures
            *final(self) == (TextBox { vertical_justification, is_dirty: true, ..*old(self) }),
    {
        self.vertical_justification = vertical_justification;
        self.is_dirty = true;
    }
}

/// A rectangle of colour.
pub struct Frame {
    pub color: Vec4,
    pub anchor: Vec2,
    pub position: UiDim,
    pub visible: bool,
    pub size: UiDim,
}

impl Default for Frame {
    /// A visible frame; its colour, anchor, position and size are all zero.
    fn default() -> (r: Self)
        ensures
            r.visible,
            r.color == zero4(),
            r.anchor == crate::input::zero2(),
            r.position.scale == crate::input::zero2(),
            r.position.offset == crate::input::zero2(),
            r.size.scale == crate::input::zero2(),
            r.size.offset == crate::input::zero2(),
    {
        Frame {
            color: vec4_zero(),
            anchor: crate::input::vec2_zero(),
            position: UiDim::default(),
            visible: true,
            size: UiDim::default(),
        }
    }
}

/// A line of text on an optional background.
pub struct TextLabel {
    pub text_box: TextBox,
    pub font: Option<FontHandle>,
    pub font_height: u32,
    pub horizontal_justification: HorizontalJustification,
    pub vertical_justification: VerticalJustification,
    pub text: String,
    pub color: Vec4,
    pub background_color: Vec4,
    pub position: UiDim,
    pub size: UiDim,
    pub anchor: Vec2,
    pub visible: bool,
}

impl TextLabel {
    /// A visible, empty label in `font`, 14 pixels high and centred both ways,
    /// with a text box set up the same; colours, position, size and anchor are zero.
    pub fn new(font: FontHandle) -> (r: Self)
        ensures
            r.font == Some(font),
            r.font_height == 14,
            r.horizontal_justification == HorizontalJustification::Center,
            r.vertical_justification == VerticalJustification::Center,
            r.text@ == Seq::<char>::empty(),
            r.visible,
            r.text_box.font == font,
            r.text_box.font_height == 14,
            r.text_box.horizontal_justification == HorizontalJustification::Center,
            r.text_box.vertical_justification == VerticalJustification::Center,
            r.text_box.text@ == Seq::<char>::empty(),
            r.text_box.is_dirty,
            r.text_box.size == crate::input::zero2(),
            r.text_box.glyph_positions@ == Seq::<GlyphPositions>::empty(),
            r.color == zero4(),
            r.background_color == zero4(),
            r.anchor == crate::input::zero2(),
            r.position.scale == crate::input::zero2(),
            r.position.offset == crate::input::zero2(),
            r.size.scale == crate::input::zero2(),
            r.size.offset == crate::input::zero2(),
    {
        let mut text_box = TextBox::new(font);
        text_box.set_horizontal_justification(HorizontalJustification::Center);
        text_box.set_vertical_justification(VerticalJustification::Center);
        text_box.set_font_height(14);
        TextLabel {
            text_box,
            text: String::new(),
            font: Some(font),
            color: vec4_zero(),
            position: UiDim::default(),
            size: UiDim::default(),
            anchor: crate::input::vec2_zero(),
            font_height: 14,
            horizontal_justification: HorizontalJustification::Center,
            vertical_justification: VerticalJustification::Center,
            visible: true,
            background_color: vec4_zero(),
        }
    }

    /// Sets the pixel height of the label and of its text box.
    pub fn set_font_height(&mut self, font_height: u32)
        ensures
            *final(self) == (TextLabel {
                font_height,
                text_box: TextBox { font_height, is_dirty: true, ..old(self).text_box },
                ..*old(self)
            }),
    {
        self.font_height = font_height;
        self.text_box.set_font_height(font_height);
    }

    /// Sets the text of the label and of its text box.
    pub fn set_text(&mut self, text: String)
        ensures
            final(self).text@ == text@,
            final(self).text_box.text@ == text@,
            *final(self) == (TextLabel {
                text: final(self).text,
                text_box: TextBox { text: final(self).text_box.text, is_dirty: true, ..old(self).text_box },
                ..*old(self)
            }),
    {
        let copy = text.clone();
        self.text = text;
        self.text_box.set_text(copy);
    }

    /// Sets the font of the label and of its text box.
    pub fn set_font(&mut self, font: FontHandle)
        ensures
            *final(self) == (TextLabel {
                font: Some(font),
                text_box: TextBox { font, is_dirty: true, ..old(self).text_box },
                ..*old(self)
            }),
    {
        self.font = Some(font);
        self.text_box.set_font(font);
    }

    /// Sets the horizontal justification of the label and of its text box.
    pub fn set_horizontal_justification(&mut self, horizontal_justification: HorizontalJustification)
        ensures
            *final(self) == (TextLabel {
                horizontal_justification,
                text_box: TextBox { horizontal_justification, is_dirty: true, ..old(self).text_box },
                ..*old(self)
            }),
    {
        self.horizontal_justification = horizontal_justification;
        self.text_box.set_horizontal_justification(horizontal_justification);
    }

    /// Sets the vertical justification of the label and of its text box.
    pub fn set_vertical_justification(&mut self, vertical_justification: VerticalJustification)
        ensures
            *final(self) == (TextLabel {
                vertical_justification,
                text_box: TextBox { vertical_justification, is_dirty: true, ..old(self).text_box },
                ..*old(self)
            }),
    {
        self.vertical_justification = vertical_justification;
        self.text_box.set_vertical_justification(vertical_justification);
    }
}

/// A UI element of either kind.
pub enum Element {
    Frame(Frame),
    TextLabel(TextLabel),
}

impl Element {
    /// Whether the element (and so its subtree) is drawn.
    pub open spec fn spec_visible(&self) -> bool {
        match self {
            Element::Frame(f) => f.visible,
            Element::TextLabel(t) => t.visible,
        }
    }

    pub fn visible(&self) -> (r: bool)
        ensures
            r == self.spec_visible(),
    {
        match self {
            Element::Frame(f) => f.visible,
            Element::TextLabel(t) => t.visible,
        }
    }

    pub fn position(&self) -> (r: UiDim)
        ensures
            r == match self {
                Element::Frame(f) => f.position,
                Element::TextLabel(t) => t.position,
            },
    {
        match self {
            Element::Frame(frame) => frame.position,
            Element::TextLabel(text_label) => text_label.position,
        }
    }

    pub fn size(&self) -> (r: UiDim)
        ensures
            r == match self {
                Element::Frame(f) => f.size,
                Element::TextLabel(t) => t.size,
            },
    {
        match self {
            Element::Frame(frame) => frame.size,
            Element::TextLabel(text_label) => text_label.size,
        }
    }

    pub fn anchor(&self) -> (r: Vec2)
        ensures
            r == match self {
                Element::Frame(f) => f.anchor,
                Element::TextLabel(t) => t.anchor,
            },
    {
        match self {
            Element::Frame(frame) => frame.anchor,
            Element::TextLabel(text_label) => text_label.anchor,
        }
    }
}

#[derive(Debug, Clone, Copy, PartialEq, Eq, Structural)]
pub enum UiEventType {
    Pressed,
}

/// Something that happened to an element.
pub struct UiEvent {
    pub input_event: Option<InputEvent>,
    pub event_type: UiEventType,
}

/// An element in the tree, with its links to parent and siblings.
pub struct UiNode {
    pub world_position: Vec2,
    pub world_size: Vec2,
    pub dimensions_dirty: bool,
    pub parent: Option<UiIndex>,
    pub first_child: Option<UiIndex>,
    pub last_child: Option<UiIndex>,
    pub next_sibling: Option<UiIndex>,
    pub prev_sibling: Option<UiIndex>,
    pub element: Element,
    pub events: Option<Vec<UiEvent>>,
}

/// The nodes an arena holds, by the bits of their index.
pub uninterp spec fn ui_arena_nodes(arena: Arena<UiNode>) -> Map<u64, UiNode>;

/// `Arena::new`: an arena holding nothing.
#[verifier::external_body]
fn ui_arena_new() -> (arena: Arena<UiNode>)
    ensures
        ui_arena_nodes(arena) =~= Map::empty(),
{
    Arena::new()
}

/// `Arena::insert`: stores `node` under an index not in use and returns its
/// bits; panics past `u32::MAX` entries, which `requires` leaves out.
#[verifier::external_body]
fn ui_arena_insert(arena: &mut Arena<UiNode>, node: UiNode) -> (r: u64)
    requires
        ui_arena_nodes(*old(arena)).dom().finite(),
        ui_arena_nodes(*old(arena)).dom().len() < u32::MAX,
    ensures
        !ui_arena_nodes(*old(arena)).contains_key(r),
        ui_arena_nodes(*final(arena)) == ui_arena_nodes(*old(arena)).insert(r, node),
{
    arena.insert(node).to_bits()
}

/// `Arena::len`: how many nodes the arena holds.
#[verifier::external_body]
fn ui_arena_len(arena: &Arena<UiNode>) -> (r: usize)
    ensures
        r == ui_arena_nodes(*arena).dom().len(),
{
    arena.len()
}

/// `Arena::get`, by the bits of an index (bits that are no index find nothing).
#[verifier::external_body]
fn ui_arena_get(arena: &Arena<UiNode>, bits: u64) -> (r: Option<&UiNode>)
    ensures
        match r {
            Some(n) => ui_arena_nodes(*arena).contains_key(bits) && *n == ui_arena_nodes(*arena)[bits],
            None => !ui_arena_nodes(*arena).contains_key(bits),
        },
{
    Index::from_bits(bits).and_then(|i| arena.get(i))
}

/// `Arena::get_mut` for an index in use: the node, and the arena holding
/// whatever the node is left as.
#[verifier::external_body]
fn ui_arena_get_mut(arena: &mut Arena<UiNode>, bits: u64) -> (r: &mut UiNode)
    requires
        ui_arena_nodes(*old(arena)).contains_key(bits),
    ensures
        *r == ui_arena_nodes(*old(arena))[bits],
        ui_arena_nodes(*final(arena)) == ui_arena_nodes(*old(arena)).insert(bits, *final(r)),
{
    arena.get_mut(Index::from_bits(bits).unwrap()).unwrap()
}

/// `Arena::remove`, by the bits of an index.
#[verifier::external_body]
fn ui_arena_remove(arena: &mut Arena<UiNode>, bits: u64) -> (r: Option<UiNode>)
    ensures
        r == ui_arena_nodes(*old(arena)).get(bits),
        ui_arena_nodes(*final(arena)) == ui_arena_nodes(*old(arena)).remove(bits),
{
    Index::from_bits(bits).and_then(|i| arena.remove(i))
}

/// `m` with the first child of the node at `k` set to `v`.
pub open spec fn set_first(m: Map<u64, UiNode>, k: u64, v: Option<UiIndex>) -> Map<u64, UiNode> {
    m.insert(k, UiNode { first_child: v, ..m[k] })
}

/// `m` with the last child of the node at `k` set to `v`.
pub open spec fn set_last(m: Map<u64, UiNode>, k: u64, v: Option<UiIndex>) -> Map<u64, UiNode> {
    m.insert(k, UiNode { last_child: v, ..m[k] })
}

/// `m` with the next sibling of the node at `k` set to `v`.
pub open spec fn set_next(m: Map<u64, UiNode>, k: u64, v: Option<UiIndex>) -> Map<u64, UiNode> {
    m.insert(k, UiNode { next_sibling: v, ..m[k] })
}

/// `m` with the previous sibling of the node at `k` set to `v`.
pub open spec fn set_prev(m: Map<u64, UiNode>, k: u64, v: Option<UiIndex>) -> Map<u64, UiNode> {
    m.insert(k, UiNode { prev_sibling: v, ..m[k] })
}

/// `m` with the parent of the node at `k` set to `v`.
pub open spec fn set_parent(m: Map<u64, UiNode>, k: u64, v: Option<UiIndex>) -> Map<u64, UiNode> {
    m.insert(k, UiNode { parent: v, ..m[k] })
}

/// `m` with the events of the node at `k` set to `v`.
pub open spec fn set_events(m: Map<u64, UiNode>, k: u64, v: Option<Vec<UiEvent>>) -> Map<u64, UiNode> {
    m.insert(k, UiNode { events: v, ..m[k] })
}

/// `child` has a parent in the tree: it is the one it would be detached from.
pub open spec fn attached(m: Map<u64, UiNode>, child: u64) -> bool {
    &&& m.contains_key(child)
    &&& m[child].parent is Some
    &&& m.contains_key((m[child].parent->0).0)
}

/// Detaching `child` touches only nodes that are in the tree.
pub open spec fn deparent_ok(m: Map<u64, UiNode>, child: u64) -> bool {
    attached(m, child) ==> {
        &&& (m[child].prev_sibling matches Some(p) ==> m.contains_key(p.0))
        &&& (m[child].next_sibling matches Some(n) ==> m.contains_key(n.0))
    }
}

/// The nodes once `child` is detached from its parent: the parent's first
/// child becomes `child`'s next sibling if it was `child`, its last child
/// `child`'s previous sibling if it was `child`; the siblings are linked to
/// each other; `child` has no parent or siblings. Nothing changes when `child`
/// is not in the tree or has no parent in it.
pub open spec fn spec_deparent(m: Map<u64, UiNode>, child: u64) -> Map<u64, UiNode> {
    if !attached(m, child) {
        m
    } else {
        let c = UiIndex(child);
        let p = (m[child].parent->0).0;
        let prev = m[child].prev_sibling;
        let next = m[child].next_sibling;
        let m1 = if m[p].first_child == Some(c) { set_first(m, p, next) } else { m };
        let m2 = if m1[p].last_child == Some(c) { set_last(m1, p, prev) } else { m1 };
        let m3 = match prev {
            Some(pv) => set_next(m2, pv.0, next),
            None => m2,
        };
        let m4 = match next {
            Some(nx) => set_prev(m3, nx.0, prev),
            None => m3,
        };
        m4.insert(child, UiNode { parent: None, next_sibling: None, prev_sibling: None, ..m4[child] })
    }
}

/// The nodes once `child` is appended to `parent`'s children (after being
/// detached): it becomes the last child, linked after the previous last child
/// if that is in the tree, else it becomes the first child too.
pub open spec fn spec_parent(m: Map<u64, UiNode>, parent: u64, child: u64) -> Map<u64, UiNode> {
    let m1 = spec_deparent(m, child);
    let last = m1[parent].last_child;
    let m2 = set_last(m1, parent, Some(UiIndex(child)));
    let m3 = match last {
        Some(l) => if m1.contains_key(l.0) {
            set_next(m2, l.0, Some(UiIndex(child)))
        } else {
            set_first(m2, parent, Some(UiIndex(child)))
        },
        None => set_first(m2, parent, Some(UiIndex(child))),
    };
    set_parent(m3, child, Some(UiIndex(parent)))
}

/// `roots` without its first occurrence of `e`, the last root moved into its place.
pub open spec fn roots_without(roots: Seq<UiIndex>, e: UiIndex) -> Seq<UiIndex> {
    if roots.contains(e) {
        let i = choose|i: int| 0 <= i < roots.len() && roots[i] == e && forall|j: int| 0 <= j < i ==> roots[j] != e;
        roots.update(i, roots.last()).drop_last()
    } else {
        roots
    }
}

proof fn lemma_deparent_dom(m: Map<u64, UiNode>, child: u64)
    requires
        deparent_ok(m, child),
    ensures
        spec_deparent(m, child).dom() == m.dom(),
{
    if attached(m, child) {
        assert(spec_deparent(m, child).dom() =~= m.dom());
    }
}

/// `n` is in the tree, names no previous sibling and has `owner` or no node as
/// its parent; its first child and its next sibling, where it has them, are in
/// the tree at a lower rank `r`.
pub open spec fn linked(m: Map<u64, UiNode>, r: spec_fn(u64) -> nat, n: u64, owner: u64) -> bool {
    &&& m.contains_key(n)
    &&& m[n].prev_sibling is None
    &&& (m[n].parent is None || m[n].parent == Some(UiIndex(owner)))
    &&& match m[n].first_child {
        Some(c) => m.contains_key(c.0) && r(c.0) < r(n),
        None => true,
    }
    &&& match m[n].next_sibling {
        Some(s) => m.contains_key(s.0) && r(s.0) < r(n),
        None => true,
    }
}

/// The nodes reached from `n` by first-child and next-sibling links that go
/// down in rank, `n` included.
pub open spec fn reach(m: Map<u64, UiNode>, r: spec_fn(u64) -> nat, n: u64) -> Set<u64>
    decreases r(n),
{
    let below = match m[n].first_child {
        Some(c) => if r(c.0) < r(n) { reach(m, r, c.0) } else { Set::empty() },
        None => Set::empty(),
    };
    let after = match m[n].next_sibling {
        Some(s) => if r(s.0) < r(n) { reach(m, r, s.0) } else { Set::empty() },
        None => Set::empty(),
    };
    Set::empty().insert(n).union(below).union(after)
}

/// The same nodes in the order they are met: `n`, then what hangs below its
/// first child, then what follows it as next sibling.
pub open spec fn preorder(m: Map<u64, UiNode>, r: spec_fn(u64) -> nat, n: u64) -> Seq<u64>
    decreases r(n),
{
    let below = match m[n].first_child {
        Some(c) => if r(c.0) < r(n) { preorder(m, r, c.0) } else { Seq::empty() },
        None => Seq::empty(),
    };
    let after = match m[n].next_sibling {
        Some(s) => if r(s.0) < r(n) { preorder(m, r, s.0) } else { Seq::empty() },
        None => Seq::empty(),
    };
    seq![n] + below + after
}

/// From `n` on, the first-child and next-sibling links form a tree: every node
/// met is linked, with the node it hangs below as owner (`owner` for `n` and
/// its next siblings), and what hangs below a node shares no node with what
/// follows it.
pub open spec fn is_tree(m: Map<u64, UiNode>, r: spec_fn(u64) -> nat, n: u64, owner: u64) -> bool
    decreases r(n),
{
    &&& linked(m, r, n, owner)
    &&& match m[n].first_child {
        Some(c) => r(c.0) < r(n) && is_tree(m, r, c.0, n),
        None => true,
    }
    &&& match m[n].next_sibling {
        Some(s) => r(s.0) < r(n) && is_tree(m, r, s.0, owner),
        None => true,
    }
    &&& match (m[n].first_child, m[n].next_sibling) {
        (Some(c), Some(s)) => reach(m, r, c.0).disjoint(reach(m, r, s.0)),
        _ => true,
    }
}

/// The children of `e`, from its first child on, form a tree ranked below `e`.
pub open spec fn children_tree(m: Map<u64, UiNode>, r: spec_fn(u64) -> nat, e: u64) -> bool {
    match m[e].first_child {
        Some(c) => m.contains_key(c.0) && r(c.0) < r(e) && is_tree(m, r, c.0, e),
        None => true,
    }
}

/// `reach` from the node `o` names, if any.
pub open spec fn opt_reach(m: Map<u64, UiNode>, r: spec_fn(u64) -> nat, o: Option<UiIndex>) -> Set<u64> {
    match o {
        Some(c) => reach(m, r, c.0),
        None => Set::empty(),
    }
}

/// `preorder` from the node `o` names, if any.
pub open spec fn opt_preorder(m: Map<u64, UiNode>, r: spec_fn(u64) -> nat, o: Option<UiIndex>) -> Seq<u64> {
    match o {
        Some(c) => preorder(m, r, c.0),
        None => Seq::empty(),
    }
}

/// `e` and the nodes below it, in the order `remove` takes them.
pub open spec fn removal_order(m: Map<u64, UiNode>, r: spec_fn(u64) -> nat, e: u64) -> Seq<u64> {
    seq![e] + opt_preorder(m, r, m[e].first_child)
}

/// `e` and the nodes below it.
pub open spec fn removal_set(m: Map<u64, UiNode>, r: spec_fn(u64) -> nat, e: u64) -> Set<u64> {
    opt_reach(m, r, m[e].first_child).insert(e)
}

/// `remove(e)` applies: `e` is in the tree and can be detached, and once
/// detached its children form a tree below it under some ranking.
pub open spec fn removable(m: Map<u64, UiNode>, e: u64) -> bool {
    &&& m.contains_key(e)
    &&& deparent_ok(m, e)
    &&& exists|r: spec_fn(u64) -> nat| children_tree(spec_deparent(m, e), r, e)
}

/// A ranking that shows `removable(m, e)`.
pub open spec fn removal_rank(m: Map<u64, UiNode>, e: u64) -> spec_fn(u64) -> nat {
    choose|r: spec_fn(u64) -> nat| children_tree(spec_deparent(m, e), r, e)
}

/// The nodes once `e` is removed: `e` is detached, then it and every node
/// below it leave the tree.
pub open spec fn spec_remove(m: Map<u64, UiNode>, e: u64) -> Map<u64, UiNode> {
    let d = spec_deparent(m, e);
    d.remove_keys(removal_set(d, removal_rank(m, e), e))
}

/// The roots once `e` is removed: each removed node, in the order `remove`
/// meets it, is taken out of them.
pub open spec fn roots_after_remove(roots: Seq<UiIndex>, m: Map<u64, UiNode>, e: u64) -> Seq<UiIndex> {
    roots_minus(roots, removal_order(spec_deparent(m, e), removal_rank(m, e), e))
}

/// `roots` once each node of `order` in turn is taken out of it (see `roots_without`).
pub open spec fn roots_minus(roots: Seq<UiIndex>, order: Seq<u64>) -> Seq<UiIndex>
    decreases order.len(),
{
    if order.len() == 0 {
        roots
    } else {
        roots_minus(roots_without(roots, UiIndex(order[0])), order.drop_first())
    }
}

proof fn lemma_roots_minus_concat(roots: Seq<UiIndex>, a: Seq<u64>, b: Seq<u64>)
    ensures
        roots_minus(roots, a + b) == roots_minus(roots_minus(roots, a), b),
    decreases a.len(),
{
    if a.len() == 0 {
        assert(a + b =~= b);
    } else {
        assert((a + b).drop_first() =~= a.drop_first() + b);
        assert((a + b)[0] == a[0]);
        lemma_roots_minus_concat(roots_without(roots, UiIndex(a[0])), a.drop_first(), b);
    }
}

proof fn lemma_concat_contains<A>(a: Seq<A>, b: Seq<A>, k: A)
    ensures
        (a + b).contains(k) <==> a.contains(k) || b.contains(k),
{
    if (a + b).contains(k) {
        let i = choose|i: int| 0 <= i < (a + b).len() && (a + b)[i] == k;
        if i < a.len() {
            assert(a[i] == k);
        } else {
            assert(b[i - a.len()] == k);
        }
    }
    if a.contains(k) {
        let i = choose|i: int| 0 <= i < a.len() && a[i] == k;
        assert((a + b)[i] == k);
    }
    if b.contains(k) {
        let i = choose|i: int| 0 <= i < b.len() && b[i] == k;
        assert((a + b)[a.len() + i] == k);
    }
}

/// Taking `e` out of the roots keeps every other root and adds none; when no
/// root occurs twice, `e` is no longer among them and still none occurs twice.
proof fn lemma_roots_without(roots: Seq<UiIndex>, e: UiIndex)
    ensures
        forall|x: UiIndex| #[trigger] roots_without(roots, e).contains(x) ==> roots.contains(x),
        forall|x: UiIndex| roots.contains(x) && x != e ==> #[trigger] roots_without(roots, e).contains(x),
        roots.no_duplicates() ==> roots_without(roots, e).no_duplicates() && !roots_without(roots, e).contains(e),
{
    if roots.contains(e) {
        let n = roots.len();
        assert(exists|i: int| 0 <= i < roots.len() && roots[i] == e && forall|j: int| 0 <= j < i ==> roots[j] != e) by {
            roots.index_of_first_ensures(e);
            let w = roots.index_of_first(e)->0;
            assert(0 <= w < roots.len() && roots[w] == e && forall|j: int| 0 <= j < w ==> roots[j] != e);
        }
        let i = choose|i: int| 0 <= i < roots.len() && roots[i] == e && forall|j: int| 0 <= j < i ==> roots[j] != e;
        let t = roots_without(roots, e);
        assert(t == roots.update(i, roots.last()).drop_last());
        assert(t.len() == n - 1);
        assert forall|k: int| 0 <= k < n - 1 implies #[trigger] t[k] == if k == i { roots[n - 1] } else { roots[k] } by {}
        assert forall|x: UiIndex| #[trigger] t.contains(x) implies roots.contains(x) by {
            let k = choose|k: int| 0 <= k < t.len() && t[k] == x;
            if k == i {
                assert(roots[n - 1] == x);
            } else {
                assert(roots[k] == x);
            }
        }
        assert forall|x: UiIndex| roots.contains(x) && x != e implies #[trigger] t.contains(x) by {
            let k = choose|k: int| 0 <= k < n && roots[k] == x;
            assert(k != i);
            if k < n - 1 {
                assert(t[k] == x);
            } else {
                assert(t[i] == x);
            }
        }
        if roots.no_duplicates() {
            assert forall|a: int, b: int| 0 <= a < t.len() && 0 <= b < t.len() && a != b implies t[a] != t[b] by {
                let sa = if a == i { n - 1 } else { a };
                let sb = if b == i { n - 1 } else { b };
                assert(t[a] == roots[sa] && t[b] == roots[sb]);
                assert(sa != sb);
            }
            assert forall|k: int| 0 <= k < t.len() implies t[k] != e by {
                let sk = if k == i { n - 1 } else { k };
                assert(t[k] == roots[sk]);
                assert(sk != i);
            }
        }
    }
}

/// Taking each node of `order` out of the roots in turn keeps every root that
/// names none of them and adds none; when no root occurs twice, no root names a
/// node of `order` afterwards and still none occurs twice.
proof fn lemma_roots_minus(roots: Seq<UiIndex>, order: Seq<u64>)
    ensures
        forall|x: UiIndex| #[trigger] roots_minus(roots, order).contains(x) ==> roots.contains(x),
        forall|x: UiIndex| roots.contains(x) && !order.contains(x.0) ==> #[trigger] roots_minus(roots, order).contains(x),
        roots.no_duplicates() ==> roots_minus(roots, order).no_duplicates()
            && forall|x: UiIndex| #[trigger] roots_minus(roots, order).contains(x) ==> !order.contains(x.0),
    decreases order.len(),
{
    if order.len() > 0 {
        let e = UiIndex(order[0]);
        let rest = order.drop_first();
        let w = roots_without(roots, e);
        lemma_roots_without(roots, e);
        lemma_roots_minus(w, rest);
        assert(roots_minus(roots, order) == roots_minus(w, rest));
        assert forall|k: u64| order.contains(k) <==> k == order[0] || rest.contains(k) by {
            assert(order =~= seq![order[0]] + rest);
            lemma_concat_contains(seq![order[0]], rest, k);
            if k == order[0] {
                assert(seq![order[0]][0] == k);
            }
        }
        assert forall|x: UiIndex| roots.contains(x) && !order.contains(x.0) implies #[trigger] roots_minus(roots, order).contains(x) by {
            assert(x != e);
            assert(w.contains(x));
        }
        if roots.no_duplicates() {
            assert forall|x: UiIndex| #[trigger] roots_minus(roots, order).contains(x) implies !order.contains(x.0) by {
                assert(w.contains(x));
                assert(x != e);
                assert(x.0 != order[0]);
            }
        }
    }
}

/// The nodes `preorder` meets are those of `reach`.
proof fn lemma_preorder_reach(m: Map<u64, UiNode>, r: spec_fn(u64) -> nat, n: u64)
    ensures
        forall|k: u64| #[trigger] preorder(m, r, n).contains(k) <==> reach(m, r, n).contains(k),
    decreases r(n),
{
    let bp = match m[n].first_child {
        Some(c) => if r(c.0) < r(n) { preorder(m, r, c.0) } else { Seq::empty() },
        None => Seq::empty(),
    };
    let ap = match m[n].next_sibling {
        Some(s) => if r(s.0) < r(n) { preorder(m, r, s.0) } else { Seq::empty() },
        None => Seq::empty(),
    };
    let br = match m[n].first_child {
        Some(c) => if r(c.0) < r(n) { reach(m, r, c.0) } else { Set::empty() },
        None => Set::empty(),
    };
    let ar = match m[n].next_sibling {
        Some(s) => if r(s.0) < r(n) { reach(m, r, s.0) } else { Set::empty() },
        None => Set::empty(),
    };
    if let Some(c) = m[n].first_child {
        if r(c.0) < r(n) {
            lemma_preorder_reach(m, r, c.0);
        }
    }
    if let Some(s) = m[n].next_sibling {
        if r(s.0) < r(n) {
            lemma_preorder_reach(m, r, s.0);
        }
    }
    assert(preorder(m, r, n) == seq![n] + bp + ap);
    assert(reach(m, r, n) == Set::empty().insert(n).union(br).union(ar));
    assert forall|k: u64| #[trigger] preorder(m, r, n).contains(k) <==> reach(m, r, n).contains(k) by {
        lemma_concat_contains(seq![n] + bp, ap, k);
        lemma_concat_contains(seq![n], bp, k);
        if k == n {
            assert(seq![n][0] == k);
        }
        assert(seq![n].contains(k) <==> k == n);
        assert(bp.contains(k) <==> br.contains(k));
        assert(ap.contains(k) <==> ar.contains(k));
    }
}

/// Removing `e` takes out of the roots `e` and every node that was below it
/// (the nodes that leave the tree) and keeps every other root; when no root
/// occurs twice, none of the removed nodes is a root afterwards.
pub proof fn law_remove_takes_out_roots(roots: Seq<UiIndex>, m: Map<u64, UiNode>, e: u64)
    requires
        removable(m, e),
    ensures
        forall|x: UiIndex| #[trigger] roots_after_remove(roots, m, e).contains(x) ==> roots.contains(x),
        forall|x: UiIndex| roots.contains(x) && (m.contains_key(x.0) ==> spec_remove(m, e).contains_key(x.0))
            ==> #[trigger] roots_after_remove(roots, m, e).contains(x),
        !spec_remove(m, e).contains_key(e),
        roots.no_duplicates() ==> {
            &&& roots_after_remove(roots, m, e).no_duplicates()
            &&& !roots_after_remove(roots, m, e).contains(UiIndex(e))
            &&& forall|x: UiIndex| #[trigger] roots_after_remove(roots, m, e).contains(x) ==> !m.contains_key(x.0)
                || spec_remove(m, e).contains_key(x.0)
        },
{
    let d = spec_deparent(m, e);
    let rr = removal_rank(m, e);
    lemma_deparent_dom(m, e);
    let order = removal_order(d, rr, e);
    let set = removal_set(d, rr, e);
    assert(children_tree(d, rr, e));
    assert forall|k: u64| #[trigger] order.contains(k) <==> set.contains(k) by {
        lemma_concat_contains(seq![e], opt_preorder(d, rr, d[e].first_child), k);
        if k == e {
            assert(seq![e][0] == k);
        }
        assert(seq![e].contains(k) <==> k == e);
        if let Some(c) = d[e].first_child {
            lemma_preorder_reach(d, rr, c.0);
        }
    }
    assert forall|k: u64| #[trigger] set.contains(k) implies m.contains_key(k) by {
        if k != e {
            let c = d[e].first_child->0;
            lemma_reach_tree(d, rr, c.0, e, k);
        }
    }
    assert forall|k: u64| set.contains(k) <==> m.contains_key(k) && !#[trigger] spec_remove(m, e).contains_key(k) by {}
    assert(set.contains(e));
    lemma_roots_minus(roots, order);
}

proof fn lemma_reach_rank(m: Map<u64, UiNode>, r: spec_fn(u64) -> nat, n: u64, k: u64)
    requires
        reach(m, r, n).contains(k),
    ensures
        r(k) <= r(n),
    decreases r(n),
{
    if k != n {
        match m[n].first_child {
            Some(c) => if r(c.0) < r(n) && reach(m, r, c.0).contains(k) {
                lemma_reach_rank(m, r, c.0, k);
            },
            None => {},
        }
        match m[n].next_sibling {
            Some(s) => if r(s.0) < r(n) && reach(m, r, s.0).contains(k) {
                lemma_reach_rank(m, r, s.0, k);
            },
            None => {},
        }
    }
}

/// Every node met in a tree is in the map.
proof fn lemma_reach_tree(m: Map<u64, UiNode>, r: spec_fn(u64) -> nat, n: u64, owner: u64, k: u64)
    requires
        is_tree(m, r, n, owner),
        reach(m, r, n).contains(k),
    ensures
        m.contains_key(k),
    decreases r(n),
{
    if k != n {
        match m[n].first_child {
            Some(c) => if reach(m, r, c.0).contains(k) {
                lemma_reach_tree(m, r, c.0, n, k);
            },
            None => {},
        }
        match m[n].next_sibling {
            Some(s) => if reach(m, r, s.0).contains(k) {
                lemma_reach_tree(m, r, s.0, owner, k);
            },
            None => {},
        }
    }
}

/// A tree stays the same tree in a map that holds the same nodes for it.
proof fn lemma_tree_frame(m: Map<u64, UiNode>, m2: Map<u64, UiNode>, r: spec_fn(u64) -> nat, n: u64, owner: u64)
    requires
        is_tree(m, r, n, owner),
        forall|k: u64| #[trigger] reach(m, r, n).contains(k) ==> m2.contains_key(k) && m2[k] == m[k],
    ensures
        is_tree(m2, r, n, owner),
        reach(m2, r, n) == reach(m, r, n),
        preorder(m2, r, n) == preorder(m, r, n),
    decreases r(n),
{
    if let Some(c) = m[n].first_child {
        assert(reach(m, r, c.0).contains(c.0));
        assert forall|k: u64| #[trigger] reach(m, r, c.0).contains(k) implies m2.contains_key(k) && m2[k] == m[k] by {
            assert(reach(m, r, n).contains(k));
        }
        lemma_tree_frame(m, m2, r, c.0, n);
    }
    if let Some(s) = m[n].next_sibling {
        assert(reach(m, r, s.0).contains(s.0));
        assert forall|k: u64| #[trigger] reach(m, r, s.0).contains(k) implies m2.contains_key(k) && m2[k] == m[k] by {
            assert(reach(m, r, n).contains(k));
        }
        lemma_tree_frame(m, m2, r, s.0, owner);
    }
    assert(reach(m, r, n).contains(n));
}

/// No node names a previous sibling.
pub open spec fn no_prev(m: Map<u64, UiNode>) -> bool {
    forall|k: u64| #[trigger] m.contains_key(k) ==> m[k].prev_sibling is None
}

/// Detaching and attaching never give a node a previous sibling: where no node
/// names one, none does afterwards, and the same nodes are in the tree.
pub proof fn law_links_keep_no_prev(m: Map<u64, UiNode>, p: u64, c: u64)
    requires
        no_prev(m),
        deparent_ok(m, c),
        m.contains_key(p),
        m.contains_key(c),
    ensures
        no_prev(spec_deparent(m, c)),
        spec_deparent(m, c).dom() == m.dom(),
        no_prev(spec_parent(m, p, c)),
        spec_parent(m, p, c).dom() == m.dom(),
{
    lemma_deparent_dom(m, c);
    let d = spec_deparent(m, c);
    let m2 = spec_parent(m, p, c);
    assert(m2.dom() =~= m.dom());
    assert forall|k: u64| #[trigger] m2.contains_key(k) implies m2[k].prev_sibling is None by {
        assert(d.contains_key(k));
    }
}

/// Attaching a child makes it the parent's last child and names the parent as
/// its parent; when the parent had no child it is the first child too.
pub proof fn law_parent_links(m: Map<u64, UiNode>, p: u64, c: u64)
    requires
        deparent_ok(m, c),
        m.contains_key(p),
        m.contains_key(c),
    ensures
        spec_parent(m, p, c)[c].parent == Some(UiIndex(p)),
        spec_parent(m, p, c)[p].last_child == Some(UiIndex(c)),
        p != c && spec_deparent(m, c)[p].last_child is None ==> spec_parent(m, p, c)[p].first_child == Some(UiIndex(c)),
{
}

/// Detaching an element that has a parent leaves it in the tree with no
/// parent, no next sibling and no previous sibling, holding the same element
/// and events as before.
pub proof fn law_deparent_detaches(m: Map<u64, UiNode>, c: u64)
    requires
        attached(m, c),
    ensures
        spec_deparent(m, c).contains_key(c),
        spec_deparent(m, c)[c].parent is None,
        spec_deparent(m, c)[c].next_sibling is None,
        spec_deparent(m, c)[c].prev_sibling is None,
        spec_deparent(m, c)[c].element == m[c].element,
        spec_deparent(m, c)[c].events == m[c].events,
{
}

/// Detaching a child that was just attached to a childless parent gives back
/// the tree as it was, when the child had no parent or siblings before.
pub proof fn law_deparent_undoes_parent(m: Map<u64, UiNode>, p: u64, c: u64)
    requires
        m.contains_key(p),
        m.contains_key(c),
        p != c,
        m[c].parent is None,
        m[c].next_sibling is None,
        m[c].prev_sibling is None,
        m[p].first_child is None,
        m[p].last_child is None,
    ensures
        spec_deparent(spec_parent(m, p, c), c) == m,
{
    let m2 = spec_parent(m, p, c);
    assert(spec_deparent(m, c) == m);
    assert(m2[c].parent == Some(UiIndex(p)));
    assert(m2[p].first_child == Some(UiIndex(c)));
    assert(m2[p].last_child == Some(UiIndex(c)));
    let d = spec_deparent(m2, c);
    assert(d[p] == m[p]);
    assert(d[c] == m[c]);
    assert(d =~= m);
}

/// The next sibling of the node `i` names, as the walks over the tree read it:
/// none when `i` is not in the tree.
pub open spec fn next_of(m: Map<u64, UiNode>, i: UiIndex) -> Option<UiIndex> {
    if m.contains_key(i.0) {
        m[i.0].next_sibling
    } else {
        None
    }
}

/// One more than the rank of the node `o` names; zero for none.
pub open spec fn opt_rank(r: spec_fn(u64) -> nat, o: Option<UiIndex>) -> nat {
    match o {
        Some(c) => r(c.0) + 1,
        None => 0,
    }
}

/// The sibling chain from `o`: `o`, its next sibling, and so on, as far as
/// the ranks go down.
pub open spec fn sibling_chain(m: Map<u64, UiNode>, r: spec_fn(u64) -> nat, o: Option<UiIndex>) -> Seq<UiIndex>
    decreases opt_rank(r, o),
{
    match o {
        None => Seq::empty(),
        Some(c) => match next_of(m, c) {
            Some(s) => if r(s.0) < r(c.0) {
                seq![c] + sibling_chain(m, r, Some(s))
            } else {
                seq![c]
            },
            None => seq![c],
        },
    }
}

/// The children a walk over the tree takes from node `n`: the sibling chain
/// of its first child when it is visible, none when it is hidden.
pub open spec fn walk_children(m: Map<u64, UiNode>, r: spec_fn(u64) -> nat, n: UiIndex) -> Seq<UiIndex> {
    if m.contains_key(n.0) && m[n.0].element.spec_visible() {
        match m[n.0].first_child {
            Some(c) => if r(c.0) < r(n.0) {
                sibling_chain(m, r, Some(c))
            } else {
                Seq::empty()
            },
            None => Seq::empty(),
        }
    } else {
        Seq::empty()
    }
}

/// A walk over the tree from `n` meets only nodes of the tree and goes down
/// in rank: `n` is in the tree and, when visible, the sibling chain of its
/// first child does the same; with `chain`, so does `n`'s next sibling.
pub open spec fn walk_ok(m: Map<u64, UiNode>, r: spec_fn(u64) -> nat, n: u64, chain: bool) -> bool
    decreases r(n), if chain { 1nat } else { 0nat },
{
    if chain {
        &&& walk_ok(m, r, n, false)
        &&& match next_of(m, UiIndex(n)) {
            Some(s) => r(s.0) < r(n) && walk_ok(m, r, s.0, true),
            None => true,
        }
    } else {
        &&& m.contains_key(n)
        &&& m[n].element.spec_visible() ==> match m[n].first_child {
            Some(c) => r(c.0) < r(n) && walk_ok(m, r, c.0, true),
            None => true,
        }
    }
}

/// The total of two to the rank of each node of `q`.
pub open spec fn walk_weight(r: spec_fn(u64) -> nat, q: Seq<UiIndex>) -> nat
    decreases q.len(),
{
    if q.len() == 0 {
        0
    } else {
        pow2(r(q[0].0)) + walk_weight(r, q.drop_first())
    }
}

pub proof fn lemma_weight_concat(r: spec_fn(u64) -> nat, a: Seq<UiIndex>, b: Seq<UiIndex>)
    ensures
        walk_weight(r, a + b) == walk_weight(r, a) + walk_weight(r, b),
    decreases a.len(),
{
    if a.len() == 0 {
        assert(a + b =~= b);
    } else {
        assert((a + b).drop_first() =~= a.drop_first() + b);
        lemma_weight_concat(r, a.drop_first(), b);
    }
}

pub proof fn lemma_weight_last(r: spec_fn(u64) -> nat, q: Seq<UiIndex>)
    requires
        q.len() > 0,
    ensures
        walk_weight(r, q) == walk_weight(r, q.drop_last()) + pow2(r(q.last().0)),
{
    lemma_weight_concat(r, q.drop_last(), seq![q.last()]);
    assert(q.drop_last() + seq![q.last()] =~= q);
    assert(seq![q.last()].drop_first() =~= Seq::<UiIndex>::empty());
    assert(walk_weight(r, Seq::<UiIndex>::empty()) == 0);
    assert(walk_weight(r, seq![q.last()]) == pow2(r(q.last().0)));
}

pub proof fn lemma_chain_weight(m: Map<u64, UiNode>, r: spec_fn(u64) -> nat, c: UiIndex)
    ensures
        walk_weight(r, sibling_chain(m, r, Some(c))) < pow2(r(c.0) + 1),
    decreases r(c.0),
{
    let ch = sibling_chain(m, r, Some(c));
    lemma_pow2_unfold(r(c.0) + 1);
    lemma_pow2_pos(r(c.0));
    assert(ch[0] == c);
    assert(walk_weight(r, Seq::<UiIndex>::empty()) == 0);
    assert(walk_weight(r, ch) == pow2(r(c.0)) + walk_weight(r, ch.drop_first()));
    match next_of(m, c) {
        Some(s) => if r(s.0) < r(c.0) {
            lemma_chain_weight(m, r, s);
            assert(ch.drop_first() =~= sibling_chain(m, r, Some(s)));
            if r(s.0) + 1 < r(c.0) {
                lemma_pow2_strictly_increases(r(s.0) + 1, r(c.0));
            }
        } else {
            assert(ch.drop_first() =~= Seq::<UiIndex>::empty());
        },
        None => {
            assert(ch.drop_first() =~= Seq::<UiIndex>::empty());
        },
    }
}

/// The children a walk takes from `n` weigh less than `n`.
pub proof fn lemma_children_weight(m: Map<u64, UiNode>, r: spec_fn(u64) -> nat, n: UiIndex)
    ensures
        walk_weight(r, walk_children(m, r, n)) < pow2(r(n.0)),
{
    lemma_pow2_pos(r(n.0));
    if m.contains_key(n.0) && m[n.0].element.spec_visible() {
        if let Some(c) = m[n.0].first_child {
            if r(c.0) < r(n.0) {
                lemma_chain_weight(m, r, c);
                if r(c.0) + 1 < r(n.0) {
                    lemma_pow2_strictly_increases(r(c.0) + 1, r(n.0));
                }
            }
        }
    }
}

/// The visible nodes in the order a breadth-first walk from the queue `q`
/// takes them: the node at the front, then, when it is visible, the queue
/// with its children appended.
pub open spec fn bfs_walk(m: Map<u64, UiNode>, r: spec_fn(u64) -> nat, q: Seq<UiIndex>) -> Seq<UiIndex>
    decreases walk_weight(r, q),
{
    if q.len() == 0 {
        Seq::empty()
    } else {
        let n = q[0];
        let rest = q.drop_first();
        let next = rest + walk_children(m, r, n);
        proof {
            lemma_weight_concat(r, rest, walk_children(m, r, n));
            lemma_children_weight(m, r, n);
        }
        if m.contains_key(n.0) && m[n.0].element.spec_visible() {
            seq![n] + bfs_walk(m, r, next)
        } else {
            bfs_walk(m, r, next)
        }
    }
}

/// The visible nodes in the order a depth-first walk from the stack `s`
/// takes them: the node on top, then, when it is visible, the stack with
/// its children pushed in order.
pub open spec fn dfs_walk(m: Map<u64, UiNode>, r: spec_fn(u64) -> nat, s: Seq<UiIndex>) -> Seq<UiIndex>
    decreases walk_weight(r, s),
{
    if s.len() == 0 {
        Seq::empty()
    } else {
        let n = s.last();
        let rest = s.drop_last();
        let next = rest + walk_children(m, r, n);
        proof {
            lemma_weight_last(r, s);
            lemma_weight_concat(r, rest, walk_children(m, r, n));
            lemma_children_weight(m, r, n);
        }
        if m.contains_key(n.0) && m[n.0].element.spec_visible() {
            seq![n] + dfs_walk(m, r, next)
        } else {
            dfs_walk(m, r, next)
        }
    }
}

/// Under ranking `r`, every node of `q` is `walk_ok`.
pub open spec fn all_walk_ok(m: Map<u64, UiNode>, r: spec_fn(u64) -> nat, q: Seq<UiIndex>) -> bool {
    forall|i: int| 0 <= i < q.len() ==> walk_ok(m, r, (#[trigger] q[i]).0, false)
}

/// The walks over the tree from its roots stay in the tree and end: some
/// ranking makes every root `walk_ok`.
pub open spec fn walkable(m: Map<u64, UiNode>, roots: Seq<UiIndex>) -> bool {
    exists|r: spec_fn(u64) -> nat| #[trigger] all_walk_ok(m, r, roots)
}

/// A ranking that shows `walkable(m, roots)`.
pub open spec fn walk_rank(m: Map<u64, UiNode>, roots: Seq<UiIndex>) -> spec_fn(u64) -> nat {
    choose|r: spec_fn(u64) -> nat| #[trigger] all_walk_ok(m, r, roots)
}

proof fn lemma_chain_ok(m: Map<u64, UiNode>, r: spec_fn(u64) -> nat, o: Option<UiIndex>)
    requires
        o matches Some(c) ==> walk_ok(m, r, c.0, true),
    ensures
        all_walk_ok(m, r, sibling_chain(m, r, o)),
    decreases opt_rank(r, o),
{
    if let Some(c) = o {
        let ch = sibling_chain(m, r, o);
        match next_of(m, c) {
            Some(s) => {
                lemma_chain_ok(m, r, Some(s));
                assert forall|i: int| 0 <= i < ch.len() implies walk_ok(m, r, (#[trigger] ch[i]).0, false) by {
                    if i > 0 {
                        assert(ch[i] == sibling_chain(m, r, Some(s))[i - 1]);
                    }
                }
            },
            None => {},
        }
    }
}

/// The walks take only elements that are in the tree and visible.
pub proof fn law_walks_take_visible(m: Map<u64, UiNode>, r: spec_fn(u64) -> nat, q: Seq<UiIndex>)
    ensures
        forall|i: int| 0 <= i < bfs_walk(m, r, q).len() ==> {
            &&& m.contains_key((#[trigger] bfs_walk(m, r, q)[i]).0)
            &&& m[bfs_walk(m, r, q)[i].0].element.spec_visible()
        },
        forall|i: int| 0 <= i < dfs_walk(m, r, q).len() ==> {
            &&& m.contains_key((#[trigger] dfs_walk(m, r, q)[i]).0)
            &&& m[dfs_walk(m, r, q)[i].0].element.spec_visible()
        },
    decreases walk_weight(r, q),
{
    if q.len() > 0 {
        let n = q[0];
        let rest = q.drop_first();
        lemma_weight_concat(r, rest, walk_children(m, r, n));
        lemma_children_weight(m, r, n);
        law_walks_take_visible(m, r, rest + walk_children(m, r, n));
        let b = bfs_walk(m, r, q);
        let bn = bfs_walk(m, r, rest + walk_children(m, r, n));
        assert forall|i: int| 0 <= i < b.len() implies {
            &&& m.contains_key((#[trigger] b[i]).0)
            &&& m[b[i].0].element.spec_visible()
        } by {
            if m.contains_key(n.0) && m[n.0].element.spec_visible() {
                if i > 0 {
                    assert(b[i] == bn[i - 1]);
                }
            } else {
                assert(b[i] == bn[i]);
            }
        }
        let t = q.last();
        let srest = q.drop_last();
        lemma_weight_last(r, q);
        lemma_weight_concat(r, srest, walk_children(m, r, t));
        lemma_children_weight(m, r, t);
        law_walks_take_visible(m, r, srest + walk_children(m, r, t));
        let d = dfs_walk(m, r, q);
        let dn = dfs_walk(m, r, srest + walk_children(m, r, t));
        assert forall|i: int| 0 <= i < d.len() implies {
            &&& m.contains_key((#[trigger] d[i]).0)
            &&& m[d[i].0].element.spec_visible()
        } by {
            if m.contains_key(t.0) && m[t.0].element.spec_visible() {
                if i > 0 {
                    assert(d[i] == dn[i - 1]);
                }
            } else {
                assert(d[i] == dn[i]);
            }
        }
    }
}

/// Takes the first occurrence of `e` out of `roots`, moving the last root into its place.
fn remove_root(roots: &mut Vec<UiIndex>, e: UiIndex)
    ensures
        final(roots)@ == roots_without(old(roots)@, e),
{
    let mut i: usize = 0;
    while i < roots.len()
        invariant
            i <= roots.len(),
            roots@ == old(roots)@,
            forall|j: int| 0 <= j < i ==> roots@[j] != e,
        decreases roots.len() - i,
    {
        if roots[i] == e {
            let ghost s = roots@;
            roots.swap_remove(i);
            proof {
                assert(s.contains(e));
                let k = choose|k: int| 0 <= k < s.len() && s[k] == e && forall|j: int| 0 <= j < k ==> s[j] != e;
                assert(0 <= k < s.len() && s[k] == e && forall|j: int| 0 <= j < k ==> s[j] != e);
                if k < i {
                    assert(s[k] != e);
                } else if k > i {
                    assert(s[i as int] != e);
                }
                assert(k == i);
            }
            return;
        }
        i += 1;
    }
    proof {
        if roots@.contains(e) {
            let k = choose|k: int| 0 <= k < roots@.len() && roots@[k] == e;
            assert(roots@[k] != e);
        }
    }
}

/// Something that can be placed in a `UiTree`.
pub trait UiElement: Sized {
    /// The element this value becomes.
    spec fn as_element(self) -> Element;

    fn to_enum(self) -> (r: Element)
        ensures
            r == self.as_element(),
    ;
}

impl UiElement for Frame {
    open spec fn as_element(self) -> Element {
        Element::Frame(self)
    }

    fn to_enum(self) -> (r: Element) {
        Element::Frame(self)
    }
}

impl UiElement for TextLabel {
    open spec fn as_element(self) -> Element {
        Element::TextLabel(self)
    }

    fn to_enum(self) -> (r: Element) {
        Element::TextLabel(self)
    }
}

/// A tree of UI elements.
pub struct UiTree {
    elements: Arena<UiNode>,
    roots: Vec<UiIndex>,
    root_size: Vec2,
    is_dirty: bool,
}

impl UiTree {
    /// The elements, by index.
    pub closed spec fn nodes(&self) -> Map<u64, UiNode> {
        ui_arena_nodes(self.elements)
    }

    /// The elements laid out against the root size, in order.
    pub closed spec fn root_list(&self) -> Seq<UiIndex> {
        self.roots@
    }

    /// The size the roots are laid out in.
    pub closed spec fn spec_root_size(&self) -> Vec2 {
        self.root_size
    }

    /// The tree holds finitely many elements.
    pub open spec fn wf(&self) -> bool {
        self.nodes().dom().finite()
    }

    /// An empty tree.
    pub fn new() -> (r: Self)
        ensures
            r.wf(),
            r.nodes() == Map::<u64, UiNode>::empty(),
            r.root_list() == Seq::<UiIndex>::empty(),
            r.spec_root_size() == crate::input::zero2(),
    {
        let zero = crate::input::vec2_zero();
        Self { elements: ui_arena_new(), roots: Vec::new(), root_size: zero, is_dirty: true }
    }

    /// Sets the size the roots are laid out in.
    pub fn set_root_size(&mut self, root_size: Vec2)
        ensures
            final(self).spec_root_size() == root_size,
            final(self).nodes() == old(self).nodes(),
            final(self).root_list() == old(self).root_list(),
    {
        self.root_size = root_size;
    }

    /// Detaches `child_index` from its parent (see `spec_deparent`).
    pub fn deparent(&mut self, child_index: UiIndex)
        requires
            deparent_ok(old(self).nodes(), child_index.0),
        ensures
            final(self).nodes() == spec_deparent(old(self).nodes(), child_index.0),
            final(self).root_list() == old(self).root_list(),
            final(self).spec_root_size() == old(self).spec_root_size(),
    {
        let ghost m = self.nodes();
        let (parent_index, prev_index, next_index) = {
            let child = match ui_arena_get(&self.elements, child_index.0) {
                Some(child) => child,
                None => return ,
            };
            match child.parent {
                Some(parent) => (parent, child.prev_sibling, child.next_sibling),
                None => return ,
            }
        };
        if ui_arena_get(&self.elements, parent_index.0).is_none() {
            return ;
        }
        let ghost p = parent_index.0;
        let ghost c = child_index;
        let parent = ui_arena_get_mut(&mut self.elements, parent_index.0);
        if parent.first_child == Some(child_index) {
            parent.first_child = next_index;
        }
        if parent.last_child == Some(child_index) {
            parent.last_child = prev_index;
        }
        proof {
            let m1 = if m[p].first_child == Some(c) { set_first(m, p, next_index) } else { m };
            let m2 = if m1[p].last_child == Some(c) { set_last(m1, p, prev_index) } else { m1 };
            assert(self.nodes() =~= m2);
        }
        if let Some(prev_index) = prev_index {
            ui_arena_get_mut(&mut self.elements, prev_index.0).next_sibling = next_index;
        }
        if let Some(next_index) = next_index {
            ui_arena_get_mut(&mut self.elements, next_index.0).prev_sibling = prev_index;
        }
        let child = ui_arena_get_mut(&mut self.elements, child_index.0);
        child.parent = None;
        child.next_sibling = None;
        child.prev_sibling = None;
    }

    /// Makes `child_index` the last child of `parent_index` (see `spec_parent`).
    pub fn parent(&mut self, parent_index: UiIndex, child_index: UiIndex)
        requires
            deparent_ok(old(self).nodes(), child_index.0),
            old(self).nodes().contains_key(parent_index.0),
            old(self).nodes().contains_key(child_index.0),
        ensures
            final(self).nodes() == spec_parent(old(self).nodes(), parent_index.0, child_index.0),
            final(self).root_list() == old(self).root_list(),
            final(self).spec_root_size() == old(self).spec_root_size(),
    {
        proof {
            lemma_deparent_dom(self.nodes(), child_index.0);
        }
        self.deparent(child_index);
        let ghost m1 = self.nodes();
        let last_child = match ui_arena_get(&self.elements, parent_index.0) {
            Some(p) => match p.last_child {
                Some(l) => if ui_arena_get(&self.elements, l.0).is_some() {
                    Some(l)
                } else {
                    None
                },
                None => None,
            },
            None => None,
        };
        let parent = ui_arena_get_mut(&mut self.elements, parent_index.0);
        parent.last_child = Some(child_index);
        let ghost m2 = self.nodes();
        assert(m2 =~= set_last(m1, parent_index.0, Some(child_index)));
        if let Some(last_child_index) = last_child {
            ui_arena_get_mut(&mut self.elements, last_child_index.0).next_sibling = Some(child_index);
            assert(self.nodes() =~= set_next(m2, last_child_index.0, Some(child_index)));
        } else {
            ui_arena_get_mut(&mut self.elements, parent_index.0).first_child = Some(child_index);
            assert(self.nodes() =~= set_first(m2, parent_index.0, Some(child_index)));
        }
        ui_arena_get_mut(&mut self.elements, child_index.0).parent = Some(parent_index);
    }

    /// Detaches `element_index` and adds it to the roots.
    pub fn root(&mut self, element_index: UiIndex)
        requires
            deparent_ok(old(self).nodes(), element_index.0),
        ensures
            final(self).nodes() == spec_deparent(old(self).nodes(), element_index.0),
            final(self).root_list() == old(self).root_list().push(element_index),
            final(self).spec_root_size() == old(self).spec_root_size(),
    {
        self.deparent(element_index);
        self.roots.push(element_index);
    }

    /// Lets the element collect events.
    pub fn enable_events(&mut self, elem_index: UiIndex)
        requires
            old(self).nodes().contains_key(elem_index.0),
        ensures
            ({
                let old_node = old(self).nodes()[elem_index.0];
                let new_events = final(self).nodes()[elem_index.0].events;
                &&& final(self).nodes() == set_events(old(self).nodes(), elem_index.0, new_events)
                &&& match old_node.events {
                    Some(v) => new_events == Some(v),
                    None => new_events matches Some(v) && v@.len() == 0,
                }
            }),
            final(self).root_list() == old(self).root_list(),
            final(self).spec_root_size() == old(self).spec_root_size(),
    {
        let elem = ui_arena_get_mut(&mut self.elements, elem_index.0);
        if elem.events.is_none() {
            elem.events = Some(Vec::new());
        }
        assert(self.nodes() =~= set_events(old(self).nodes(), elem_index.0, self.nodes()[elem_index.0].events));
    }

    /// Stops the element from collecting events, dropping those it has.
    pub fn disable_events(&mut self, elem_index: UiIndex)
        requires
            old(self).nodes().contains_key(elem_index.0),
        ensures
            final(self).nodes() == set_events(old(self).nodes(), elem_index.0, None),
            final(self).root_list() == old(self).root_list(),
            final(self).spec_root_size() == old(self).spec_root_size(),
    {
        let elem = ui_arena_get_mut(&mut self.elements, elem_index.0);
        if elem.events.is_some() {
            elem.events = None;
        }
        assert(self.nodes() =~= set_events(old(self).nodes(), elem_index.0, None));
    }

    /// Drops the events the element has collected, if it collects any.
    pub fn clear_events(&mut self, elem_index: UiIndex)
        requires
            old(self).nodes().contains_key(elem_index.0),
        ensures
            ({
                let old_node = old(self).nodes()[elem_index.0];
                let new_events = final(self).nodes()[elem_index.0].events;
                &&& final(self).nodes() == set_events(old(self).nodes(), elem_index.0, new_events)
                &&& match old_node.events {
                    Some(_) => new_events matches Some(v) && v@.len() == 0,
                    None => new_events is None,
                }
            }),
            final(self).root_list() == old(self).root_list(),
            final(self).spec_root_size() == old(self).spec_root_size(),
    {
        let node = ui_arena_get_mut(&mut self.elements, elem_index.0);
        if let Some(events) = node.events.as_mut() {
            events.clear();
        }
        assert(self.nodes() =~= set_events(old(self).nodes(), elem_index.0, self.nodes()[elem_index.0].events));
    }

    /// Adds `elem` as a new element without parent, siblings or children, not
    /// collecting events, and returns its index.
    pub fn add_element<T: UiElement>(&mut self, elem: T) -> (r: UiIndex)
        requires
            old(self).wf(),
            old(self).nodes().dom().len() < u32::MAX,
        ensures
            final(self).wf(),
            !old(self).nodes().contains_key(r.0),
            final(self).nodes() == old(self).nodes().insert(r.0, final(self).nodes()[r.0]),
            ({
                let n = final(self).nodes()[r.0];
                &&& n.parent is None
                &&& n.first_child is None
                &&& n.last_child is None
                &&& n.next_sibling is None
                &&& n.prev_sibling is None
                &&& n.dimensions_dirty
                &&& n.events is None
                &&& n.element == elem.as_element()
                &&& n.world_position == crate::input::zero2()
                &&& n.world_size == crate::input::zero2()
            }),
            final(self).root_list() == old(self).root_list(),
            final(self).spec_root_size() == old(self).spec_root_size(),
    {
        let ui_node = UiNode {
            world_position: crate::input::vec2_zero(),
            world_size: crate::input::vec2_zero(),
            dimensions_dirty: true,
            parent: None,
            first_child: None,
            last_child: None,
            next_sibling: None,
            prev_sibling: None,
            element: elem.to_enum(),
            events: None,
        };
        UiIndex(ui_arena_insert(&mut self.elements, ui_node))
    }

    /// Removes `e`: detaches it, then takes it and every node below it out of
    /// the tree and out of the roots.
    pub fn remove(&mut self, elem_index: UiIndex)
        requires
            removable(old(self).nodes(), elem_index.0),
        ensures
            final(self).nodes() == spec_remove(old(self).nodes(), elem_index.0),
            final(self).root_list() == roots_after_remove(old(self).root_list(), old(self).nodes(), elem_index.0),
            forall|x: UiIndex| old(self).root_list().contains(x) && (old(self).nodes().contains_key(x.0)
                ==> final(self).nodes().contains_key(x.0)) ==> #[trigger] final(self).root_list().contains(x),
            old(self).root_list().no_duplicates() ==> forall|x: UiIndex| #[trigger] final(self).root_list().contains(x)
                ==> old(self).root_list().contains(x) && (old(self).nodes().contains_key(x.0) ==> final(self).nodes().contains_key(x.0)),
            old(self).root_list().no_duplicates() ==> !final(self).root_list().contains(elem_index),
            final(self).spec_root_size() == old(self).spec_root_size(),
            old(self).wf() ==> final(self).wf(),
    {
        proof {
            law_remove_takes_out_roots(old(self).root_list(), old(self).nodes(), elem_index.0);
        }
        let ghost r = removal_rank(self.nodes(), elem_index.0);
        proof {
            lemma_deparent_dom(self.nodes(), elem_index.0);
        }
        self.remove_below(elem_index, Ghost(r), Ghost(r(elem_index.0)));
        proof {
            if old(self).wf() {
                assert(self.nodes().dom() =~= old(self).nodes().dom().difference(
                    removal_set(spec_deparent(old(self).nodes(), elem_index.0), r, elem_index.0)));
            }
        }
    }

    fn remove_below(&mut self, elem_index: UiIndex, Ghost(r): Ghost<spec_fn(u64) -> nat>, Ghost(rank): Ghost<nat>)
        requires
            rank == r(elem_index.0),
            old(self).nodes().contains_key(elem_index.0),
            deparent_ok(old(self).nodes(), elem_index.0),
            children_tree(spec_deparent(old(self).nodes(), elem_index.0), r, elem_index.0),
        ensures
            ({
                let d = spec_deparent(old(self).nodes(), elem_index.0);
                &&& final(self).nodes() == d.remove_keys(removal_set(d, r, elem_index.0))
                &&& final(self).root_list() == roots_minus(old(self).root_list(), removal_order(d, r, elem_index.0))
            }),
            final(self).spec_root_size() == old(self).spec_root_size(),
        decreases rank,
    {
        let e = elem_index;
        self.deparent(e);
        let ghost m1 = self.nodes();
        let ghost roots0 = self.roots@;
        remove_root(&mut self.roots, e);
        let ghost roots1 = self.roots@;
        let element = ui_arena_get(&self.elements, e.0).unwrap();
        let mut current_child = element.first_child;
        let ghost c0 = current_child;
        let ghost mut done: Seq<u64> = Seq::empty();
        proof {
            assert(self.nodes() =~= m1);
            if let Some(c) = c0 {
                assert(reach(m1, r, c.0).contains(c.0));
            }
        }
        while current_child.is_some()
            invariant
                rank == r(e.0),
                e == elem_index,
                m1.contains_key(e.0),
                children_tree(m1, r, e.0),
                c0 == m1[e.0].first_child,
                forall|k: u64| #[trigger] self.nodes().contains_key(k) <==> (m1.contains_key(k)
                    && !(opt_reach(m1, r, c0).contains(k) && !opt_reach(m1, r, current_child).contains(k))),
                forall|k: u64| self.nodes().contains_key(k) && k != e.0 ==> #[trigger] self.nodes()[k] == m1[k],
                self.nodes().contains_key(e.0),
                current_child matches Some(c) ==> {
                    &&& m1.contains_key(c.0)
                    &&& is_tree(m1, r, c.0, e.0)
                    &&& r(c.0) < r(e.0)
                    &&& opt_reach(m1, r, current_child).subset_of(opt_reach(m1, r, c0))
                    &&& reach(m1, r, c.0).contains(c.0)
                },
                opt_preorder(m1, r, c0) == done + opt_preorder(m1, r, current_child),
                self.roots@ == roots_minus(roots1, done),
                self.root_size == old(self).root_size,
            decreases
                match current_child {
                    Some(c) => r(c.0) + 1,
                    None => 0,
                },
        {
            let child = current_child.unwrap();
            let ghost ms = self.nodes();
            let ghost roots_ms = self.roots@;
            let next = match ui_arena_get(&self.elements, child.0) {
                Some(node) => node.next_sibling,
                None => None,
            };
            let ghost g = m1[child.0].first_child;
            proof {
                assert(ms[child.0] == m1[child.0]);
                assert(next == m1[child.0].next_sibling);
                assert(linked(m1, r, child.0, e.0));
                if let Some(sn) = next {
                    assert(reach(m1, r, sn.0).contains(sn.0));
                    assert(reach(m1, r, child.0).contains(sn.0));
                    assert(is_tree(m1, r, sn.0, e.0));
                    assert(linked(m1, r, sn.0, e.0));
                }
                lemma_deparent_dom(ms, child.0);
                let md = spec_deparent(ms, child.0);
                if let Some(gc) = g {
                    assert forall|k: u64| #[trigger] reach(m1, r, gc.0).contains(k) implies md.contains_key(k) && md[k] == m1[k] by {
                        lemma_reach_rank(m1, r, gc.0, k);
                        assert(reach(m1, r, child.0).contains(k));
                        if let Some(sn) = next {
                            assert(!reach(m1, r, sn.0).contains(k));
                        }
                        lemma_reach_tree(m1, r, child.0, e.0, k);
                        assert(ms.contains_key(k));
                    }
                    lemma_tree_frame(m1, md, r, gc.0, child.0);
                    assert(reach(m1, r, gc.0).contains(gc.0));
                }
            }
            assert(r(child.0) < r(e.0));
            self.remove_below(child, Ghost(r), Ghost(r(child.0)));
            proof {
                let md = spec_deparent(ms, child.0);
                let removed = removal_set(md, r, child.0);
                let order = removal_order(md, r, child.0);
                assert(opt_reach(md, r, g) == opt_reach(m1, r, g));
                assert(opt_preorder(md, r, g) == opt_preorder(m1, r, g));
                if let Some(gc) = g {
                    if reach(m1, r, gc.0).contains(e.0) {
                        lemma_reach_rank(m1, r, gc.0, e.0);
                    }
                }
                assert(reach(m1, r, child.0) == opt_reach(m1, r, g).insert(child.0).union(opt_reach(m1, r, next)));
                assert(preorder(m1, r, child.0) == seq![child.0] + opt_preorder(m1, r, g) + opt_preorder(m1, r, next));
                lemma_roots_minus_concat(roots1, done, order);
                done = done + order;
                assert(opt_preorder(m1, r, c0) =~= done + opt_preorder(m1, r, next));
                if let Some(sn) = next {
                    assert(reach(m1, r, sn.0).contains(sn.0));
                    assert forall|k: u64| reach(m1, r, sn.0).contains(k) implies !removed.contains(k) by {
                        lemma_reach_rank(m1, r, sn.0, k);
                    }
                }
                assert forall|k: u64| self.nodes().contains_key(k) && k != e.0 implies #[trigger] self.nodes()[k] == m1[k] by {
                    if let Some(sn) = next {
                        if k == sn.0 {
                            assert(linked(m1, r, sn.0, e.0));
                            assert(m1[k].prev_sibling is None);
                        }
                    }
                }
            }
            current_child = next;
        }
        proof {
            assert(done + opt_preorder(m1, r, current_child) =~= done);
        }
        let ghost ms = self.nodes();
        let _ = ui_arena_remove(&mut self.elements, e.0);
        proof {
            let d = m1;
            assert(self.nodes() =~= d.remove_keys(removal_set(d, r, e.0)));
            assert(roots_minus(roots0, seq![e.0]) == roots_minus(roots_without(roots0, e), Seq::<u64>::empty())) by {
                assert(seq![e.0].drop_first() =~= Seq::<u64>::empty());
            }
            lemma_roots_minus_concat(roots0, seq![e.0], done);
        }
    }

    /// The element at `index`, if there is one, to change in place.
    pub fn get_element_mut(&mut self, index: UiIndex) -> (r: Option<&mut UiNode>)
        ensures
            match r {
                Some(n) => {
                    &&& old(self).nodes().contains_key(index.0)
                    &&& *n == old(self).nodes()[index.0]
                    &&& final(self).nodes() == old(self).nodes().insert(index.0, *final(n))
                },
                None => !old(self).nodes().contains_key(index.0) && final(self).nodes() == old(self).nodes(),
            },
            final(self).root_list() == old(self).root_list(),
            final(self).spec_root_size() == old(self).spec_root_size(),
    {
        if ui_arena_get(&self.elements, index.0).is_some() {
            Some(ui_arena_get_mut(&mut self.elements, index.0))
        } else {
            None
        }
    }

    /// How many elements the tree holds; `add_element` needs fewer than `u32::MAX`.
    pub fn element_count(&self) -> (r: usize)
        ensures
            r == self.nodes().dom().len(),
    {
        ui_arena_len(&self.elements)
    }

    /// The elements laid out against the root size, in order.
    pub fn roots(&self) -> (r: &[UiIndex])
        ensures
            r@ == self.root_list(),
    {
        self.roots.as_slice()
    }

    /// The size the roots are laid out in.
    pub fn root_size(&self) -> (r: Vec2)
        ensures
            r == self.spec_root_size(),
    {
        self.root_size
    }

    /// Appends to `q` the sibling chain from `first`, following next-sibling
    /// links through the tree.
    fn push_chain(&self, q: &mut Vec<UiIndex>, first: Option<UiIndex>, Ghost(r): Ghost<spec_fn(u64) -> nat>)
        requires
            first matches Some(c) ==> walk_ok(self.nodes(), r, c.0, true),
        ensures
            final(q)@ == old(q)@ + sibling_chain(self.nodes(), r, first),
    {
        let ghost m = self.nodes();
        let mut current = first;
        while current.is_some()
            invariant
                m == self.nodes(),
                q@ + sibling_chain(m, r, current) == old(q)@ + sibling_chain(m, r, first),
                current matches Some(c) ==> walk_ok(m, r, c.0, true),
            decreases opt_rank(r, current),
        {
            let i = current.unwrap();
            let ghost before = q@;
            q.push(i);
            let next = match ui_arena_get(&self.elements, i.0) {
                Some(node) => node.next_sibling,
                None => None,
            };
            proof {
                assert(next == next_of(m, i));
                assert(sibling_chain(m, r, Some(i)) == seq![i] + sibling_chain(m, r, next));
                assert(q@ + sibling_chain(m, r, next) =~= before + sibling_chain(m, r, Some(i)));
            }
            current = next;
        }
        proof {
            assert(q@ + sibling_chain(m, r, current) =~= q@);
        }
    }

    /// The visible elements in the order the layout pass takes them:
    /// breadth first from the roots in order, each element's children in
    /// sibling order, skipping every hidden element and all below it.
    pub fn draw_order(&self) -> (order: Vec<UiIndex>)
        requires
            walkable(self.nodes(), self.root_list()),
        ensures
            order@ == bfs_walk(self.nodes(), walk_rank(self.nodes(), self.root_list()), self.root_list()),
    {
        let ghost m = self.nodes();
        let ghost r = walk_rank(m, self.roots@);
        let mut queue: Vec<UiIndex> = Vec::new();
        let mut k: usize = 0;
        while k < self.roots.len()
            invariant
                k <= self.roots@.len(),
                queue@ == self.roots@.subrange(0, k as int),
            decreases self.roots@.len() - k,
        {
            queue.push(self.roots[k]);
            k += 1;
        }
        proof {
            assert(queue@.subrange(0, queue@.len() as int) =~= self.roots@);
        }
        let mut head: usize = 0;
        let mut order: Vec<UiIndex> = Vec::new();
        while head < queue.len()
            invariant
                m == self.nodes(),
                r == walk_rank(m, self.roots@),
                head <= queue@.len(),
                all_walk_ok(m, r, queue@.subrange(head as int, queue@.len() as int)),
                order@ + bfs_walk(m, r, queue@.subrange(head as int, queue@.len() as int)) == bfs_walk(m, r, self.roots@),
            decreases walk_weight(r, queue@.subrange(head as int, queue@.len() as int)),
        {
            let ghost window = queue@.subrange(head as int, queue@.len() as int);
            let n = queue[head];
            assert(window[0] == n);
            assert(walk_ok(m, r, n.0, false));
            head += 1;
            let node = ui_arena_get(&self.elements, n.0).unwrap();
            let ghost rest = window.drop_first();
            assert(queue@.subrange(head as int, queue@.len() as int) =~= rest);
            proof {
                lemma_weight_concat(r, rest, walk_children(m, r, n));
                lemma_children_weight(m, r, n);
            }
            if node.element.visible() {
                order.push(n);
                let first = node.first_child;
                proof {
                    if let Some(c) = first {
                        assert(walk_children(m, r, n) == sibling_chain(m, r, Some(c)));
                    } else {
                        assert(walk_children(m, r, n) =~= sibling_chain(m, r, first));
                    }
                    lemma_chain_ok(m, r, first);
                }
                let ghost before = queue@;
                self.push_chain(&mut queue, first, Ghost(r));
                proof {
                    assert(queue@.subrange(head as int, queue@.len() as int) =~= rest + walk_children(m, r, n));
                    assert forall|i: int| 0 <= i < (rest + walk_children(m, r, n)).len() implies
                        walk_ok(m, r, (#[trigger] (rest + walk_children(m, r, n))[i]).0, false) by {
                        if i < rest.len() {
                            assert(rest[i] == window[i + 1]);
                        } else {
                            assert((rest + walk_children(m, r, n))[i] == walk_children(m, r, n)[i - rest.len()]);
                        }
                    }
                }
            } else {
                proof {
                    assert(walk_children(m, r, n) =~= Seq::<UiIndex>::empty());
                    assert(rest + walk_children(m, r, n) =~= rest);
                    assert forall|i: int| 0 <= i < rest.len() implies walk_ok(m, r, (#[trigger] rest[i]).0, false) by {
                        assert(rest[i] == window[i + 1]);
                    }
                }
            }
        }
        proof {
            assert(queue@.subrange(head as int, queue@.len() as int) =~= Seq::<UiIndex>::empty());
            assert(order@ + Seq::<UiIndex>::empty() =~= order@);
        }
        order
    }

    /// The visible elements in the order the input pass takes them: depth
    /// first from a stack holding the roots, the top taken first and each
    /// visible element's children pushed in sibling order, skipping every
    /// hidden element and all below it.
    pub fn input_order(&self) -> (order: Vec<UiIndex>)
        requires
            walkable(self.nodes(), self.root_list()),
        ensures
            order@ == dfs_walk(self.nodes(), walk_rank(self.nodes(), self.root_list()), self.root_list()),
    {
        let ghost m = self.nodes();
        let ghost r = walk_rank(m, self.roots@);
        let mut stack: Vec<UiIndex> = Vec::new();
        let mut k: usize = 0;
        while k < self.roots.len()
            invariant
                k <= self.roots@.len(),
                stack@ == self.roots@.subrange(0, k as int),
            decreases self.roots@.len() - k,
        {
            stack.push(self.roots[k]);
            k += 1;
        }
        proof {
            assert(stack@ =~= self.roots@);
        }
        let mut order: Vec<UiIndex> = Vec::new();
        while stack.len() > 0
            invariant
                m == self.nodes(),
                r == walk_rank(m, self.roots@),
                all_walk_ok(m, r, stack@),
                order@ + dfs_walk(m, r, stack@) == dfs_walk(m, r, self.roots@),
            decreases walk_weight(r, stack@),
        {
            let ghost s0 = stack@;
            let n = stack.pop().unwrap();
            let ghost rest = stack@;
            assert(rest =~= s0.drop_last());
            assert(n == s0.last());
            assert(walk_ok(m, r, s0[s0.len() - 1].0, false));
            let node = ui_arena_get(&self.elements, n.0).unwrap();
            proof {
                lemma_weight_last(r, s0);
                lemma_weight_concat(r, rest, walk_children(m, r, n));
                lemma_children_weight(m, r, n);
            }
            if node.element.visible() {
                order.push(n);
                let first = node.first_child;
                proof {
                    if let Some(c) = first {
                        assert(walk_children(m, r, n) == sibling_chain(m, r, Some(c)));
                    } else {
                        assert(walk_children(m, r, n) =~= sibling_chain(m, r, first));
                    }
                    lemma_chain_ok(m, r, first);
                }
                self.push_chain(&mut stack, first, Ghost(r));
                proof {
                    assert(stack@ == rest + walk_children(m, r, n));
                    assert forall|i: int| 0 <= i < stack@.len() implies walk_ok(m, r, (#[trigger] stack@[i]).0, false) by {
                        if i < rest.len() {
                            assert(rest[i] == s0[i]);
                        } else {
                            assert(stack@[i] == walk_children(m, r, n)[i - rest.len()]);
                        }
                    }
                }
            } else {
                proof {
                    assert(walk_children(m, r, n) =~= Seq::<UiIndex>::empty());
                    assert(rest + walk_children(m, r, n) =~= rest);
                    assert forall|i: int| 0 <= i < rest.len() implies walk_ok(m, r, (#[trigger] rest[i]).0, false) by {
                        assert(rest[i] == s0[i]);
                    }
                }
            }
        }
        proof {
            assert(order@ + Seq::<UiIndex>::empty() =~= order@);
        }
        order
    }

    /// The element at `index`, if there is one.
    pub fn get_element(&self, index: UiIndex) -> (r: Option<&UiNode>)
        ensures
            match r {
                Some(n) => self.nodes().contains_key(index.0) && *n == self.nodes()[index.0],
                None => !self.nodes().contains_key(index.0),
            },
    {
        ui_arena_get(&self.elements, index.0)
    }
}

} // verus!
