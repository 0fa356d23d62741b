use vstd::prelude::*;

use crate::font::{FontHandle, FontManagerError, GlyphBitmap, GlyphRenderMode};
use crate::shapes::{Point2u, Rect, Region2d};

verus! {

/// Free bins no longer than this in either direction are dropped.
pub const MIN_BIN_LENGTH: u32 = 8;

/// Where a glyph was placed in the atlas; `is_empty` glyphs have no pixels.
#[derive(PartialEq, Eq, Debug, Clone, Copy, Structural)]
pub struct GlyphAtlasRect {
    pub rect: Rect,
    pub is_empty: bool,
}

/// A glyph of a font at a pixel height.
#[derive(Debug, Hash, PartialEq, Eq, Clone, Copy, Structural)]
pub struct GlyphAtlasKey {
    pub font_handle: FontHandle,
    pub glyph: u64,
    pub font_height: u32,
}

impl GlyphAtlasKey {
    pub open spec fn spec_new(font_handle: FontHandle, glyph: u64, font_height: u32) -> Self {
        GlyphAtlasKey { font_handle, glyph, font_height }
    }

    fn new(font_handle: FontHandle, glyph: u64, font_height: u32) -> (r: Self)
        ensures
            r == Self::spec_new(font_handle, glyph, font_height),
    {
        Self { font_handle, glyph, font_height }
    }
}

/// Errors of glyph insertion.
#[derive(Debug)]
#[non_exhaustive]
pub enum GlyphAtlasError {
    FontManager(FontManagerError),
    NoGlyphIndex(u64),
    NoBinFit,
}

/// The map that an association list stands for; later entries win.
pub open spec fn entries_map(s: Seq<(GlyphAtlasKey, GlyphAtlasRect)>) -> Map<
    GlyphAtlasKey,
    GlyphAtlasRect,
>
    decreases s.len(),
{
    if s.len() == 0 {
        Map::empty()
    } else {
        entries_map(s.drop_last()).insert(s.last().0, s.last().1)
    }
}

/// No key occurs twice.
pub open spec fn unique_keys(s: Seq<(GlyphAtlasKey, GlyphAtlasRect)>) -> bool {
    forall|i: int, j: int| 0 <= i < s.len() && 0 <= j < s.len() && i != j ==> s[i].0 != s[j].0
}

proof fn lemma_entries_map(s: Seq<(GlyphAtlasKey, GlyphAtlasRect)>)
    requires
        unique_keys(s),
    ensures
        forall|k: GlyphAtlasKey|
            entries_map(s).contains_key(k) <==> exists|i: int| 0 <= i < s.len() && s[i].0 == k,
        forall|i: int| 0 <= i < s.len() ==> #[trigger] entries_map(s)[s[i].0] == s[i].1,
        forall|i: int| 0 <= i < s.len() ==> entries_map(s).contains_key(#[trigger] s[i].0),
    decreases s.len(),
{
    if s.len() > 0 {
        let t = s.drop_last();
        assert(unique_keys(t));
        lemma_entries_map(t);
        assert(entries_map(s) == entries_map(t).insert(s.last().0, s.last().1));
        assert forall|k: GlyphAtlasKey|
            entries_map(s).contains_key(k) <==> exists|i: int| 0 <= i < s.len() && s[i].0 == k by {
            if entries_map(s).contains_key(k) {
                if k == s.last().0 {
                    assert(s[s.len() - 1].0 == k);
                } else {
                    assert(entries_map(t).contains_key(k));
                    let i = choose|i: int| 0 <= i < t.len() && t[i].0 == k;
                    assert(t[i] == s[i]);
                    assert(s[i].0 == k);
                }
            }
            if exists|i: int| 0 <= i < s.len() && s[i].0 == k {
                let i = choose|i: int| 0 <= i < s.len() && s[i].0 == k;
                if i < s.len() - 1 {
                    assert(t[i] == s[i]);
                    assert(t[i].0 == k);
                    assert(entries_map(t).contains_key(k));
                }
            }
        }
        assert forall|i: int| 0 <= i < s.len() implies #[trigger] entries_map(s)[s[i].0]
            == s[i].1 by {
            if i < s.len() - 1 {
                assert(t[i] == s[i]);
                assert(s[i].0 != s.last().0);
                assert(entries_map(t)[t[i].0] == t[i].1);
            }
        }
    }
}

/// A texture holding rasterised glyphs, packed into free rectangles ("bins").
pub struct GlyphAtlas {
    pub bitmap: Vec<u8>,
    pub width: u32,
    pub height: u32,
    pub bins: Vec<Rect>,
    pub glyphs: Vec<(GlyphAtlasKey, GlyphAtlasRect)>,
    pub render_mode: GlyphRenderMode,
    pub dirty_region: Option<Region2d>,
}

/// `r` lies inside a `width` x `height` image.
pub open spec fn within(r: Rect, width: int, height: int) -> bool {
    r.right() <= width && r.bottom() <= height
}

/// A `width` x `height` glyph fits into `bin`.
pub open spec fn bin_fits(bin: Rect, width: int, height: int) -> bool {
    bin.width >= width && bin.height >= height
}

/// The room that would be left over in `bin`; smaller is better.
pub open spec fn bin_rating(bin: Rect, width: int, height: int) -> int {
    (bin.width - width) + (bin.height - height)
}

/// The ratings of `bins` can be computed in `i32`.
pub open spec fn ratings_in_range(bins: Seq<Rect>, width: u32, height: u32) -> bool {
    &&& width <= i32::MAX
    &&& height <= i32::MAX
    &&& forall|i: int| 0 <= i < bins.len() ==> {
        &&& (#[trigger] bins[i]).width <= i32::MAX
        &&& bins[i].height <= i32::MAX
        &&& bin_fits(bins[i], width as int, height as int) ==> bin_rating(bins[i], width as int, height as int) <= i32::MAX
    }
}

/// `i` is the first of the bins with the smallest rating among those that fit.
pub open spec fn is_best_bin(bins: Seq<Rect>, width: int, height: int, i: int) -> bool {
    &&& 0 <= i < bins.len()
    &&& bin_fits(bins[i], width, height)
    &&& forall|j: int| 0 <= j < bins.len() && bin_fits(#[trigger] bins[j], width, height) ==> {
        &&& bin_rating(bins[i], width, height) <= bin_rating(bins[j], width, height)
        &&& j < i ==> bin_rating(bins[i], width, height) < bin_rating(bins[j], width, height)
    }
}

/// What `choose_bin` answers: the best bin, or none when no bin fits.
pub open spec fn best_bin(bins: Seq<Rect>, width: int, height: int, r: Option<usize>) -> bool {
    match r {
        Some(i) => is_best_bin(bins, width, height, i as int),
        None => forall|j: int| 0 <= j < bins.len() ==> !bin_fits(#[trigger] bins[j], width, height),
    }
}

/// Every rectangle's far corner fits in `u32`.
pub open spec fn all_fit(bins: Seq<Rect>) -> bool {
    forall|i: int| 0 <= i < bins.len() ==> (#[trigger] bins[i]).fits_u32()
}

/// `r` is one of `rects`.
pub open spec fn occurs_in(rects: Seq<Rect>, r: Rect) -> bool {
    exists|j: int| 0 <= j < rects.len() && rects[j] == r
}

/// `r` lies inside one of `rects`.
pub open spec fn covered_by(rects: Seq<Rect>, r: Rect) -> bool {
    exists|i: int| 0 <= i < rects.len() && rects[i].spec_contains(r)
}

/// `new` is what pruning `old` may leave: bins of `old` only, every bin of
/// `old` still covered by a kept bin, and no kept bin inside another.
pub open spec fn pruned(old: Seq<Rect>, new: Seq<Rect>) -> bool {
    &&& new.len() <= old.len()
    &&& forall|i: int| 0 <= i < new.len() ==> occurs_in(old, #[trigger] new[i])
    &&& forall|j: int| 0 <= j < old.len() ==> covered_by(new, #[trigger] old[j])
    &&& forall|i: int, k: int| 0 <= i < new.len() && 0 <= k < new.len() && i != k ==> !(#[trigger] new[i]).spec_contains(#[trigger] new[k])
}

/// The marks after bin `i` has been compared with the bins before `j`, in
/// order: each unmarked bin other than `i` that bin `i` contains gets marked.
pub open spec fn mark_inside(b: Seq<Rect>, m: Seq<bool>, i: int, j: int) -> Seq<bool>
    decreases j,
{
    if j <= 0 {
        m
    } else {
        let p = mark_inside(b, m, i, j - 1);
        let c = j - 1;
        if c != i && !p[c] && b[i].spec_contains(b[c]) {
            p.update(c, true)
        } else {
            p
        }
    }
}

/// The marks once the bins before `i` have each, unless marked already,
/// marked every unmarked bin they contain.
pub open spec fn prune_marks_upto(b: Seq<Rect>, i: int) -> Seq<bool>
    decreases i,
{
    if i <= 0 {
        Seq::new(b.len(), |k: int| false)
    } else {
        let m = prune_marks_upto(b, i - 1);
        if m[i - 1] {
            m
        } else {
            mark_inside(b, m, i - 1, b.len() as int)
        }
    }
}

/// The first `n` bins of `b` that `m` leaves unmarked, in their order.
pub open spec fn unmarked(b: Seq<Rect>, m: Seq<bool>, n: int) -> Seq<Rect>
    decreases n,
{
    if n <= 0 {
        Seq::empty()
    } else if m[n - 1] {
        unmarked(b, m, n - 1)
    } else {
        unmarked(b, m, n - 1).push(b[n - 1])
    }
}

/// The bins pruning keeps of `b`, in their order: going through the bins in
/// order, each bin not yet dropped drops every bin it contains.
pub open spec fn prune_result(b: Seq<Rect>) -> Seq<Rect> {
    unmarked(b, prune_marks_upto(b, b.len() as int), b.len() as int)
}

proof fn lemma_mark_inside_len(b: Seq<Rect>, m: Seq<bool>, i: int, j: int)
    requires
        m.len() == b.len(),
        j <= b.len(),
    ensures
        mark_inside(b, m, i, j).len() == b.len(),
    decreases j,
{
    if j > 0 {
        lemma_mark_inside_len(b, m, i, j - 1);
    }
}

proof fn lemma_prune_marks_len(b: Seq<Rect>, i: int)
    requires
        i <= b.len(),
    ensures
        prune_marks_upto(b, i).len() == b.len(),
    decreases i,
{
    if i > 0 {
        lemma_prune_marks_len(b, i - 1);
        lemma_mark_inside_len(b, prune_marks_upto(b, i - 1), i - 1, b.len() as int);
    }
}

/// A free bin worth keeping: longer than `MIN_BIN_LENGTH` both ways.
pub open spec fn big_enough(r: Rect) -> bool {
    r.width > MIN_BIN_LENGTH && r.height > MIN_BIN_LENGTH
}

/// `r` when it is worth keeping, else nothing.
pub open spec fn piece(r: Rect) -> Seq<Rect> {
    if big_enough(r) {
        seq![r]
    } else {
        Seq::empty()
    }
}

/// `a - b`, or 0 when that is negative.
pub open spec fn sat_sub(a: int, b: int) -> int {
    if a >= b {
        a - b
    } else {
        0
    }
}

/// The part of `bin` right of `r`'s right edge.
pub open spec fn right_of(bin: Rect, r: Rect) -> Rect {
    Rect { x: r.right() as u32, y: bin.y, width: sat_sub(bin.right(), r.right()) as u32, height: bin.height }
}

/// The part of `bin` below `r`'s bottom edge.
pub open spec fn below(bin: Rect, r: Rect) -> Rect {
    Rect { x: bin.x, y: r.bottom() as u32, width: bin.width, height: sat_sub(bin.bottom(), r.bottom()) as u32 }
}

/// The part of `bin` left of `r`'s left edge.
pub open spec fn left_of(bin: Rect, r: Rect) -> Rect {
    Rect { x: bin.x, y: bin.y, width: sat_sub(r.x as int, bin.x as int) as u32, height: bin.height }
}

/// The part of `bin` above `r`'s top edge.
pub open spec fn above(bin: Rect, r: Rect) -> Rect {
    Rect { x: bin.x, y: bin.y, width: bin.width, height: sat_sub(r.y as int, bin.y as int) as u32 }
}

/// What is left of `bin` once `r` is taken: `bin` itself when they do not
/// touch, else its parts right of, below, left of and above `r` that are worth keeping.
pub open spec fn split_bin(bin: Rect, r: Rect) -> Seq<Rect> {
    if !bin.spec_intersects(r) {
        seq![bin]
    } else {
        piece(right_of(bin, r)) + piece(below(bin, r)) + piece(left_of(bin, r)) + piece(above(bin, r))
    }
}

/// `split_bin` applied to each bin in turn.
pub open spec fn split_bins(bins: Seq<Rect>, r: Rect) -> Seq<Rect>
    decreases bins.len(),
{
    if bins.len() == 0 {
        Seq::empty()
    } else {
        split_bins(bins.drop_last(), r) + split_bin(bins.last(), r)
    }
}

/// `bins` without its `i`-th element, the last one moved into its place.
pub open spec fn swap_removed(bins: Seq<Rect>, i: int) -> Seq<Rect> {
    bins.update(i, bins.last()).drop_last()
}

/// The bins once `r` has been carved out of `bins[i]` (before pruning): the
/// parts of `bins[i]` right of and below `r`, then every other bin split around `r`.
pub open spec fn carved(bins: Seq<Rect>, i: int, r: Rect) -> Seq<Rect> {
    piece(right_of(bins[i], r)) + piece(below(bins[i], r)) + split_bins(swap_removed(bins, i), r)
}

/// Replaces `bins` by `carved(bins, bin_index, rect)`.
fn carve_bins(bins: &mut Vec<Rect>, bin_index: usize, rect: Rect)
    requires
        bin_index < old(bins)@.len(),
        all_fit(old(bins)@),
        rect.fits_u32(),
    ensures
        final(bins)@ == carved(old(bins)@, bin_index as int, rect),
        all_fit(final(bins)@),
{
    let bin = bins[bin_index];
    let bin_right = Rect {
        x: rect.x + rect.width,
        y: bin.y,
        width: (bin.x + bin.width).saturating_sub(rect.x + rect.width),
        height: bin.height,
    };
    let bin_down = Rect {
        x: bin.x,
        y: rect.y + rect.height,
        width: bin.width,
        height: (bin.y + bin.height).saturating_sub(rect.y + rect.height),
    };
    assert(bin_right == right_of(bin, rect));
    assert(bin_down == below(bin, rect));
    let ghost b0 = bins@;
    bins.swap_remove(bin_index);
    let ghost b1 = bins@;
    assert(b1 == swap_removed(b0, bin_index as int));
    assert(all_fit(b1)) by {
        assert forall|k: int| 0 <= k < b1.len() implies (#[trigger] b1[k]).fits_u32() by {
            if k == bin_index {
                assert(b1[k] == b0[b0.len() - 1]);
            } else {
                assert(b1[k] == b0[k]);
            }
        }
    }
    let initial_len = bins.len();
    if bin_right.width > MIN_BIN_LENGTH && bin_right.height > MIN_BIN_LENGTH {
        bins.push(bin_right);
    }
    if bin_down.width > MIN_BIN_LENGTH && bin_down.height > MIN_BIN_LENGTH {
        bins.push(bin_down);
    }
    let ghost head = piece(bin_right) + piece(bin_down);
    assert(bins@ =~= b1 + head);
    let ghost pre = bins@;
    split_into(bins, initial_len, rect);
    assert(pre.take(initial_len as int) =~= b1);
    let ghost produced = head + split_bins(b1, rect);
    assert(bins@ =~= b1 + produced);
    keep_tail(bins, initial_len);
    assert(bins@ =~= produced);
    assert(all_fit(produced)) by {
        let sp = split_bins(b1, rect);
        assert forall|k: int| 0 <= k < produced.len() implies (#[trigger] produced[k]).fits_u32() by {
            if k < head.len() {
                assert(produced[k] == head[k]);
            } else {
                assert(produced[k] == sp[k - head.len()]);
            }
        }
    }
}

/// Appends `split_bins` of the first `n` bins around `r`.
fn split_into(bins: &mut Vec<Rect>, n: usize, r: Rect)
    requires
        n <= old(bins)@.len(),
        all_fit(old(bins)@),
        r.fits_u32(),
    ensures
        final(bins)@ == old(bins)@ + split_bins(old(bins)@.take(n as int), r),
        all_fit(split_bins(old(bins)@.take(n as int), r)),
{
    let ghost start = bins@;
    let ghost b1 = start.take(n as int);
    assert(b1.take(0) =~= Seq::<Rect>::empty());
    assert(split_bins(b1.take(0), r) =~= Seq::<Rect>::empty());
    assert(bins@ =~= start + split_bins(b1.take(0), r));
    for i in 0..n
        invariant
            n <= start.len(),
            b1 == start.take(n as int),
            all_fit(start),
            r.fits_u32(),
            bins@ == start + split_bins(b1.take(i as int), r),
            all_fit(split_bins(b1.take(i as int), r)),
    {
        let bin = bins[i];
        assert(bin == b1[i as int]);
        let ghost sofar = split_bins(b1.take(i as int), r);
        assert(b1.take(i + 1).drop_last() =~= b1.take(i as int));
        assert(split_bins(b1.take(i + 1), r) == sofar + split_bin(bin, r));
        push_split(bins, bin, r);
        assert(bins@ =~= start + (sofar + split_bin(bin, r)));
        assert(all_fit(split_bins(b1.take(i + 1), r))) by {
            let nx = split_bins(b1.take(i + 1), r);
            assert forall|k: int| 0 <= k < nx.len() implies (#[trigger] nx[k]).fits_u32() by {
                if k < sofar.len() {
                    assert(nx[k] == sofar[k]);
                }
            }
        }
    }
    assert(b1.take(n as int) =~= b1);
}

/// Appends `split_bin(bin, r)`.
fn push_split(bins: &mut Vec<Rect>, bin: Rect, r: Rect)
    requires
        bin.fits_u32(),
        r.fits_u32(),
    ensures
        final(bins)@ == old(bins)@ + split_bin(bin, r),
        all_fit(split_bin(bin, r)),
{
    let ghost start = bins@;
    if !bin.intersects(&r) {
        bins.push(bin);
    } else {
        let left = Rect { x: bin.x, y: bin.y, width: r.x.saturating_sub(bin.x), height: bin.height };
        let up = Rect { x: bin.x, y: bin.y, width: bin.width, height: r.y.saturating_sub(bin.y) };
        let right = Rect {
            x: r.x + r.width,
            y: bin.y,
            width: (bin.x + bin.width).saturating_sub(r.x + r.width),
            height: bin.height,
        };
        let down = Rect {
            x: bin.x,
            y: r.y + r.height,
            width: bin.width,
            height: (bin.y + bin.height).saturating_sub(r.y + r.height),
        };
        assert(right == right_of(bin, r));
        assert(down == below(bin, r));
        assert(left == left_of(bin, r));
        assert(up == above(bin, r));
        if right.width > MIN_BIN_LENGTH && right.height > MIN_BIN_LENGTH {
            bins.push(right);
        }
        if down.width > MIN_BIN_LENGTH && down.height > MIN_BIN_LENGTH {
            bins.push(down);
        }
        if left.width > MIN_BIN_LENGTH && left.height > MIN_BIN_LENGTH {
            bins.push(left);
        }
        if up.width > MIN_BIN_LENGTH && up.height > MIN_BIN_LENGTH {
            bins.push(up);
        }
    }
    assert(bins@ =~= start + split_bin(bin, r));
}

/// Drops the first `start` elements, moving the rest to the front.
fn keep_tail(bins: &mut Vec<Rect>, start: usize)
    requires
        start <= old(bins)@.len(),
    ensures
        final(bins)@ == old(bins)@.skip(start as int),
{
    let ghost full = bins@;
    let new_len = bins.len();
    let new_size = new_len - start;
    for i in 0..new_size
        invariant
            new_size == new_len - start,
            new_len == full.len(),
            start <= new_len,
            bins@.len() == new_len,
            forall|k: int| 0 <= k < i ==> bins@[k] == full[start + k],
            forall|k: int| i <= k < new_len ==> bins@[k] == full[k],
    {
        let moved = bins[start + i];
        bins.set(i, moved);
    }
    bins.truncate(new_size);
    assert(bins@ =~= full.skip(start as int));
}

/// `e` lies inside one of `bins`.
pub open spec fn inside_some(bins: Seq<Rect>, e: Rect) -> bool {
    exists|j: int| 0 <= j < bins.len() && bins[j].spec_contains(e)
}

/// Every bin that splitting `bins` around `r` leaves lies inside one of `bins`
/// and shares no pixel with `r`.
proof fn lemma_split_bins(bins: Seq<Rect>, r: Rect)
    requires
        all_fit(bins),
        r.fits_u32(),
    ensures
        forall|k: int| 0 <= k < split_bins(bins, r).len() ==> {
            &&& inside_some(bins, #[trigger] split_bins(bins, r)[k])
            &&& !split_bins(bins, r)[k].overlaps(r)
        },
    decreases bins.len(),
{
    if bins.len() > 0 {
        let t = bins.drop_last();
        assert(all_fit(t)) by {
            assert forall|k: int| 0 <= k < t.len() implies (#[trigger] t[k]).fits_u32() by {
                assert(t[k] == bins[k]);
            }
        }
        lemma_split_bins(t, r);
        let s = split_bins(bins, r);
        let pre = split_bins(t, r);
        let last = bins.last();
        assert(last == bins[bins.len() - 1]);
        assert(last.fits_u32());
        assert forall|k: int| 0 <= k < s.len() implies {
            &&& inside_some(bins, #[trigger] s[k])
            &&& !s[k].overlaps(r)
        } by {
            if k < pre.len() {
                assert(s[k] == pre[k]);
                let j = choose|j: int| 0 <= j < t.len() && t[j].spec_contains(pre[k]);
                assert(bins[j] == t[j]);
            } else {
                let e = s[k];
                assert(e == split_bin(last, r)[k - pre.len()]);
                assert(last.spec_contains(e));
                assert(bins[bins.len() - 1].spec_contains(e));
            }
        }
    }
}

/// `r` is placed at the top-left corner of `bin` and fits inside it.
pub open spec fn hosts(bin: Rect, r: Rect) -> bool {
    r.x == bin.x && r.y == bin.y && r.width <= bin.width && r.height <= bin.height
}

/// Every bin left by carving `r` out of `bins[i]` lies inside one of `bins`
/// and shares no pixel with `r`.
proof fn lemma_carved(bins: Seq<Rect>, i: int, r: Rect)
    requires
        0 <= i < bins.len(),
        all_fit(bins),
        r.fits_u32(),
        hosts(bins[i], r),
    ensures
        forall|k: int| 0 <= k < carved(bins, i, r).len() ==> {
            &&& inside_some(bins, #[trigger] carved(bins, i, r)[k])
            &&& !carved(bins, i, r)[k].overlaps(r)
        },
{
    let b1 = swap_removed(bins, i);
    assert(all_fit(b1)) by {
        assert forall|k: int| 0 <= k < b1.len() implies (#[trigger] b1[k]).fits_u32() by {
            if k == i {
                assert(b1[k] == bins[bins.len() - 1]);
            } else {
                assert(b1[k] == bins[k]);
            }
        }
    }
    lemma_split_bins(b1, r);
    let head = piece(right_of(bins[i], r)) + piece(below(bins[i], r));
    let c = carved(bins, i, r);
    let sp = split_bins(b1, r);
    assert forall|k: int| 0 <= k < c.len() implies {
        &&& inside_some(bins, #[trigger] c[k])
        &&& !c[k].overlaps(r)
    } by {
        if k < head.len() {
            assert(c[k] == head[k]);
            assert(bins[i].spec_contains(c[k]));
        } else {
            assert(c[k] == sp[k - head.len()]);
            let j = choose|j: int| 0 <= j < b1.len() && b1[j].spec_contains(sp[k - head.len()]);
            if j == i {
                assert(bins[bins.len() - 1].spec_contains(c[k]));
            } else {
                assert(bins[j].spec_contains(c[k]));
            }
        }
    }
}

/// The position of pixel (`px`, `py`) in a row-major image `width` pixels wide.
pub open spec fn pix(width: int, px: int, py: int) -> int {
    px + py * width
}

/// Pixel (`px`, `py`) lies in `g`.
pub open spec fn in_rect(g: Rect, px: int, py: int) -> bool {
    g.x <= px < g.right() && g.y <= py < g.bottom()
}

/// The pixel of `buf` (a row-major `g.width`-wide image) that lands on (`px`, `py`).
pub open spec fn glyph_pixel(g: Rect, buf: Seq<u8>, px: int, py: int) -> u8 {
    buf[pix(g.width as int, px - g.x, py - g.y)]
}

/// `new` is `old` (a `width` x `height` image) with the pixels of `g` copied
/// from `buf`; no other pixel changed.
pub open spec fn blitted(old: Seq<u8>, new: Seq<u8>, width: int, height: int, g: Rect, buf: Seq<u8>) -> bool {
    &&& new.len() == old.len()
    &&& forall|px: int, py: int| 0 <= px < width && 0 <= py < height ==> #[trigger] new[pix(width, px, py)]
        == if in_rect(g, px, py) { glyph_pixel(g, buf, px, py) } else { old[pix(width, px, py)] }
}

/// Like `blitted`, for the rows of `g` above `rows` and the first `cols`
/// pixels of row `rows`.
spec fn blit_progress(old: Seq<u8>, new: Seq<u8>, width: int, height: int, g: Rect, buf: Seq<u8>, rows: int, cols: int) -> bool {
    &&& new.len() == old.len()
    &&& forall|px: int, py: int| 0 <= px < width && 0 <= py < height ==> #[trigger] new[pix(width, px, py)]
        == if in_rect(g, px, py) && (py < g.y + rows || (py == g.y + rows && px < g.x + cols)) {
            glyph_pixel(g, buf, px, py)
        } else {
            old[pix(width, px, py)]
        }
}

pub(crate) proof fn lemma_pix_bound(w: int, h: int, px: int, py: int)
    requires
        0 <= px < w,
        0 <= py < h,
    ensures
        0 <= px + py * w < w * h,
{
    assert(0 <= px + py * w < w * h) by (nonlinear_arith)
        requires
            0 <= px < w,
            0 <= py < h,
    ;
}

pub(crate) proof fn lemma_pix_injective(w: int, px1: int, py1: int, px2: int, py2: int)
    requires
        0 <= px1 < w,
        0 <= px2 < w,
        0 <= py1,
        0 <= py2,
        px1 + py1 * w == px2 + py2 * w,
    ensures
        px1 == px2,
        py1 == py2,
{
    assert(py1 == py2) by (nonlinear_arith)
        requires
            0 <= px1 < w,
            0 <= px2 < w,
            0 <= py1,
            0 <= py2,
            px1 + py1 * w == px2 + py2 * w,
    {
        if py1 < py2 {
            assert(py1 * w + w <= py2 * w);
        } else if py2 < py1 {
            assert(py2 * w + w <= py1 * w);
        }
    }
}

pub(crate) proof fn lemma_mul_le(a: int, b: int, c: int, d: int)
    requires
        0 <= a <= c,
        0 <= b <= d,
    ensures
        a * b <= c * d,
{
    assert(a * b <= c * d) by (nonlinear_arith)
        requires
            0 <= a <= c,
            0 <= b <= d,
    ;
}

/// Copies the row-major `g.width`-wide image `buf` onto rectangle `g` of `bitmap`.
fn blit_glyph(bitmap: &mut Vec<u8>, width: u32, height: u32, g: Rect, buf: &[u8])
    requires
        old(bitmap)@.len() == width * height,
        width * height <= u32::MAX,
        within(g, width as int, height as int),
        buf@.len() >= g.width * g.height,
    ensures
        blitted(old(bitmap)@, final(bitmap)@, width as int, height as int, g, buf@),
{
    let ghost start = bitmap@;
    let ghost w = width as int;
    let ghost h = height as int;
    proof {
        lemma_mul_le(g.width as int, g.height as int, w, h);
    }
    for y in 0..g.height
        invariant
            start.len() == w * h,
            w == width,
            h == height,
            w * h <= u32::MAX,
            within(g, w, h),
            buf@.len() >= g.width * g.height,
            g.width * g.height <= w * h,
            blit_progress(start, bitmap@, w, h, g, buf@, y as int, 0),
    {
        for x in 0..g.width
            invariant
                start.len() == w * h,
                w == width,
                h == height,
                w * h <= u32::MAX,
                within(g, w, h),
                buf@.len() >= g.width * g.height,
                g.width * g.height <= w * h,
                y < g.height,
                blit_progress(start, bitmap@, w, h, g, buf@, y as int, x as int),
        {
            proof {
                lemma_pix_bound(g.width as int, g.height as int, x as int, y as int);
                lemma_pix_bound(w, h, g.x + x, g.y + y);
            }
            let buffer_offset = (x + y * g.width) as usize;
            let bitmap_offset = (g.x + x + (g.y + y) * width) as usize;
            let ghost before = bitmap@;
            bitmap.set(bitmap_offset, buf[buffer_offset]);
            proof {
                let tx = g.x + x;
                let ty = g.y + y;
                assert forall|px: int, py: int| 0 <= px < w && 0 <= py < h implies #[trigger] bitmap@[pix(w, px, py)]
                    == if in_rect(g, px, py) && (py < g.y + y || (py == g.y + y && px < g.x + (x + 1))) {
                        glyph_pixel(g, buf@, px, py)
                    } else {
                        start[pix(w, px, py)]
                    } by {
                    lemma_pix_bound(w, h, px, py);
                    if px == tx && py == ty {
                        assert(pix(w, px, py) == bitmap_offset);
                    } else {
                        if pix(w, px, py) == bitmap_offset as int {
                            lemma_pix_injective(w, px, py, tx, ty);
                        }
                        assert(bitmap@[pix(w, px, py)] == before[pix(w, px, py)]);
                    }
                }
            }
        }
        proof {
            assert forall|px: int, py: int| 0 <= px < w && 0 <= py < h implies #[trigger] bitmap@[pix(w, px, py)]
                == if in_rect(g, px, py) && (py < g.y + (y + 1) || (py == g.y + (y + 1) && px < g.x + 0)) {
                    glyph_pixel(g, buf@, px, py)
                } else {
                    start[pix(w, px, py)]
                } by {
                assert(bitmap@[pix(w, px, py)] == if in_rect(g, px, py) && (py < g.y + y || (py == g.y + y && px < g.x + g.width)) {
                    glyph_pixel(g, buf@, px, py)
                } else {
                    start[pix(w, px, py)]
                });
            }
        }
    }
}

/// The entry recorded for a glyph without pixels.
pub open spec fn empty_glyph() -> GlyphAtlasRect {
    GlyphAtlasRect { rect: Rect { x: 0, y: 0, width: 0, height: 0 }, is_empty: true }
}

/// What the atlas holds for `key`, or an empty glyph.
pub open spec fn glyph_or_empty(m: Map<GlyphAtlasKey, GlyphAtlasRect>, key: GlyphAtlasKey) -> GlyphAtlasRect {
    if m.contains_key(key) {
        m[key]
    } else {
        empty_glyph()
    }
}

/// The rectangle a `width` x `height` glyph takes in bin `bins[i]`: its top-left corner.
pub open spec fn placed_in(bins: Seq<Rect>, i: int, width: u32, height: u32) -> Rect {
    Rect { x: bins[i].x, y: bins[i].y, width, height }
}

/// The smaller of `a` and `b`.
pub open spec fn min_u32(a: u32, b: u32) -> u32 {
    if a <= b { a } else { b }
}

/// The larger of `a` and `b`.
pub open spec fn max_u32(a: u32, b: u32) -> u32 {
    if a >= b { a } else { b }
}

/// The dirty region grown to cover `g`.
pub open spec fn grown(d: Option<Region2d>, g: Rect) -> Region2d {
    match d {
        Some(r) => Region2d {
            top_left: Point2u { x: min_u32(r.top_left.x, g.x), y: min_u32(r.top_left.y, g.y) },
            bottom_right: Point2u {
                x: max_u32(r.bottom_right.x, g.right() as u32),
                y: max_u32(r.bottom_right.y, g.bottom() as u32),
            },
        },
        None => Region2d {
            top_left: Point2u { x: g.x, y: g.y },
            bottom_right: Point2u { x: g.right() as u32, y: g.bottom() as u32 },
        },
    }
}

/// `new` is `old` after a bitmap of `bm_width` x `bm_rows` pixels `buf` was
/// placed for `key` in bin `i`: the glyph is recorded at the bin's corner,
/// its pixels copied there, the free bins are what pruning keeps (in order)
/// of the bins carved around it, and the dirty region grows to cover it.
pub open spec fn glyph_placed(old: GlyphAtlas, new: GlyphAtlas, key: GlyphAtlasKey, i: int, bm_width: u32, bm_rows: u32, buf: Seq<u8>) -> bool {
    let g = placed_in(old.bins@, i, bm_width, bm_rows);
    &&& new.glyph_map() == old.glyph_map().insert(key, GlyphAtlasRect { rect: g, is_empty: false })
    &&& blitted(old.bitmap@, new.bitmap@, old.width as int, old.height as int, g, buf)
    &&& new.bins@ == prune_result(carved(old.bins@, i, g))
    &&& pruned(carved(old.bins@, i, g), new.bins@)
    &&& new.dirty_region == Some(grown(old.dirty_region, g))
}

impl GlyphAtlas {
    /// The glyphs placed so far, by key.
    pub open spec fn glyph_map(&self) -> Map<GlyphAtlasKey, GlyphAtlasRect> {
        entries_map(self.glyphs@)
    }

    /// The invariant every operation keeps.
    pub open spec fn wf(&self) -> bool {
        &&& self.width * self.height <= u32::MAX
        &&& self.bitmap@.len() == self.width * self.height
        &&& forall|i: int| 0 <= i < self.bins@.len() ==> within(#[trigger] self.bins@[i], self.width as int, self.height as int)
        &&& unique_keys(self.glyphs@)
        &&& forall|i: int| 0 <= i < self.glyphs@.len() ==> within(#[trigger] self.glyphs@[i].1.rect, self.width as int, self.height as int)
        // no free bin shares a pixel with a placed glyph
        &&& forall|i: int, j: int| 0 <= i < self.bins@.len() && 0 <= j < self.glyphs@.len()
            ==> !(#[trigger] self.bins@[i]).overlaps(#[trigger] self.glyphs@[j].1.rect)
        // no two placed glyphs share a pixel
        &&& forall|i: int, j: int| 0 <= i < self.glyphs@.len() && 0 <= j < self.glyphs@.len() && i != j
            ==> !(#[trigger] self.glyphs@[i].1.rect).overlaps(#[trigger] self.glyphs@[j].1.rect)
        &&& match self.dirty_region {
            Some(region) => region.bottom_right.x <= self.width && region.bottom_right.y <= self.height,
            None => true,
        }
    }

    /// An empty atlas of `width` x `height` zero pixels with one free bin covering it.
    pub fn new(render_mode: GlyphRenderMode, width: u32, height: u32) -> (r: GlyphAtlas)
        requires
            width * height <= u32::MAX,
        ensures
            r.wf(),
            r.width == width,
            r.height == height,
            r.render_mode == render_mode,
            r.bitmap@ == Seq::new((width * height) as nat, |i: int| 0u8),
            r.bins@ == seq![Rect { x: 0, y: 0, width, height }],
            r.glyph_map() == Map::<GlyphAtlasKey, GlyphAtlasRect>::empty(),
            r.dirty_region is None,
    {
        let pixel_width = width;
        let bitmap: Vec<u8> = vec![0; (pixel_width * height) as usize];
        let bins = vec![Rect { x: 0, y: 0, width, height }];
        let glyphs = Vec::new();
        let r = Self { bitmap, width, height, bins, glyphs, render_mode, dirty_region: None };
        assert(r.bitmap@ =~= Seq::new((width * height) as nat, |i: int| 0u8));
        assert(r.glyph_map() =~= Map::<GlyphAtlasKey, GlyphAtlasRect>::empty());
        r
    }

    /// The bin with the least room left over after placing a `width` x `height`
    /// glyph in it (the first such bin), or `None` when the glyph fits nowhere.
    pub fn choose_bin(&self, width: u32, height: u32) -> (r: Option<usize>)
        requires
            ratings_in_range(self.bins@, width, height),
        ensures
            best_bin(self.bins@, width as int, height as int, r),
    {
        let mut chosen_bin: Option<usize> = None;
        let mut chosen_bin_rating: Option<i32> = None;
        let n = self.bins.len();
        for i in 0..n
            invariant
                n == self.bins@.len(),
                ratings_in_range(self.bins@, width, height),
                chosen_bin is Some <==> chosen_bin_rating is Some,
                match chosen_bin {
                    Some(c) => {
                        &&& is_best_bin(self.bins@.take(i as int), width as int, height as int, c as int)
                        &&& chosen_bin_rating->0 == bin_rating(self.bins@[c as int], width as int, height as int)
                    },
                    None => forall|j: int| 0 <= j < i ==> !bin_fits(#[trigger] self.bins@[j], width as int, height as int),
                },
        {
            let bin = &self.bins[i];
            let rating_x: i32 = bin.width as i32 - width as i32;
            let rating_y: i32 = bin.height as i32 - height as i32;
            if rating_x >= 0 && rating_y >= 0 {
                let rating = rating_x + rating_y;
                let better = match chosen_bin_rating {
                    None => true,
                    Some(f) => f > rating,
                };
                if better {
                    chosen_bin_rating = Some(rating);
                    chosen_bin = Some(i);
                }
            }
            proof {
                let t = self.bins@.take(i + 1);
                assert forall|j: int| 0 <= j < i implies t[j] == self.bins@.take(i as int)[j] by {}
            }
        }
        assert(self.bins@.take(n as int) =~= self.bins@);
        chosen_bin
    }

    /// Whether the ratings of every free bin for a `width` x `height` glyph
    /// can be computed in `i32`, as `choose_bin` and `place_glyph` need.
    pub fn ratings_fit(&self, width: u32, height: u32) -> (r: bool)
        ensures
            r == ratings_in_range(self.bins@, width, height),
    {
        if width > i32::MAX as u32 || height > i32::MAX as u32 {
            return false;
        }
        let n = self.bins.len();
        for i in 0..n
            invariant
                n == self.bins@.len(),
                width <= i32::MAX,
                height <= i32::MAX,
                forall|k: int| 0 <= k < i ==> {
                    &&& (#[trigger] self.bins@[k]).width <= i32::MAX
                    &&& self.bins@[k].height <= i32::MAX
                    &&& bin_fits(self.bins@[k], width as int, height as int) ==> bin_rating(self.bins@[k], width as int, height as int) <= i32::MAX
                },
        {
            let bin = self.bins[i];
            if bin.width > i32::MAX as u32 || bin.height > i32::MAX as u32 {
                return false;
            }
            if bin.width >= width && bin.height >= height
                && (bin.width - width) as u64 + (bin.height - height) as u64 > i32::MAX as u64 {
                return false;
            }
        }
        true
    }

    /// Takes `rect` out of the free bins: bin `bin_index`, whose top-left corner
    /// `rect` occupies, leaves its parts right of and below `rect`; every other
    /// bin is split around `rect`; then bins inside other bins are dropped.
    fn break_bin(&mut self, bin_index: usize, rect: Rect)
        requires
            bin_index < old(self).bins@.len(),
            all_fit(old(self).bins@),
            rect.fits_u32(),
        ensures
            final(self).bins@ == prune_result(carved(old(self).bins@, bin_index as int, rect)),
            pruned(carved(old(self).bins@, bin_index as int, rect), final(self).bins@),
            (forall|k: int| 0 <= k < old(self).bins@.len() ==> big_enough(#[trigger] old(self).bins@[k]))
                ==> forall|k: int| 0 <= k < final(self).bins@.len() ==> big_enough(#[trigger] final(self).bins@[k]),
            final(self).bitmap == old(self).bitmap,
            final(self).width == old(self).width,
            final(self).height == old(self).height,
            final(self).glyphs == old(self).glyphs,
            final(self).render_mode == old(self).render_mode,
            final(self).dirty_region == old(self).dirty_region,
    {
        let ghost b0 = self.bins@;
        carve_bins(&mut self.bins, bin_index, rect);
        self.prune_bins();
        proof {
            if forall|k: int| 0 <= k < b0.len() ==> big_enough(#[trigger] b0[k]) {
                lemma_carved_big(b0, bin_index as int, rect);
                let c = carved(b0, bin_index as int, rect);
                assert forall|k: int| 0 <= k < self.bins@.len() implies big_enough(#[trigger] self.bins@[k]) by {
                    assert(occurs_in(c, self.bins@[k]));
                    let j = choose|j: int| 0 <= j < c.len() && c[j] == self.bins@[k];
                    assert(big_enough(c[j]));
                }
            }
        }
    }

    proof fn lemma_map_push(s: Seq<(GlyphAtlasKey, GlyphAtlasRect)>, key: GlyphAtlasKey, e: GlyphAtlasRect)
        ensures
            entries_map(s.push((key, e))) == entries_map(s).insert(key, e),
    {
        assert(s.push((key, e)).drop_last() =~= s);
    }

    proof fn lemma_push_keeps_wf(&self, old: GlyphAtlas, key: GlyphAtlasKey, e: GlyphAtlasRect)
        requires
            old.wf(),
            !old.glyph_map().contains_key(key),
            e == empty_glyph(),
            self.glyphs@ == old.glyphs@.push((key, e)),
            self.bitmap == old.bitmap,
            self.width == old.width,
            self.height == old.height,
            self.bins == old.bins,
            self.dirty_region == old.dirty_region,
        ensures
            self.wf(),
            self.glyph_map() == old.glyph_map().insert(key, e),
    {
        lemma_entries_map(old.glyphs@);
        Self::lemma_map_push(old.glyphs@, key, e);
        let gs = self.glyphs@;
        let n = old.glyphs@.len();
        assert forall|i: int, j: int| 0 <= i < gs.len() && 0 <= j < gs.len() && i != j implies gs[i].0 != gs[j].0 by {
            if i < n && j < n {
                assert(gs[i] == old.glyphs@[i] && gs[j] == old.glyphs@[j]);
            } else if i < n {
                assert(gs[i] == old.glyphs@[i]);
            } else {
                assert(gs[j] == old.glyphs@[j]);
            }
        }
        assert forall|i: int| 0 <= i < gs.len() implies within(#[trigger] gs[i].1.rect, self.width as int, self.height as int) by {
            if i < n {
                assert(gs[i] == old.glyphs@[i]);
            }
        }
        assert forall|i: int, j: int| 0 <= i < self.bins@.len() && 0 <= j < gs.len() implies !(#[trigger] self.bins@[i]).overlaps(#[trigger] gs[j].1.rect) by {
            if j < n {
                assert(gs[j] == old.glyphs@[j]);
            }
        }
        assert forall|i: int, j: int| 0 <= i < gs.len() && 0 <= j < gs.len() && i != j implies !(#[trigger] gs[i].1.rect).overlaps(#[trigger] gs[j].1.rect) by {
            if i < n && j < n {
                assert(gs[i] == old.glyphs@[i] && gs[j] == old.glyphs@[j]);
            }
        }
    }

    proof fn lemma_place_keeps_wf(&self, old: GlyphAtlas, mid: GlyphAtlas, key: GlyphAtlasKey, i: int, g: Rect)
        requires
            old.wf(),
            !old.glyph_map().contains_key(key),
            0 <= i < old.bins@.len(),
            hosts(old.bins@[i], g),
            mid.bins == old.bins,
            mid.width == old.width,
            mid.height == old.height,
            mid.glyphs@ == old.glyphs@.push((key, GlyphAtlasRect { rect: g, is_empty: false })),
            mid.bitmap@.len() == old.bitmap@.len(),
            mid.dirty_region == Some(grown(old.dirty_region, g)),
            pruned(carved(mid.bins@, i, g), self.bins@),
            self.bitmap == mid.bitmap,
            self.width == mid.width,
            self.height == mid.height,
            self.glyphs == mid.glyphs,
            self.dirty_region == mid.dirty_region,
        ensures
            self.wf(),
            self.glyph_map() == old.glyph_map().insert(key, GlyphAtlasRect { rect: g, is_empty: false }),
    {
        let e = GlyphAtlasRect { rect: g, is_empty: false };
        lemma_entries_map(old.glyphs@);
        Self::lemma_map_push(old.glyphs@, key, e);
        let ob = old.bins@;
        assert(within(ob[i], old.width as int, old.height as int));
        assert(all_fit(ob)) by {
            assert forall|k: int| 0 <= k < ob.len() implies (#[trigger] ob[k]).fits_u32() by {
                assert(within(ob[k], old.width as int, old.height as int));
            }
        }
        lemma_carved(ob, i, g);
        let c = carved(ob, i, g);
        let gs = self.glyphs@;
        let nb = self.bins@;
        let n = old.glyphs@.len();
        // every new bin lies inside an old bin and shares no pixel with g
        assert forall|k: int| 0 <= k < nb.len() implies inside_some(ob, #[trigger] nb[k]) && !nb[k].overlaps(g) by {
            assert(occurs_in(c, nb[k]));
            let j = choose|j: int| 0 <= j < c.len() && c[j] == nb[k];
            assert(inside_some(ob, c[j]) && !c[j].overlaps(g));
        }
        assert forall|k: int| 0 <= k < nb.len() implies within(#[trigger] nb[k], self.width as int, self.height as int) by {
            assert(inside_some(ob, nb[k]));
            let j = choose|j: int| 0 <= j < ob.len() && ob[j].spec_contains(nb[k]);
            assert(within(ob[j], old.width as int, old.height as int));
        }
        assert forall|a: int, b: int| 0 <= a < gs.len() && 0 <= b < gs.len() && a != b implies gs[a].0 != gs[b].0 by {
            if a < n && b < n {
                assert(gs[a] == old.glyphs@[a] && gs[b] == old.glyphs@[b]);
            } else if a < n {
                assert(gs[a] == old.glyphs@[a]);
            } else {
                assert(gs[b] == old.glyphs@[b]);
            }
        }
        assert forall|a: int| 0 <= a < gs.len() implies within(#[trigger] gs[a].1.rect, self.width as int, self.height as int) by {
            if a < n {
                assert(gs[a] == old.glyphs@[a]);
            }
        }
        assert forall|a: int, b: int| 0 <= a < nb.len() && 0 <= b < gs.len() implies !(#[trigger] nb[a]).overlaps(#[trigger] gs[b].1.rect) by {
            assert(inside_some(ob, nb[a]) && !nb[a].overlaps(g));
            if b < n {
                assert(gs[b] == old.glyphs@[b]);
                let j = choose|j: int| 0 <= j < ob.len() && ob[j].spec_contains(nb[a]);
                assert(!ob[j].overlaps(old.glyphs@[b].1.rect));
            }
        }
        assert forall|a: int, b: int| 0 <= a < gs.len() && 0 <= b < gs.len() && a != b implies !(#[trigger] gs[a].1.rect).overlaps(#[trigger] gs[b].1.rect) by {
            if a < n && b < n {
                assert(gs[a] == old.glyphs@[a] && gs[b] == old.glyphs@[b]);
            } else if a < n {
                assert(gs[a] == old.glyphs@[a]);
                assert(!ob[i].overlaps(old.glyphs@[a].1.rect));
            } else {
                assert(gs[b] == old.glyphs@[b]);
                assert(!ob[i].overlaps(old.glyphs@[b].1.rect));
            }
        }
    }

    /// The position of `key` in `glyphs`, if it is there.
    fn find_glyph(&self, key: &GlyphAtlasKey) -> (r: Option<usize>)
        requires
            unique_keys(self.glyphs@),
        ensures
            match r {
                Some(i) => i < self.glyphs@.len() && self.glyphs@[i as int].0 == *key,
                None => !self.glyph_map().contains_key(*key),
            },
            r is Some <==> self.glyph_map().contains_key(*key),
    {
        proof {
            lemma_entries_map(self.glyphs@);
        }
        let n = self.glyphs.len();
        for i in 0..n
            invariant
                n == self.glyphs@.len(),
                unique_keys(self.glyphs@),
                forall|j: int| 0 <= j < i ==> (#[trigger] self.glyphs@[j]).0 != *key,
        {
            if self.glyphs[i].0 == *key {
                proof {
                    lemma_entries_map(self.glyphs@);
                }
                assert(entries_map(self.glyphs@).contains_key(self.glyphs@[i as int].0));
                return Some(i);
            }
        }
        None
    }

    /// Forgets the changed region, once it has been uploaded.
    pub fn flush_dirty_region(&mut self)
        ensures
            final(self).dirty_region is None,
            final(self).bitmap == old(self).bitmap,
            final(self).width == old(self).width,
            final(self).height == old(self).height,
            final(self).bins == old(self).bins,
            final(self).glyphs == old(self).glyphs,
            final(self).render_mode == old(self).render_mode,
    {
        self.dirty_region = None;
    }

    /// Grows the changed region to cover `rect`.
    fn update_dirty_region(&mut self, rect: &Rect)
        requires
            rect.fits_u32(),
        ensures
            final(self).dirty_region == Some(grown(old(self).dirty_region, *rect)),
            final(self).bitmap == old(self).bitmap,
            final(self).width == old(self).width,
            final(self).height == old(self).height,
            final(self).bins == old(self).bins,
            final(self).glyphs == old(self).glyphs,
            final(self).render_mode == old(self).render_mode,
    {
        let right = rect.x + rect.width;
        let bottom = rect.y + rect.height;
        match self.dirty_region {
            Some(region) => {
                let top_left = Point2u {
                    x: if region.top_left.x <= rect.x { region.top_left.x } else { rect.x },
                    y: if region.top_left.y <= rect.y { region.top_left.y } else { rect.y },
                };
                let bottom_right = Point2u {
                    x: if region.bottom_right.x >= right { region.bottom_right.x } else { right },
                    y: if region.bottom_right.y >= bottom { region.bottom_right.y } else { bottom },
                };
                self.dirty_region = Some(Region2d { top_left, bottom_right });
            },
            None => {
                self.dirty_region = Some(
                    Region2d {
                        top_left: Point2u { x: rect.x, y: rect.y },
                        bottom_right: Point2u { x: right, y: bottom },
                    },
                );
            },
        }
    }

    /// Records `glyph` of `font_handle` at `font_height`, given what rendering it
    /// produced: nothing happens when it is already recorded; a glyph without
    /// pixels is recorded as empty; otherwise the bitmap is copied to the top-left
    /// corner of the best-fitting free bin, which is then carved up. Fails with
    /// `NoBinFit`, changing nothing, when no free bin is large enough.
    pub fn place_glyph(
        &mut self,
        font_handle: FontHandle,
        glyph: u64,
        font_height: u32,
        bitmap: Option<GlyphBitmap>,
    ) -> (r: Result<(), GlyphAtlasError>)
        requires
            old(self).wf(),
            bitmap matches Some(bm) ==> {
                &&& ratings_in_range(old(self).bins@, bm.width, bm.rows)
                &&& bm.buffer@.len() >= bm.width * bm.rows
            },
        ensures
            final(self).wf(),
            final(self).width == old(self).width,
            final(self).height == old(self).height,
            final(self).render_mode == old(self).render_mode,
            ({
                let key = GlyphAtlasKey::spec_new(font_handle, glyph, font_height);
                if old(self).glyph_map().contains_key(key) {
                    r is Ok && *final(self) == *old(self)
                } else {
                    match bitmap {
                        None => {
                            &&& r is Ok
                            &&& final(self).glyph_map() == old(self).glyph_map().insert(key, empty_glyph())
                            &&& final(self).bitmap == old(self).bitmap
                            &&& final(self).bins == old(self).bins
                            &&& final(self).dirty_region == old(self).dirty_region
                        },
                        Some(bm) => if best_bin(old(self).bins@, bm.width as int, bm.rows as int, None) {
                            r matches Err(GlyphAtlasError::NoBinFit) && *final(self) == *old(self)
                        } else {
                            &&& r is Ok
                            &&& forall|i: int| is_best_bin(old(self).bins@, bm.width as int, bm.rows as int, i)
                                ==> glyph_placed(*old(self), *final(self), key, i, bm.width, bm.rows, bm.buffer@)
                        },
                    }
                }
            }),
    {
        let glyph_key = GlyphAtlasKey::new(font_handle, glyph, font_height);
        proof {
            lemma_entries_map(self.glyphs@);
        }
        if self.find_glyph(&glyph_key).is_some() {
            return Ok(());
        }
        let ghost old_self = *self;
        match bitmap {
            None => {
                let empty = GlyphAtlasRect { rect: Rect { x: 0, y: 0, width: 0, height: 0 }, is_empty: true };
                self.glyphs.push((glyph_key, empty));
                proof {
                    assert(self.glyphs@.drop_last() =~= old_self.glyphs@);
                    self.lemma_push_keeps_wf(old_self, glyph_key, empty);
                }
                Ok(())
            },
            Some(bitmap_data) => {
                let chosen_bin_index = match self.choose_bin(bitmap_data.width, bitmap_data.rows) {
                    Some(i) => i,
                    None => {
                        return Err(GlyphAtlasError::NoBinFit);
                    },
                };
                let chosen_bin = self.bins[chosen_bin_index];
                let glyph_bounds = Rect {
                    x: chosen_bin.x,
                    y: chosen_bin.y,
                    width: bitmap_data.width,
                    height: bitmap_data.rows,
                };
                assert(within(chosen_bin, self.width as int, self.height as int));
                blit_glyph(&mut self.bitmap, self.width, self.height, glyph_bounds, bitmap_data.buffer);
                self.update_dirty_region(&glyph_bounds);
                let placed = GlyphAtlasRect { rect: glyph_bounds, is_empty: false };
                self.glyphs.push((glyph_key, placed));
                proof {
                    assert(self.glyphs@.drop_last() =~= old_self.glyphs@);
                    assert(all_fit(self.bins@)) by {
                        assert forall|k: int| 0 <= k < self.bins@.len() implies (#[trigger] self.bins@[k]).fits_u32() by {
                            assert(within(self.bins@[k], self.width as int, self.height as int));
                        }
                    }
                }
                let ghost mid = *self;
                self.break_bin(chosen_bin_index, glyph_bounds);
                proof {
                    self.lemma_place_keeps_wf(old_self, mid, glyph_key, chosen_bin_index as int, glyph_bounds);
                    assert forall|i: int| is_best_bin(old_self.bins@, bitmap_data.width as int, bitmap_data.rows as int, i)
                        implies glyph_placed(old_self, *self, glyph_key, i, bitmap_data.width, bitmap_data.rows, bitmap_data.buffer@) by {
                        assert(i == chosen_bin_index);
                    }
                }
                Ok(())
            },
        }
    }

    /// Where `glyph` of `font_handle` at `font_height` was placed, if it was.
    pub fn get_glyph(&self, font_handle: FontHandle, glyph: u64, font_height: u32) -> (r: Option<&GlyphAtlasRect>)
        requires
            self.wf(),
        ensures
            ({
                let key = GlyphAtlasKey::spec_new(font_handle, glyph, font_height);
                match r {
                    Some(g) => self.glyph_map().contains_key(key) && *g == self.glyph_map()[key],
                    None => !self.glyph_map().contains_key(key),
                }
            }),
    {
        let glyph_key = GlyphAtlasKey::new(font_handle, glyph, font_height);
        proof {
            lemma_entries_map(self.glyphs@);
        }
        match self.find_glyph(&glyph_key) {
            Some(i) => Some(&self.glyphs[i].1),
            None => None,
        }
    }

    /// The placement of each character of `text` in order; characters not
    /// placed yet come out as empty glyphs.
    pub fn get_glyphs(&self, font_handle: FontHandle, text: &str, font_height: u32) -> (r: Vec<GlyphAtlasRect>)
        requires
            self.wf(),
        ensures
            r@.len() == text@.len(),
            forall|i: int| 0 <= i < text@.len() ==> #[trigger] r@[i] == glyph_or_empty(self.glyph_map(), GlyphAtlasKey::spec_new(font_handle, text@[i] as u64, font_height)),
    {
        let mut rects: Vec<GlyphAtlasRect> = Vec::new();
        for c in it: text.chars()
            invariant
                self.wf(),
                rects@.len() == it.index(),
                forall|i: int| 0 <= i < it.index() ==> #[trigger] rects@[i] == glyph_or_empty(self.glyph_map(), GlyphAtlasKey::spec_new(font_handle, it.seq()[i] as u64, font_height)),
        {
            match self.get_glyph(font_handle, c as u64, font_height) {
                Some(rect) => rects.push(*rect),
                None => rects.push(GlyphAtlasRect { rect: Rect { x: 0, y: 0, width: 0, height: 0 }, is_empty: true }),
            }
        }
        rects
    }

    /// Drops every bin that lies inside another bin (of equal bins, the first stays).
    fn prune_bins(&mut self)
        requires
            all_fit(old(self).bins@),
        ensures
            final(self).bins@ == prune_result(old(self).bins@),
            pruned(old(self).bins@, final(self).bins@),
            final(self).bitmap == old(self).bitmap,
            final(self).width == old(self).width,
            final(self).height == old(self).height,
            final(self).glyphs == old(self).glyphs,
            final(self).render_mode == old(self).render_mode,
            final(self).dirty_region == old(self).dirty_region,
    {
        let bins_count = self.bins.len();
        let ghost b = self.bins@;
        let mut to_remove: Vec<bool> = vec![false; bins_count];
        assert(to_remove@ =~= prune_marks_upto(b, 0));
        for i in 0..bins_count
            invariant
                bins_count == b.len(),
                self.bins@ == b,
                all_fit(b),
                to_remove@.len() == bins_count,
                to_remove@ == prune_marks_upto(b, i as int),
                forall|a: int, c: int| 0 <= a < i && 0 <= c < bins_count && a != c && !to_remove@[a] && !to_remove@[c] ==> !(#[trigger] b[a]).spec_contains(#[trigger] b[c]),
                forall|c: int| 0 <= c < bins_count && #[trigger] to_remove@[c] ==> exists|a: int| 0 <= a < bins_count && !to_remove@[a] && (#[trigger] b[a]).spec_contains(b[c]),
        {
            if !to_remove[i] {
                let ghost before = to_remove@;
                for j in 0..bins_count
                    invariant
                        bins_count == b.len(),
                        self.bins@ == b,
                        all_fit(b),
                        0 <= i < bins_count,
                        to_remove@.len() == bins_count,
                        !to_remove@[i as int],
                        before == prune_marks_upto(b, i as int),
                        to_remove@ == mark_inside(b, before, i as int, j as int),
                        forall|x: int| 0 <= x < bins_count && before[x] ==> #[trigger] to_remove@[x],
                        forall|a: int, c: int| 0 <= a < i && 0 <= c < bins_count && a != c && !before[a] && !before[c] ==> !(#[trigger] b[a]).spec_contains(#[trigger] b[c]),
                        forall|c: int| 0 <= c < j && c != i && !to_remove@[c] ==> !b[i as int].spec_contains(#[trigger] b[c]),
                        forall|c: int| 0 <= c < bins_count && #[trigger] to_remove@[c] ==> exists|a: int| 0 <= a < bins_count && !to_remove@[a] && (#[trigger] b[a]).spec_contains(b[c]),
                {
                    if i != j && !to_remove[j] && self.bins[i].contains(&self.bins[j]) {
                        let ghost prev = to_remove@;
                        to_remove.set(j, true);
                        proof {
                            assert forall|c: int| 0 <= c < bins_count && #[trigger] to_remove@[c] implies exists|a: int| 0 <= a < bins_count && !to_remove@[a] && (#[trigger] b[a]).spec_contains(b[c]) by {
                                if c == j {
                                    assert(!to_remove@[i as int] && b[i as int].spec_contains(b[c]));
                                } else {
                                    assert(prev[c]);
                                    let a = choose|a: int| 0 <= a < bins_count && !prev[a] && (#[trigger] b[a]).spec_contains(b[c]);
                                    if a == j {
                                        assert(!to_remove@[i as int] && b[i as int].spec_contains(b[c]));
                                    } else {
                                        assert(!to_remove@[a] && b[a].spec_contains(b[c]));
                                    }
                                }
                            }
                        }
                    }
                }
            }
        }
        let mut kept: Vec<Rect> = Vec::new();
        let ghost mut origin: Seq<int> = Seq::empty();
        for i in 0..bins_count
            invariant
                bins_count == b.len(),
                self.bins@ == b,
                to_remove@.len() == bins_count,
                to_remove@ == prune_marks_upto(b, bins_count as int),
                kept@ == unmarked(b, to_remove@, i as int),
                kept@.len() == origin.len(),
                kept@.len() <= i,
                forall|k: int| 0 <= k < origin.len() ==> 0 <= #[trigger] origin[k] < i && !to_remove@[origin[k]] && kept@[k] == b[origin[k]],
                forall|k: int, l: int| 0 <= k < l < origin.len() ==> #[trigger] origin[k] < #[trigger] origin[l],
                forall|c: int| 0 <= c < i && !to_remove@[c] ==> exists|k: int| 0 <= k < origin.len() && #[trigger] origin[k] == c,
        {
            if !to_remove[i] {
                kept.push(self.bins[i]);
                proof {
                    let prev_origin = origin;
                    origin = origin.push(i as int);
                    assert forall|c: int| 0 <= c < i + 1 && !to_remove@[c] implies exists|k: int| 0 <= k < origin.len() && #[trigger] origin[k] == c by {
                        if c == i {
                            assert(origin[origin.len() - 1] == c);
                        } else {
                            let k = choose|k: int| 0 <= k < prev_origin.len() && #[trigger] prev_origin[k] == c;
                            assert(origin[k] == prev_origin[k]);
                        }
                    }
                }
            }
        }
        let ghost m = to_remove@;
        self.bins = kept;
        proof {
            let n = self.bins@;
            assert forall|i: int| 0 <= i < n.len() implies occurs_in(b, #[trigger] n[i]) by {
                assert(n[i] == b[origin[i]]);
            }
            assert forall|j: int| 0 <= j < b.len() implies covered_by(n, #[trigger] b[j]) by {
                let y = j;
                if m[y] {
                    let a = choose|a: int| 0 <= a < bins_count && !m[a] && (#[trigger] b[a]).spec_contains(b[y]);
                    let k = choose|k: int| 0 <= k < origin.len() && #[trigger] origin[k] == a;
                    assert(n[k] == b[a]);
                } else {
                    let k = choose|k: int| 0 <= k < origin.len() && #[trigger] origin[k] == y;
                    assert(n[k] == b[y]);
                }
            }
            assert forall|x: int, z: int| 0 <= x < n.len() && 0 <= z < n.len() && x != z implies !(#[trigger] n[x]).spec_contains(#[trigger] n[z]) by {
                assert(n[x] == b[origin[x]]);
                assert(n[z] == b[origin[z]]);
                if x < z {
                    assert(origin[x] < origin[z]);
                } else {
                    assert(origin[z] < origin[x]);
                }
            }
        }
    }
}

/// Every bin that splitting `bins` around `r` leaves is worth keeping, when
/// every bin of `bins` is.
proof fn lemma_split_bins_big(bins: Seq<Rect>, r: Rect)
    requires
        forall|k: int| 0 <= k < bins.len() ==> big_enough(#[trigger] bins[k]),
    ensures
        forall|k: int| 0 <= k < split_bins(bins, r).len() ==> big_enough(#[trigger] split_bins(bins, r)[k]),
    decreases bins.len(),
{
    if bins.len() > 0 {
        let t = bins.drop_last();
        assert forall|k: int| 0 <= k < t.len() implies big_enough(#[trigger] t[k]) by {
            assert(t[k] == bins[k]);
        }
        lemma_split_bins_big(t, r);
        let pre = split_bins(t, r);
        let s = split_bins(bins, r);
        assert(big_enough(bins[bins.len() - 1]));
        assert forall|k: int| 0 <= k < s.len() implies big_enough(#[trigger] s[k]) by {
            if k < pre.len() {
                assert(s[k] == pre[k]);
            } else {
                assert(s[k] == split_bin(bins.last(), r)[k - pre.len()]);
            }
        }
    }
}

/// Carving `r` out of bin `i` leaves only bins worth keeping, when every bin
/// of `bins` is.
proof fn lemma_carved_big(bins: Seq<Rect>, i: int, r: Rect)
    requires
        0 <= i < bins.len(),
        forall|k: int| 0 <= k < bins.len() ==> big_enough(#[trigger] bins[k]),
    ensures
        forall|k: int| 0 <= k < carved(bins, i, r).len() ==> big_enough(#[trigger] carved(bins, i, r)[k]),
{
    let b1 = swap_removed(bins, i);
    assert forall|k: int| 0 <= k < b1.len() implies big_enough(#[trigger] b1[k]) by {
        if k == i {
            assert(b1[k] == bins[bins.len() - 1]);
        } else {
            assert(b1[k] == bins[k]);
        }
    }
    lemma_split_bins_big(b1, r);
    let c = carved(bins, i, r);
    let head = piece(right_of(bins[i], r)) + piece(below(bins[i], r));
    let sp = split_bins(b1, r);
    assert forall|k: int| 0 <= k < c.len() implies big_enough(#[trigger] c[k]) by {
        if k < head.len() {
            assert(c[k] == head[k]);
        } else {
            assert(c[k] == sp[k - head.len()]);
        }
    }
}

/// Placing a glyph leaves only free bins longer than `MIN_BIN_LENGTH` both
/// ways, where every free bin was so before, and no free bin inside another.
pub proof fn law_placed_bins_big_and_apart(
    old: GlyphAtlas,
    new: GlyphAtlas,
    key: GlyphAtlasKey,
    i: int,
    bm_width: u32,
    bm_rows: u32,
    buf: Seq<u8>,
)
    requires
        0 <= i < old.bins@.len(),
        forall|k: int| 0 <= k < old.bins@.len() ==> big_enough(#[trigger] old.bins@[k]),
        glyph_placed(old, new, key, i, bm_width, bm_rows, buf),
    ensures
        forall|k: int| 0 <= k < new.bins@.len() ==> big_enough(#[trigger] new.bins@[k]),
        forall|k: int, l: int| 0 <= k < new.bins@.len() && 0 <= l < new.bins@.len() && k != l
            ==> !(#[trigger] new.bins@[k]).spec_contains(#[trigger] new.bins@[l]),
{
    let ob = old.bins@;
    let g = placed_in(ob, i, bm_width, bm_rows);
    lemma_carved_big(ob, i, g);
    let c = carved(ob, i, g);
    assert forall|k: int| 0 <= k < new.bins@.len() implies big_enough(#[trigger] new.bins@[k]) by {
        assert(occurs_in(c, new.bins@[k]));
        let j = choose|j: int| 0 <= j < c.len() && c[j] == new.bins@[k];
        assert(big_enough(c[j]));
    }
}

/// Two different glyphs of an atlas never share a pixel, each lies inside the
/// atlas, and no free bin shares a pixel with a glyph.
pub proof fn law_atlas_glyphs_disjoint(a: GlyphAtlas, k1: GlyphAtlasKey, k2: GlyphAtlasKey)
    requires
        a.wf(),
        a.glyph_map().contains_key(k1),
        a.glyph_map().contains_key(k2),
        k1 != k2,
    ensures
        !a.glyph_map()[k1].rect.overlaps(a.glyph_map()[k2].rect),
        within(a.glyph_map()[k1].rect, a.width as int, a.height as int),
        forall|b: int| 0 <= b < a.bins@.len() ==> !(#[trigger] a.bins@[b]).overlaps(a.glyph_map()[k1].rect),
{
    lemma_entries_map(a.glyphs@);
    let i = choose|i: int| 0 <= i < a.glyphs@.len() && a.glyphs@[i].0 == k1;
    let j = choose|j: int| 0 <= j < a.glyphs@.len() && a.glyphs@[j].0 == k2;
    assert(a.glyph_map()[a.glyphs@[i].0] == a.glyphs@[i].1);
    assert(a.glyph_map()[a.glyphs@[j].0] == a.glyphs@[j].1);
    assert(i != j);
    assert forall|b: int| 0 <= b < a.bins@.len() implies !(#[trigger] a.bins@[b]).overlaps(a.glyph_map()[k1].rect) by {
        assert(!a.bins@[b].overlaps(a.glyphs@[i].1.rect));
    }
}

/// Once a glyph is placed, the atlas records it at the corner of its bin and
/// the atlas pixels inside that rectangle read back as the glyph's bitmap;
/// every other pixel and every other glyph is as before, and the dirty region
/// covers both the glyph and what was dirty before.
pub proof fn law_placed_glyph_reads_back(
    old: GlyphAtlas,
    new: GlyphAtlas,
    key: GlyphAtlasKey,
    i: int,
    bm_width: u32,
    bm_rows: u32,
    buf: Seq<u8>,
    px: int,
    py: int,
)
    requires
        new.wf(),
        new.width == old.width,
        glyph_placed(old, new, key, i, bm_width, bm_rows, buf),
        0 <= px < old.width,
        0 <= py < old.height,
    ensures
        ({
            let g = placed_in(old.bins@, i, bm_width, bm_rows);
            &&& new.glyph_map()[key] == (GlyphAtlasRect { rect: g, is_empty: false })
            &&& forall|k: GlyphAtlasKey| k != key ==> (#[trigger] new.glyph_map().contains_key(k)) == old.glyph_map().contains_key(k)
                && (old.glyph_map().contains_key(k) ==> new.glyph_map()[k] == old.glyph_map()[k])
            &&& new.bitmap@[pix(old.width as int, px, py)] == if in_rect(g, px, py) {
                glyph_pixel(g, buf, px, py)
            } else {
                old.bitmap@[pix(old.width as int, px, py)]
            }
            &&& new.dirty_region matches Some(d) && d.covers(g)
            &&& old.dirty_region matches Some(o) ==> new.dirty_region->0.covers_region(o)
        }),
{
    let g = placed_in(old.bins@, i, bm_width, bm_rows);
    lemma_entries_map(new.glyphs@);
    assert(new.glyph_map().contains_key(key));
    let j = choose|j: int| 0 <= j < new.glyphs@.len() && new.glyphs@[j].0 == key;
    assert(new.glyph_map()[new.glyphs@[j].0] == new.glyphs@[j].1);
    assert(within(new.glyphs@[j].1.rect, new.width as int, new.height as int));
    assert(new.glyphs@[j].1.rect == g);
}

/// Pixel (`px`, `py`) of free bin `b`, outside glyph `g`, lies in a part of `b`
/// that carving `g` out keeps: `b` does not touch `g`, or the part of `b` on
/// the pixel's side of `g` (right of, below, left of or above it) is longer
/// than `MIN_BIN_LENGTH` both ways.
pub open spec fn free_pixel_kept(b: Rect, g: Rect, px: int, py: int) -> bool {
    ||| !b.spec_intersects(g)
    ||| (px >= g.x + g.width && b.x + b.width - (g.x + g.width) > MIN_BIN_LENGTH && b.height > MIN_BIN_LENGTH)
    ||| (py >= g.y + g.height && b.y + b.height - (g.y + g.height) > MIN_BIN_LENGTH && b.width > MIN_BIN_LENGTH)
    ||| (px < g.x && g.x - b.x > MIN_BIN_LENGTH && b.height > MIN_BIN_LENGTH)
    ||| (py < g.y && g.y - b.y > MIN_BIN_LENGTH && b.width > MIN_BIN_LENGTH)
}

/// A pixel of `b` outside `r` that `free_pixel_kept` keeps lies in one of the
/// bins splitting `b` around `r` leaves.
proof fn lemma_split_bin_keeps(b: Rect, r: Rect, px: int, py: int)
    requires
        b.fits_u32(),
        r.fits_u32(),
        in_rect(b, px, py),
        !in_rect(r, px, py),
        free_pixel_kept(b, r, px, py),
    ensures
        exists|q: int| 0 <= q < split_bin(b, r).len() && in_rect(#[trigger] split_bin(b, r)[q], px, py),
{
    let s = split_bin(b, r);
    if !b.spec_intersects(r) {
        assert(s[0] == b);
    } else {
        let pr = piece(right_of(b, r));
        let pb = piece(below(b, r));
        let pl = piece(left_of(b, r));
        let pa = piece(above(b, r));
        assert(s == pr + pb + pl + pa);
        if px >= r.x + r.width && b.x + b.width - (r.x + r.width) > MIN_BIN_LENGTH && b.height > MIN_BIN_LENGTH {
            let e = right_of(b, r);
            assert(big_enough(e));
            assert(s[0] == e);
            assert(in_rect(e, px, py));
        } else if py >= r.y + r.height && b.y + b.height - (r.y + r.height) > MIN_BIN_LENGTH && b.width > MIN_BIN_LENGTH {
            let e = below(b, r);
            assert(big_enough(e));
            assert(s[pr.len() as int] == e);
            assert(in_rect(e, px, py));
        } else if px < r.x && r.x - b.x > MIN_BIN_LENGTH && b.height > MIN_BIN_LENGTH {
            let e = left_of(b, r);
            assert(big_enough(e));
            assert(s[(pr.len() + pb.len()) as int] == e);
            assert(in_rect(e, px, py));
        } else {
            let e = above(b, r);
            assert(big_enough(e));
            assert(s[(pr.len() + pb.len() + pl.len()) as int] == e);
            assert(in_rect(e, px, py));
        }
    }
}

/// Each bin that splitting `bins[t]` leaves is among those splitting `bins` leaves.
proof fn lemma_split_bins_member(bins: Seq<Rect>, r: Rect, t: int, q: int)
    requires
        0 <= t < bins.len(),
        0 <= q < split_bin(bins[t], r).len(),
    ensures
        exists|x: int| 0 <= x < split_bins(bins, r).len() && #[trigger] split_bins(bins, r)[x] == split_bin(bins[t], r)[q],
    decreases bins.len(),
{
    let d = bins.drop_last();
    let pre = split_bins(d, r);
    let s = split_bins(bins, r);
    assert(s == pre + split_bin(bins.last(), r));
    if t == bins.len() - 1 {
        assert(s[pre.len() + q] == split_bin(bins[t], r)[q]);
    } else {
        assert(d[t] == bins[t]);
        lemma_split_bins_member(d, r, t, q);
        let x = choose|x: int| 0 <= x < pre.len() && #[trigger] pre[x] == split_bin(d[t], r)[q];
        assert(s[x] == pre[x]);
    }
}

/// Placing a glyph keeps the free space around it: a pixel that lay in a free
/// bin before and is no pixel of the new glyph still lies in a free bin, unless
/// it was in a part of a bin no longer than `MIN_BIN_LENGTH` (see
/// `free_pixel_kept`), which the atlas drops.
pub proof fn law_placed_glyph_keeps_free_space(
    old: GlyphAtlas,
    new: GlyphAtlas,
    key: GlyphAtlasKey,
    i: int,
    bm_width: u32,
    bm_rows: u32,
    buf: Seq<u8>,
    k: int,
    px: int,
    py: int,
)
    requires
        glyph_placed(old, new, key, i, bm_width, bm_rows, buf),
        0 <= i < old.bins@.len(),
        bin_fits(old.bins@[i], bm_width as int, bm_rows as int),
        all_fit(old.bins@),
        0 <= k < old.bins@.len(),
        in_rect(old.bins@[k], px, py),
        !in_rect(Rect { x: old.bins@[i].x, y: old.bins@[i].y, width: bm_width, height: bm_rows }, px, py),
        free_pixel_kept(old.bins@[k], Rect { x: old.bins@[i].x, y: old.bins@[i].y, width: bm_width, height: bm_rows }, px, py),
    ensures
        exists|j: int| 0 <= j < new.bins@.len() && in_rect(#[trigger] new.bins@[j], px, py),
{
    let ob = old.bins@;
    let g = placed_in(ob, i, bm_width, bm_rows);
    let c = carved(ob, i, g);
    assert(ob[i].fits_u32());
    assert(g.fits_u32());
    assert(ob[k].fits_u32());
    // a bin of `c` holding the pixel
    let head = piece(right_of(ob[i], g)) + piece(below(ob[i], g));
    let b1 = swap_removed(ob, i);
    let sp = split_bins(b1, g);
    assert(c == head + sp);
    assert(exists|x: int| 0 <= x < c.len() && in_rect(#[trigger] c[x], px, py)) by {
        if k == i {
            assert(ob[i].spec_intersects(g));
            if px >= g.x + g.width && ob[i].x + ob[i].width - (g.x + g.width) > MIN_BIN_LENGTH && ob[i].height > MIN_BIN_LENGTH {
                let e = right_of(ob[i], g);
                assert(big_enough(e));
                assert(c[0] == e);
                assert(in_rect(e, px, py));
            } else {
                let e = below(ob[i], g);
                assert(py >= g.y + g.height);
                assert(big_enough(e));
                assert(c[piece(right_of(ob[i], g)).len() as int] == e);
                assert(in_rect(e, px, py));
            }
        } else {
            let t = if k == ob.len() - 1 { i } else { k };
            assert(b1[t] == ob[k]);
            lemma_split_bin_keeps(ob[k], g, px, py);
            let q = choose|q: int| 0 <= q < split_bin(ob[k], g).len() && in_rect(#[trigger] split_bin(ob[k], g)[q], px, py);
            lemma_split_bins_member(b1, g, t, q);
            let x = choose|x: int| 0 <= x < sp.len() && #[trigger] sp[x] == split_bin(b1[t], g)[q];
            assert(c[head.len() + x] == sp[x]);
        }
    }
    let x = choose|x: int| 0 <= x < c.len() && in_rect(#[trigger] c[x], px, py);
    assert(covered_by(new.bins@, c[x]));
    let j = choose|j: int| 0 <= j < new.bins@.len() && new.bins@[j].spec_contains(c[x]);
    assert(in_rect(new.bins@[j], px, py));
}

/// After placing a glyph, every pixel of a free bin lay in a free bin before
/// and is no pixel of the new glyph.
pub proof fn law_placed_free_bins_were_free(
    old: GlyphAtlas,
    new: GlyphAtlas,
    key: GlyphAtlasKey,
    i: int,
    bm_width: u32,
    bm_rows: u32,
    buf: Seq<u8>,
    j: int,
    px: int,
    py: int,
)
    requires
        glyph_placed(old, new, key, i, bm_width, bm_rows, buf),
        0 <= i < old.bins@.len(),
        bin_fits(old.bins@[i], bm_width as int, bm_rows as int),
        all_fit(old.bins@),
        0 <= j < new.bins@.len(),
        in_rect(new.bins@[j], px, py),
    ensures
        !in_rect(Rect { x: old.bins@[i].x, y: old.bins@[i].y, width: bm_width, height: bm_rows }, px, py),
        exists|k: int| 0 <= k < old.bins@.len() && in_rect(#[trigger] old.bins@[k], px, py),
{
    let ob = old.bins@;
    let g = placed_in(ob, i, bm_width, bm_rows);
    let c = carved(ob, i, g);
    assert(ob[i].fits_u32());
    lemma_carved(ob, i, g);
    assert(occurs_in(c, new.bins@[j]));
    let x = choose|x: int| 0 <= x < c.len() && c[x] == new.bins@[j];
    assert(inside_some(ob, c[x]));
    assert(!c[x].overlaps(g));
    let k = choose|k: int| 0 <= k < ob.len() && ob[k].spec_contains(c[x]);
    assert(in_rect(ob[k], px, py));
}

} // verus!
