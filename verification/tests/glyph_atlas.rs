use hexxengine::font::{FontHandle, GlyphBitmap, GlyphRenderMode};
use hexxengine::glyph_atlas::{GlyphAtlas, GlyphAtlasError};
use hexxengine::shapes::{Point2u, Rect, Region2d};

fn bitmap(width: u32, rows: u32, fill: u8) -> Vec<u8> {
    vec![fill; (width * rows) as usize]
}

#[test]
fn text_creation() {
    GlyphAtlas::new(GlyphRenderMode::Normal, 256, 256);
}

#[test]
fn new_atlas_is_one_free_bin() {
    let atlas = GlyphAtlas::new(GlyphRenderMode::Sdf, 64, 32);
    assert_eq!(atlas.bitmap.len(), 64 * 32);
    assert!(atlas.bitmap.iter().all(|p| *p == 0));
    assert_eq!(atlas.bins, vec![Rect { x: 0, y: 0, width: 64, height: 32 }]);
    assert!(atlas.glyphs.is_empty());
    assert_eq!(atlas.dirty_region, None);
}

#[test]
fn place_glyph_copies_the_bitmap_to_the_corner() {
    let mut atlas = GlyphAtlas::new(GlyphRenderMode::Normal, 16, 16);
    let pixels: Vec<u8> = (1..=6).collect();
    let font = FontHandle(0);
    atlas
        .place_glyph(font, 65, 12, Some(GlyphBitmap { width: 3, rows: 2, buffer: &pixels }))
        .unwrap();

    let g = atlas.get_glyph(font, 65, 12).unwrap();
    assert_eq!(g.rect, Rect { x: 0, y: 0, width: 3, height: 2 });
    assert!(!g.is_empty);
    assert_eq!(&atlas.bitmap[0..3], &[1, 2, 3]);
    assert_eq!(&atlas.bitmap[16..19], &[4, 5, 6]);
    assert_eq!(atlas.bitmap[3], 0);
    assert_eq!(
        atlas.dirty_region,
        Some(Region2d { top_left: Point2u { x: 0, y: 0 }, bottom_right: Point2u { x: 3, y: 2 } })
    );
    // the free space left: right of the glyph and below it
    assert!(atlas.bins.contains(&Rect { x: 3, y: 0, width: 13, height: 16 }));
    assert!(atlas.bins.contains(&Rect { x: 0, y: 2, width: 16, height: 14 }));
}

#[test]
fn placed_glyphs_never_overlap() {
    let mut atlas = GlyphAtlas::new(GlyphRenderMode::Normal, 64, 64);
    let font = FontHandle(1);
    let mut placed = 0;
    for c in 0..20u64 {
        let w = 3 + (c % 5) as u32;
        let h = 4 + (c % 3) as u32;
        let px = bitmap(w, h, c as u8 + 1);
        match atlas.place_glyph(font, c, 10, Some(GlyphBitmap { width: w, rows: h, buffer: &px })) {
            Ok(()) => placed += 1,
            Err(GlyphAtlasError::NoBinFit) => {}
            Err(_) => panic!("unexpected error"),
        }
    }
    assert!(placed >= 10);
    assert_eq!(atlas.glyphs.len(), placed);
    let rects: Vec<Rect> = atlas.glyphs.iter().map(|(_, r)| r.rect).collect();
    for i in 0..rects.len() {
        let a = rects[i];
        assert!(a.x + a.width <= 64 && a.y + a.height <= 64);
        for j in 0..rects.len() {
            if i != j {
                let b = rects[j];
                let overlap = a.x < b.x + b.width && b.x < a.x + a.width && a.y < b.y + b.height && b.y < a.y + a.height;
                assert!(!overlap, "glyphs {} and {} overlap", i, j);
            }
        }
    }
    // every glyph reads back its own bitmap
    for (key, r) in atlas.glyphs.iter() {
        let fill = key.glyph as u8 + 1;
        for y in r.rect.y..r.rect.y + r.rect.height {
            for x in r.rect.x..r.rect.x + r.rect.width {
                assert_eq!(atlas.bitmap[(x + y * 64) as usize], fill);
            }
        }
    }
}

#[test]
fn placing_a_known_glyph_changes_nothing() {
    let mut atlas = GlyphAtlas::new(GlyphRenderMode::Normal, 32, 32);
    let px = bitmap(4, 4, 9);
    let font = FontHandle(0);
    atlas.place_glyph(font, 7, 16, Some(GlyphBitmap { width: 4, rows: 4, buffer: &px })).unwrap();
    let bins = atlas.bins.clone();
    let other = bitmap(2, 2, 5);
    atlas.place_glyph(font, 7, 16, Some(GlyphBitmap { width: 2, rows: 2, buffer: &other })).unwrap();
    assert_eq!(atlas.bins, bins);
    assert_eq!(atlas.glyphs.len(), 1);
    assert_eq!(atlas.get_glyph(font, 7, 16).unwrap().rect.width, 4);
}

#[test]
fn glyph_without_pixels_is_recorded_empty() {
    let mut atlas = GlyphAtlas::new(GlyphRenderMode::Normal, 32, 32);
    atlas.place_glyph(FontHandle(0), 32, 16, None).unwrap();
    let g = atlas.get_glyph(FontHandle(0), 32, 16).unwrap();
    assert!(g.is_empty);
    assert_eq!(g.rect, Rect { x: 0, y: 0, width: 0, height: 0 });
    assert_eq!(atlas.dirty_region, None);
    assert_eq!(atlas.bins.len(), 1);
}

#[test]
fn too_large_glyph_fails_without_change() {
    let mut atlas = GlyphAtlas::new(GlyphRenderMode::Normal, 8, 8);
    let px = bitmap(9, 2, 1);
    let r = atlas.place_glyph(FontHandle(0), 1, 8, Some(GlyphBitmap { width: 9, rows: 2, buffer: &px }));
    assert!(matches!(r, Err(GlyphAtlasError::NoBinFit)));
    assert!(atlas.glyphs.is_empty());
    assert_eq!(atlas.bins, vec![Rect { x: 0, y: 0, width: 8, height: 8 }]);
    assert_eq!(atlas.dirty_region, None);
}

#[test]
fn choose_bin_picks_the_tightest_fit() {
    let mut atlas = GlyphAtlas::new(GlyphRenderMode::Normal, 100, 100);
    atlas.bins = vec![
        Rect { x: 0, y: 0, width: 10, height: 10 },
        Rect { x: 10, y: 0, width: 6, height: 5 },
        Rect { x: 20, y: 0, width: 5, height: 6 },
        Rect { x: 30, y: 0, width: 4, height: 4 },
    ];
    // ratings: 10, 1, 1, none; the first of the two best wins
    assert_eq!(atlas.choose_bin(5, 5), Some(1));
    assert_eq!(atlas.choose_bin(11, 1), None);
    assert_eq!(atlas.choose_bin(4, 4), Some(3));
}

#[test]
fn get_glyphs_follows_the_text() {
    let mut atlas = GlyphAtlas::new(GlyphRenderMode::Normal, 64, 64);
    let font = FontHandle(2);
    let px = bitmap(2, 3, 1);
    atlas.place_glyph(font, 'a' as u64, 18, Some(GlyphBitmap { width: 2, rows: 3, buffer: &px })).unwrap();
    atlas.place_glyph(font, ' ' as u64, 18, None).unwrap();
    let glyphs = atlas.get_glyphs(font, "a ab", 18);
    assert_eq!(glyphs.len(), 4);
    assert_eq!(glyphs[0], glyphs[2]);
    assert!(!glyphs[0].is_empty);
    assert!(glyphs[1].is_empty);
    assert!(glyphs[3].is_empty);
    assert_eq!(glyphs[3].rect, Rect { x: 0, y: 0, width: 0, height: 0 });
}

#[test]
fn dirty_region_follows_placements() {
    let mut atlas = GlyphAtlas::new(GlyphRenderMode::Normal, 256, 256);
    let font = FontHandle(0);
    let px = bitmap(9, 12, 3);

    atlas.place_glyph(font, 67, 18, Some(GlyphBitmap { width: 9, rows: 12, buffer: &px })).unwrap();
    assert_eq!(atlas.dirty_region.is_some(), true);

    atlas.flush_dirty_region();
    assert_eq!(atlas.dirty_region, None);

    atlas.place_glyph(font, 67, 18, Some(GlyphBitmap { width: 9, rows: 12, buffer: &px })).unwrap();
    assert_eq!(atlas.dirty_region, None);

    let px2 = bitmap(12, 16, 4);
    atlas.place_glyph(font, 67, 24, Some(GlyphBitmap { width: 12, rows: 16, buffer: &px2 })).unwrap();
    assert_eq!(atlas.dirty_region.is_some(), true);
}

#[test]
fn dirty_region_grows_to_cover_both_glyphs() {
    let mut atlas = GlyphAtlas::new(GlyphRenderMode::Normal, 32, 32);
    let font = FontHandle(0);
    let a = bitmap(4, 4, 1);
    atlas.place_glyph(font, 1, 8, Some(GlyphBitmap { width: 4, rows: 4, buffer: &a })).unwrap();
    let b = bitmap(2, 8, 1);
    atlas.place_glyph(font, 2, 8, Some(GlyphBitmap { width: 2, rows: 8, buffer: &b })).unwrap();
    let second = atlas.get_glyph(font, 2, 8).unwrap().rect;
    let d = atlas.dirty_region.unwrap();
    assert_eq!(d.top_left, Point2u { x: 0, y: 0 });
    assert_eq!(d.bottom_right.x, 4u32.max(second.x + second.width));
    assert_eq!(d.bottom_right.y, 4u32.max(second.y + second.height));
}

#[test]
fn debug_view_outlines_free_bins() {
    let atlas = GlyphAtlas::new(GlyphRenderMode::Normal, 16, 16);
    let rgba = atlas.debug_rgba();
    assert_eq!(rgba.len(), 16 * 16 * 4);
    let px = |x: usize, y: usize| &rgba[(x + y * 16) * 4..(x + y * 16) * 4 + 4];
    assert_eq!(px(0, 0), &[0, 255, 0, 255]);
    assert_eq!(px(15, 7), &[0, 255, 0, 255]);
    assert_eq!(px(7, 15), &[0, 255, 0, 255]);
    assert_eq!(px(7, 7), &[0, 0, 0, 255]);
}

#[test]
fn debug_render_shows_glyph_coverage() {
    let mut atlas = GlyphAtlas::new(GlyphRenderMode::Normal, 32, 32);
    let pixels = vec![200u8; 4];
    atlas
        .place_glyph(FontHandle(0), 1, 8, Some(GlyphBitmap { width: 2, rows: 2, buffer: &pixels }))
        .unwrap();
    let img = atlas.debug_render();
    assert_eq!(img.image.dimensions(), (32, 32));
    // the glyph's pixel is grey; it lies on no free bin's outline
    assert_eq!(img.image.get_pixel(1, 1).0, [200, 200, 200, 255]);
    // the free bin right of the glyph starts at column 2
    assert_eq!(img.image.get_pixel(2, 10).0, [0, 255, 0, 255]);
    assert_eq!(img.image.get_pixel(10, 10).0, [0, 0, 0, 255]);
}

#[test]
fn pruning_keeps_the_surviving_bins_in_order() {
    let mut atlas = GlyphAtlas::new(GlyphRenderMode::Normal, 64, 64);
    let font = FontHandle(0);
    let pixels = bitmap(10, 10, 7);
    atlas.place_glyph(font, 65, 10, Some(GlyphBitmap { width: 10, rows: 10, buffer: &pixels })).unwrap();
    assert_eq!(
        atlas.bins,
        vec![Rect { x: 10, y: 0, width: 54, height: 64 }, Rect { x: 0, y: 10, width: 64, height: 54 }]
    );
    atlas.place_glyph(font, 66, 10, Some(GlyphBitmap { width: 10, rows: 10, buffer: &pixels })).unwrap();
    assert_eq!(atlas.get_glyph(font, 66, 10).unwrap().rect, Rect { x: 10, y: 0, width: 10, height: 10 });
    assert_eq!(
        atlas.bins,
        vec![Rect { x: 20, y: 0, width: 44, height: 64 }, Rect { x: 0, y: 10, width: 64, height: 54 }]
    );
}

#[test]
fn ratings_fit_for_ordinary_glyphs_only() {
    let atlas = GlyphAtlas::new(GlyphRenderMode::Normal, 64, 64);
    assert!(atlas.ratings_fit(10, 10));
    assert!(atlas.ratings_fit(100, 100));
    assert!(!atlas.ratings_fit(u32::MAX, 1));
    assert!(!atlas.ratings_fit(1, 1 << 31));
}
