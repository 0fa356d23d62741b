use hexxengine::deletion_queue::{VulkanDeletionQueue, MAX_FRAMES};
use hexxengine::font::{FontManagerError, GlyphCache, GlyphData, GlyphKey, GlyphMetrics};
use hexxengine::physics::{gen_userdata, read_userdata, UserdataType};
use hexxengine::shapes::{Boundsi64, Point2u, Rect, Region2d};
use hexxengine::textures::{cross_face_origin, SkyboxFace, SkyboxImageData};

#[test]
fn userdata_round_trips() {
    let u = gen_userdata(UserdataType::Handle, 0x1234_5678_9abc_def0, 0xdead_beef);
    assert_eq!(u, (2u128 << 119) | (0xdead_beefu128 << 64) | 0x1234_5678_9abc_def0u128);
    assert_eq!(read_userdata(u), (2, 0x1234_5678_9abc_def0, 0xdead_beef));
    let p = gen_userdata(UserdataType::Part, 7, 0);
    assert_eq!(read_userdata(p), (1, 7, 0));
}

#[test]
fn read_userdata_ignores_reserved_bits() {
    let u = (1u128 << 119) | (0x55u128 << 100) | (9u128 << 64) | 3;
    assert_eq!(read_userdata(u), (1, 3, 9));
}

#[test]
fn rect_contains_and_intersects() {
    let big = Rect { x: 0, y: 0, width: 10, height: 10 };
    let inner = Rect { x: 2, y: 3, width: 8, height: 7 };
    let touching = Rect { x: 10, y: 0, width: 5, height: 5 };
    let apart = Rect { x: 11, y: 0, width: 5, height: 5 };
    assert!(big.contains(&inner));
    assert!(big.contains(&big));
    assert!(!inner.contains(&big));
    assert!(big.intersects(&touching));
    assert!(!big.intersects(&apart));
    assert!(!big.contains(&touching));
}

#[test]
fn deletion_queue_waits_max_frames() {
    let mut q: VulkanDeletionQueue<u32> = VulkanDeletionQueue::new();
    q.push(1);
    q.push(2);
    assert!(q.take_expired().is_empty());
    q.current_frame = MAX_FRAMES - 1;
    assert!(q.take_expired().is_empty());
    q.current_frame = MAX_FRAMES;
    q.push(3);
    assert!(q.take_expired().is_empty());
    assert_eq!(q.queue.len(), 3);
}

#[test]
fn deletion_queue_takes_due_entries_from_the_back() {
    let mut q: VulkanDeletionQueue<u32> = VulkanDeletionQueue::new();
    q.push(1);
    q.current_frame = 1;
    q.push(2);
    q.push(3);
    q.current_frame = 3;
    assert_eq!(q.take_expired(), vec![3, 2, 1]);
    assert!(q.queue.is_empty());
}

#[test]
fn deletion_queue_stops_at_the_first_entry_not_due() {
    let mut q: VulkanDeletionQueue<u32> = VulkanDeletionQueue::new();
    q.current_frame = 5;
    q.push(1);
    q.current_frame = 0;
    q.push(2);
    q.current_frame = 2;
    // the newest entry is due, the one before it is not
    assert_eq!(q.take_expired(), vec![2]);
    assert_eq!(q.queue.len(), 1);
    q.current_frame = 7;
    assert_eq!(q.take_expired(), vec![1]);
}

fn glyph_data(advance: i32) -> GlyphData {
    GlyphData {
        advance: (advance, 0),
        bitmap_top: 10,
        bitmap_left: 1,
        glyph_index: 42,
        metrics: GlyphMetrics {
            width: 1,
            height: 2,
            hori_bearing_x: 3,
            hori_bearing_y: 4,
            hori_advance: 5,
            vert_bearing_x: 6,
            vert_bearing_y: 7,
            vert_advance: 8,
        },
        cbox: Boundsi64 { x_min: 0, y_min: 0, x_max: 8, y_max: 9 },
    }
}

#[test]
fn glyph_cache_keeps_what_was_loaded() {
    let mut cache = GlyphCache::new();
    assert!(cache.get_glyph(65, 16).is_none());
    let d = cache.record_glyph(65, 16, Ok(glyph_data(9))).unwrap();
    assert_eq!(d.advance, (9, 0));
    assert_eq!(cache.get_glyph(65, 16).unwrap().advance, (9, 0));
    assert!(cache.get_glyph(65, 17).is_none());

    // a second load of a cached glyph returns the cached data
    let again = cache.record_glyph(65, 16, Ok(glyph_data(1))).unwrap();
    assert_eq!(again.advance, (9, 0));
    assert_eq!(cache.entries.len(), 1);

    // an error is passed on and nothing is cached
    let e = cache.record_glyph(66, 16, Err(FontManagerError::NoGlyphIndex(66)));
    assert!(matches!(e, Err(FontManagerError::NoGlyphIndex(66))));
    assert!(cache.get_glyph(66, 16).is_none());
}

#[test]
fn glyph_key_new_keeps_fields() {
    let k = GlyphKey::new(97, 24);
    assert_eq!(k.glyph, 97);
    assert_eq!(k.font_height, 24);
}

#[test]
fn skybox_faces_are_laid_out_as_cube_layers() {
    let right = [1u8, 1];
    let left = [2u8, 2];
    let top = [3u8];
    let bottom = [4u8, 4, 4];
    let back = [5u8];
    let front = [6u8];
    let data = SkyboxImageData {
        width: 1,
        height: 1,
        top: &top,
        bottom: &bottom,
        front: &front,
        back: &back,
        left: &left,
        right: &right,
    };
    assert_eq!(data.cube_layer_data(), vec![1, 1, 2, 2, 3, 4, 4, 4, 5, 6]);
}

#[test]
fn region_union_covers_both() {
    let a = Region2d { top_left: Point2u { x: 2, y: 5 }, bottom_right: Point2u { x: 10, y: 8 } };
    let b = Region2d { top_left: Point2u { x: 4, y: 1 }, bottom_right: Point2u { x: 6, y: 12 } };
    let u = a.union(&b);
    assert_eq!(u, Region2d { top_left: Point2u { x: 2, y: 1 }, bottom_right: Point2u { x: 10, y: 12 } });
    assert_eq!(u.width(), 8);
    assert_eq!(u.height(), 11);
    assert_eq!(a.union(&a), a);
}

#[test]
fn region_pixel_offset_counts_whole_rows_then_columns() {
    let r = Region2d { top_left: Point2u { x: 3, y: 2 }, bottom_right: Point2u { x: 7, y: 9 } };
    assert_eq!(r.pixel_offset(10), 23);
    assert_eq!(r.width(), 4);
    assert_eq!(r.height(), 7);
    let origin = Region2d { top_left: Point2u { x: 0, y: 0 }, bottom_right: Point2u { x: 1, y: 1 } };
    assert_eq!(origin.pixel_offset(1024), 0);
}

#[test]
fn skybox_faces_lie_in_a_cross() {
    assert_eq!(cross_face_origin(SkyboxFace::Top, 512), (512, 0));
    assert_eq!(cross_face_origin(SkyboxFace::Left, 512), (0, 512));
    assert_eq!(cross_face_origin(SkyboxFace::Back, 512), (512, 512));
    assert_eq!(cross_face_origin(SkyboxFace::Right, 512), (1024, 512));
    assert_eq!(cross_face_origin(SkyboxFace::Front, 512), (1536, 512));
    assert_eq!(cross_face_origin(SkyboxFace::Bottom, 512), (512, 1024));
}
