use glam::{Vec2, Vec4};
use hexxengine::font::FontHandle;
use hexxengine::ui::{
    Frame, HorizontalJustification, TextLabel, UiEventType, UiTree, VerticalJustification,
};

#[test]
fn add_element() {
    let mut ui_tree = UiTree::new();
    let frame = ui_tree.add_element(Frame::default());
    assert_eq!(ui_tree.get_element(frame).is_some(), true)
}

#[test]
fn parenting() {
    let mut ui_tree = UiTree::new();
    let frame_idx = ui_tree.add_element(Frame::default());
    let child1_idx = ui_tree.add_element(Frame::default());
    let child2_idx = ui_tree.add_element(Frame::default());

    ui_tree.parent(frame_idx, child1_idx);
    ui_tree.parent(frame_idx, child2_idx);

    let frame = ui_tree.get_element(frame_idx).unwrap();
    let child1 = ui_tree.get_element(child1_idx).unwrap();
    let child2 = ui_tree.get_element(child2_idx).unwrap();

    assert!(child1.parent.is_some());
    assert_eq!(child1.parent.unwrap(), frame_idx);

    assert!(child2.parent.is_some());
    assert_eq!(child2.parent.unwrap(), frame_idx);

    assert!(frame.first_child.is_some());
    assert_eq!(frame.first_child.unwrap(), child1_idx);

    assert!(frame.last_child.is_some());
    assert_eq!(frame.last_child.unwrap(), child2_idx);
}

#[test]
fn deparenting() {
    let mut ui_tree = UiTree::new();
    let frame_idx = ui_tree.add_element(Frame::default());
    let child1_idx = ui_tree.add_element(Frame::default());
    let child2_idx = ui_tree.add_element(Frame::default());
    let child3_idx = ui_tree.add_element(Frame::default());

    ui_tree.parent(frame_idx, child1_idx);
    ui_tree.parent(frame_idx, child2_idx);
    ui_tree.parent(frame_idx, child3_idx);

    ui_tree.deparent(child2_idx);
    ui_tree.deparent(child1_idx);
    ui_tree.deparent(child3_idx);
}

#[test]
fn removing() {
    let mut ui_tree = UiTree::new();
    let frame_idx = ui_tree.add_element(Frame::default());
    let child1_idx = ui_tree.add_element(Frame::default());

    ui_tree.parent(frame_idx, child1_idx);
    ui_tree.remove(frame_idx);

    assert!(ui_tree.get_element(frame_idx).is_none());
    assert!(ui_tree.get_element(child1_idx).is_none());
}

#[test]
fn removing_takes_the_whole_subtree_and_nothing_else() {
    let mut ui_tree = UiTree::new();
    let root = ui_tree.add_element(Frame::default());
    let a = ui_tree.add_element(Frame::default());
    let b = ui_tree.add_element(Frame::default());
    let a1 = ui_tree.add_element(Frame::default());
    let a2 = ui_tree.add_element(Frame::default());
    let other = ui_tree.add_element(Frame::default());
    let other_child = ui_tree.add_element(Frame::default());

    ui_tree.root(root);
    ui_tree.root(other);
    ui_tree.parent(root, a);
    ui_tree.parent(root, b);
    ui_tree.parent(a, a1);
    ui_tree.parent(a, a2);
    ui_tree.parent(other, other_child);

    ui_tree.remove(root);

    for gone in [root, a, b, a1, a2] {
        assert!(ui_tree.get_element(gone).is_none());
    }
    let o = ui_tree.get_element(other).unwrap();
    assert_eq!(o.first_child, Some(other_child));
    assert_eq!(o.last_child, Some(other_child));
    assert_eq!(ui_tree.get_element(other_child).unwrap().parent, Some(other));
}

#[test]
fn removing_a_first_child_relinks_its_parent() {
    let mut ui_tree = UiTree::new();
    let frame = ui_tree.add_element(Frame::default());
    let c1 = ui_tree.add_element(Frame::default());
    let c2 = ui_tree.add_element(Frame::default());
    let g = ui_tree.add_element(Frame::default());
    ui_tree.parent(frame, c1);
    ui_tree.parent(frame, c2);
    ui_tree.parent(c1, g);

    ui_tree.remove(c1);

    assert!(ui_tree.get_element(c1).is_none());
    assert!(ui_tree.get_element(g).is_none());
    let f = ui_tree.get_element(frame).unwrap();
    assert_eq!(f.first_child, Some(c2));
    assert_eq!(f.last_child, Some(c2));
    assert_eq!(ui_tree.get_element(c2).unwrap().parent, Some(frame));
}

#[test]
fn removing_follows_the_stale_link_to_a_deparented_last_child() {
    let mut ui_tree = UiTree::new();
    let frame = ui_tree.add_element(Frame::default());
    let c1 = ui_tree.add_element(Frame::default());
    let c2 = ui_tree.add_element(Frame::default());
    let keep = ui_tree.add_element(Frame::default());
    ui_tree.parent(frame, c1);
    ui_tree.parent(frame, c2);
    ui_tree.deparent(c2);

    let f = ui_tree.get_element(frame).unwrap();
    assert_eq!(f.first_child, Some(c1));
    assert_eq!(f.last_child, None);
    assert_eq!(ui_tree.get_element(c1).unwrap().next_sibling, Some(c2));
    assert_eq!(ui_tree.get_element(c2).unwrap().parent, None);

    ui_tree.remove(frame);

    assert!(ui_tree.get_element(frame).is_none());
    assert!(ui_tree.get_element(c1).is_none());
    assert!(ui_tree.get_element(c2).is_none());
    assert!(ui_tree.get_element(keep).is_some());
}

#[test]
fn deparent_undoes_parent_of_a_lone_child() {
    let mut ui_tree = UiTree::new();
    let frame = ui_tree.add_element(Frame::default());
    let child = ui_tree.add_element(Frame::default());
    ui_tree.parent(frame, child);
    ui_tree.deparent(child);

    let f = ui_tree.get_element(frame).unwrap();
    assert_eq!(f.first_child, None);
    assert_eq!(f.last_child, None);
    let c = ui_tree.get_element(child).unwrap();
    assert_eq!(c.parent, None);
    assert_eq!(c.next_sibling, None);
    assert_eq!(c.prev_sibling, None);
}

#[test]
fn parenting_links_siblings_without_previous_links() {
    let mut ui_tree = UiTree::new();
    let frame = ui_tree.add_element(Frame::default());
    let c1 = ui_tree.add_element(Frame::default());
    let c2 = ui_tree.add_element(Frame::default());
    let c3 = ui_tree.add_element(Frame::default());
    ui_tree.parent(frame, c1);
    ui_tree.parent(frame, c2);
    ui_tree.parent(frame, c3);

    assert_eq!(ui_tree.get_element(c1).unwrap().next_sibling, Some(c2));
    assert_eq!(ui_tree.get_element(c2).unwrap().next_sibling, Some(c3));
    assert_eq!(ui_tree.get_element(c3).unwrap().next_sibling, None);
    for c in [c1, c2, c3] {
        assert_eq!(ui_tree.get_element(c).unwrap().prev_sibling, None);
    }

    // Detaching the last child moves the parent's last link to its previous
    // sibling, which is never recorded.
    ui_tree.deparent(c3);
    let f = ui_tree.get_element(frame).unwrap();
    assert_eq!(f.first_child, Some(c1));
    assert_eq!(f.last_child, None);
}

#[test]
fn root_detaches_the_element() {
    let mut ui_tree = UiTree::new();
    let frame = ui_tree.add_element(Frame::default());
    let child = ui_tree.add_element(Frame::default());
    ui_tree.parent(frame, child);
    ui_tree.root(child);

    assert_eq!(ui_tree.get_element(child).unwrap().parent, None);
    assert_eq!(ui_tree.get_element(frame).unwrap().first_child, None);
}

#[test]
fn events_are_enabled_cleared_and_disabled() {
    let mut ui_tree = UiTree::new();
    let frame = ui_tree.add_element(Frame::default());
    assert!(ui_tree.get_element(frame).unwrap().events.is_none());

    ui_tree.enable_events(frame);
    assert_eq!(ui_tree.get_element(frame).unwrap().events.as_ref().unwrap().len(), 0);

    match ui_tree.get_element_mut(frame) {
        Some(node) => node.events.as_mut().unwrap().push(hexxengine::ui::UiEvent {
            input_event: None,
            event_type: UiEventType::Pressed,
        }),
        None => panic!("element missing"),
    }
    assert_eq!(ui_tree.get_element(frame).unwrap().events.as_ref().unwrap().len(), 1);

    ui_tree.enable_events(frame);
    assert_eq!(ui_tree.get_element(frame).unwrap().events.as_ref().unwrap().len(), 1);

    ui_tree.clear_events(frame);
    assert_eq!(ui_tree.get_element(frame).unwrap().events.as_ref().unwrap().len(), 0);

    ui_tree.disable_events(frame);
    assert!(ui_tree.get_element(frame).unwrap().events.is_none());
}

#[test]
fn get_element_mut_finds_only_live_elements() {
    let mut ui_tree = UiTree::new();
    let frame = ui_tree.add_element(Frame::default());
    ui_tree.get_element_mut(frame).unwrap().dimensions_dirty = false;
    assert!(!ui_tree.get_element(frame).unwrap().dimensions_dirty);

    ui_tree.remove(frame);
    assert!(ui_tree.get_element_mut(frame).is_none());
}

#[test]
fn text_label_new_sets_up_its_text_box() {
    let label = TextLabel::new(FontHandle(3));
    assert_eq!(label.font, Some(FontHandle(3)));
    assert_eq!(label.font_height, 14);
    assert_eq!(label.horizontal_justification, HorizontalJustification::Center);
    assert_eq!(label.vertical_justification, VerticalJustification::Center);
    assert!(label.visible);
    assert_eq!(label.text, "");
    assert_eq!(label.text_box.font, FontHandle(3));
    assert_eq!(label.text_box.font_height, 14);
    assert!(label.text_box.is_dirty);

    let mut ui_tree = UiTree::new();
    let idx = ui_tree.add_element(label);
    assert!(ui_tree.get_element(idx).unwrap().element.visible());
}

#[test]
fn text_label_setters_reach_the_text_box() {
    let mut label = TextLabel::new(FontHandle(1));
    label.set_text("Add part".to_string());
    label.set_font_height(18);
    label.set_horizontal_justification(HorizontalJustification::Left);
    label.set_font(FontHandle(2));
    assert_eq!(label.text_box.text, "Add part");
    assert_eq!(label.text, "Add part");
    assert_eq!(label.text_box.font_height, 18);
    assert_eq!(label.text_box.horizontal_justification, HorizontalJustification::Left);
    assert_eq!(label.font, Some(FontHandle(2)));
    assert_eq!(label.text_box.font, FontHandle(2));
}

fn glyph(advance: (i32, i32), glyph_index: u32) -> hexxengine::font::GlyphData {
    hexxengine::font::GlyphData {
        advance,
        bitmap_top: 0,
        bitmap_left: 0,
        glyph_index,
        metrics: hexxengine::font::GlyphMetrics {
            width: 0,
            height: 0,
            hori_bearing_x: 0,
            hori_bearing_y: 0,
            hori_advance: 0,
            vert_bearing_x: 0,
            vert_bearing_y: 0,
            vert_advance: 0,
        },
        cbox: hexxengine::shapes::Boundsi64 { x_min: 0, y_min: 0, x_max: 0, y_max: 0 },
    }
}

#[test]
fn pen_offsets_sum_the_advances_before() {
    let glyphs = [glyph((8, 0), 1), glyph((5, 1), 2), glyph((-3, 0), 3)];
    assert_eq!(hexxengine::ui::pen_offsets(&glyphs), vec![(0, 0), (8, 0), (13, 1)]);
    assert!(hexxengine::ui::pen_offsets(&[]).is_empty());
}

fn cache_of(height: u32, glyphs: &[(char, hexxengine::font::GlyphData)]) -> hexxengine::font::GlyphCache {
    let mut cache = hexxengine::font::GlyphCache::new();
    for (c, d) in glyphs {
        cache.record_glyph(*c as u64, height, Ok(*d)).unwrap();
    }
    cache
}

#[test]
fn calculate_layout_runs_only_when_dirty() {
    let mut text_box = hexxengine::ui::TextBox::new(FontHandle(0));
    text_box.set_text("abba".to_string());
    let cache = cache_of(16, &[('a', glyph((8, 0), 11)), ('b', glyph((7, 0), 12))]);
    assert!(text_box.layout_ready(&cache));
    text_box.calculate_layout(&cache);
    assert!(!text_box.is_dirty);
    let indices: Vec<u32> = text_box.glyph_positions.iter().map(|g| g.glyph_index).collect();
    assert_eq!(indices, vec![11, 12, 12, 11]);
    let xs: Vec<f32> = text_box.glyph_positions.iter().map(|g| g.offset.x).collect();
    assert_eq!(xs, vec![0.0, 8.0, 15.0, 22.0]);

    // a current layout is kept
    let other = cache_of(16, &[('a', glyph((1, 0), 99)), ('b', glyph((1, 0), 98))]);
    text_box.calculate_layout(&other);
    assert_eq!(text_box.glyph_positions.len(), 4);
    assert_eq!(text_box.glyph_positions[0].glyph_index, 11);
}

#[test]
fn layout_needs_every_character_cached_at_the_box_height() {
    let mut text_box = hexxengine::ui::TextBox::new(FontHandle(0));
    text_box.set_text("ab".to_string());
    assert!(!text_box.layout_ready(&cache_of(16, &[('a', glyph((8, 0), 1))])));
    assert!(!text_box.layout_ready(&cache_of(12, &[('a', glyph((8, 0), 1)), ('b', glyph((8, 0), 2))])));
    assert!(!text_box.layout_ready(&cache_of(16, &[('a', glyph((i32::MAX, 0), 1)), ('b', glyph((1, 0), 2))])));
    assert!(text_box.layout_ready(&cache_of(16, &[('a', glyph((8, 0), 1)), ('b', glyph((8, 0), 2))])));
}

fn hidden_frame() -> Frame {
    Frame { visible: false, ..Frame::default() }
}

#[test]
fn draw_order_is_breadth_first_and_skips_hidden_subtrees() {
    let mut ui_tree = UiTree::new();
    let root = ui_tree.add_element(Frame::default());
    let c1 = ui_tree.add_element(Frame::default());
    let c2 = ui_tree.add_element(Frame::default());
    let hidden = ui_tree.add_element(hidden_frame());
    let g = ui_tree.add_element(Frame::default());
    let under_hidden = ui_tree.add_element(Frame::default());
    let other_root = ui_tree.add_element(Frame::default());
    ui_tree.root(root);
    ui_tree.root(other_root);
    ui_tree.parent(root, c1);
    ui_tree.parent(root, c2);
    ui_tree.parent(root, hidden);
    ui_tree.parent(c1, g);
    ui_tree.parent(hidden, under_hidden);

    assert_eq!(ui_tree.draw_order(), vec![root, other_root, c1, c2, g]);
}

#[test]
fn input_order_is_depth_first_from_the_last_root() {
    let mut ui_tree = UiTree::new();
    let root = ui_tree.add_element(Frame::default());
    let c1 = ui_tree.add_element(Frame::default());
    let c2 = ui_tree.add_element(Frame::default());
    let g = ui_tree.add_element(Frame::default());
    let hidden_root = ui_tree.add_element(hidden_frame());
    ui_tree.root(root);
    ui_tree.root(hidden_root);
    ui_tree.parent(root, c1);
    ui_tree.parent(root, c2);
    ui_tree.parent(c1, g);

    assert_eq!(ui_tree.input_order(), vec![root, c2, c1, g]);
}

#[test]
fn an_empty_tree_has_nothing_to_walk() {
    let ui_tree = UiTree::new();
    assert!(ui_tree.draw_order().is_empty());
    assert!(ui_tree.input_order().is_empty());
}

#[test]
fn new_elements_start_at_the_origin() {
    let frame = Frame::default();
    assert_eq!(frame.color, Vec4::ZERO);
    assert_eq!(frame.anchor, Vec2::ZERO);
    assert_eq!(frame.position.scale, Vec2::ZERO);
    assert_eq!(frame.size.offset, Vec2::ZERO);
    assert!(frame.visible);

    let label = TextLabel::new(FontHandle(3));
    assert_eq!(label.color, Vec4::ZERO);
    assert_eq!(label.background_color, Vec4::ZERO);
    assert_eq!(label.text_box.size, Vec2::ZERO);

    let mut ui_tree = UiTree::new();
    assert_eq!(ui_tree.root_size(), Vec2::ZERO);
    let e = ui_tree.add_element(Frame::default());
    let node = ui_tree.get_element(e).unwrap();
    assert_eq!(node.world_position, Vec2::ZERO);
    assert_eq!(node.world_size, Vec2::ZERO);
}

#[test]
fn layout_offsets_are_the_pen_positions_as_floats() {
    let mut text_box = hexxengine::ui::TextBox::new(FontHandle(0));
    text_box.set_text("xyz".to_string());
    let cache = cache_of(16, &[('x', glyph((8, 0), 1)), ('y', glyph((5, -2), 2)), ('z', glyph((3, 0), 3))]);
    text_box.calculate_layout(&cache);
    let offsets: Vec<Vec2> = text_box.glyph_positions.iter().map(|g| g.offset).collect();
    assert_eq!(offsets, vec![Vec2::new(0.0, 0.0), Vec2::new(8.0, 0.0), Vec2::new(13.0, -2.0)]);
}

#[test]
fn element_count_follows_adds_and_removes() {
    let mut ui_tree = UiTree::new();
    assert_eq!(ui_tree.element_count(), 0);
    let frame = ui_tree.add_element(Frame::default());
    let child = ui_tree.add_element(Frame::default());
    let other = ui_tree.add_element(Frame::default());
    assert_eq!(ui_tree.element_count(), 3);
    ui_tree.parent(frame, child);
    ui_tree.remove(frame);
    assert_eq!(ui_tree.element_count(), 1);
    assert!(ui_tree.get_element(other).is_some());
}
