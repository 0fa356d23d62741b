use hexxengine::frames::{
    graphics_queue_family, swapchain_image_count, swapchain_image_extent, FrameSchedule,
};

#[test]
fn frames_take_the_slots_in_turn() {
    let mut schedule = FrameSchedule::new();
    assert_eq!(schedule.current_frame(), 0);
    assert!(!schedule.should_resize());

    let mut slots = Vec::new();
    for _ in 0..5 {
        let slot = schedule.begin_frame(7).unwrap();
        assert!(schedule.image_acquired(false));
        slots.push(slot);
        schedule.frame_presented(false);
    }
    assert_eq!(slots, vec![0, 1, 0, 1, 0]);
    assert_eq!(schedule.current_frame(), 5);
}

#[test]
fn a_new_skybox_is_uploaded_once_by_every_slot() {
    let mut schedule = FrameSchedule::new();
    assert_eq!(schedule.begin_frame(3), Some(0));
    assert!(schedule.take_skybox_upload(0));
    assert!(!schedule.take_skybox_upload(0));
    schedule.frame_presented(false);

    assert_eq!(schedule.begin_frame(3), Some(1));
    assert!(schedule.take_skybox_upload(1));
    schedule.frame_presented(false);

    assert_eq!(schedule.begin_frame(3), Some(0));
    assert!(!schedule.take_skybox_upload(0));
    schedule.frame_presented(false);

    assert_eq!(schedule.begin_frame(4), Some(1));
    assert!(schedule.take_skybox_upload(1));
    assert!(schedule.take_skybox_upload(0));
}

#[test]
fn no_frame_is_drawn_while_a_resize_is_pending() {
    let mut schedule = FrameSchedule::new();
    assert_eq!(schedule.begin_frame(0), Some(0));
    assert!(!schedule.image_acquired(true));
    assert!(schedule.should_resize());
    assert_eq!(schedule.current_frame(), 0);

    assert_eq!(schedule.begin_frame(1), None);
    schedule.swapchain_recreated(true);
    assert!(schedule.should_resize());
    assert_eq!(schedule.begin_frame(1), None);

    schedule.swapchain_recreated(false);
    assert!(!schedule.should_resize());
    assert_eq!(schedule.begin_frame(1), Some(0));
}

#[test]
fn presenting_to_an_out_of_date_swapchain_still_ends_the_frame() {
    let mut schedule = FrameSchedule::new();
    assert_eq!(schedule.begin_frame(0), Some(0));
    assert!(schedule.image_acquired(false));
    schedule.frame_presented(true);
    assert_eq!(schedule.current_frame(), 1);
    assert!(schedule.should_resize());
    assert_eq!(schedule.begin_frame(0), None);
}

#[test]
fn swapchain_extent_follows_the_surface_or_the_window() {
    assert_eq!(swapchain_image_extent((1024, 768), (800, 600)), (1024, 768));
    assert_eq!(swapchain_image_extent((u32::MAX, u32::MAX), (800, 600)), (800, 600));
    assert_eq!(swapchain_image_extent((u32::MAX, u32::MAX), (800, 0)), (800, 1));
    assert_eq!(swapchain_image_extent((0, 0), (800, 600)), (1, 1));
    assert_eq!(swapchain_image_count(2), 3);
}

#[test]
fn the_first_family_with_graphics_and_presentation_is_chosen() {
    let families = [(true, false), (false, true), (true, true), (true, true)];
    assert_eq!(graphics_queue_family(&families), Some(2));
    assert_eq!(graphics_queue_family(&[(true, false), (false, false)]), None);
    assert_eq!(graphics_queue_family(&[]), None);
}
