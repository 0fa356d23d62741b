use hexxengine::handles::{HandlePointer, TransformType, CONE_MESH_BITS, SPHERE_MESH_BITS};
use hexxengine::physics::{gen_userdata, UserdataType};

#[test]
fn hovering_a_handle_and_pressing_drags_it_until_release() {
    let mut pointer = HandlePointer::new();
    let handle2 = gen_userdata(UserdataType::Handle, 7, 2);
    let handle4 = gen_userdata(UserdataType::Handle, 7, 4);
    let part = gen_userdata(UserdataType::Part, 3, 0);

    assert!(!pointer.update(Some(handle2), false));
    assert_eq!(pointer.mouse_hovering_on, Some(2));
    assert_eq!(pointer.mouse_dragging_on, None);
    assert_eq!(pointer.highlighted(), Some(2));

    assert!(pointer.update(None, true));
    assert_eq!(pointer.mouse_dragging_on, Some(2));

    assert!(pointer.update(Some(handle4), true));
    assert_eq!(pointer.mouse_hovering_on, Some(4));
    assert_eq!(pointer.mouse_dragging_on, Some(2));
    assert_eq!(pointer.highlighted(), Some(2));

    assert!(pointer.update(Some(part), true));
    assert_eq!(pointer.mouse_hovering_on, None);
    assert_eq!(pointer.mouse_dragging_on, Some(2));

    assert!(!pointer.update(None, false));
    assert_eq!(pointer.mouse_dragging_on, None);
    assert_eq!(pointer.highlighted(), None);
}

#[test]
fn pressing_over_nothing_drags_nothing() {
    let mut pointer = HandlePointer::new();
    assert!(!pointer.update(None, true));
    assert_eq!(pointer.mouse_dragging_on, None);
    let part = gen_userdata(UserdataType::Part, 1, 5);
    assert!(!pointer.update(Some(part), true));
    assert_eq!(pointer.mouse_hovering_on, None);
}

#[test]
fn handles_are_cones_to_move_and_spheres_to_resize() {
    assert_eq!(TransformType::Position.handle_mesh(), CONE_MESH_BITS);
    assert_eq!(TransformType::Size.handle_mesh(), SPHERE_MESH_BITS);
    assert_eq!(SPHERE_MESH_BITS, (1u64 << 32) | 1);
    assert_eq!(CONE_MESH_BITS, (1u64 << 32) | 2);
}
