use glam::Vec2;
use hexxengine::input::{ElementState, InputEvent, InputHandler, InputState, MouseButton, ScrollDelta};
use winit::keyboard::KeyCode;

#[test]
fn should_handle_key_events() {
    let mut input_handler = InputHandler::new();

    input_handler.simulate_event(InputEvent::KeyboardEvent {
        key: KeyCode::KeyW,
        state: InputState::Pressed,
    });

    assert_eq!(input_handler.key_pressed(KeyCode::KeyW), true);

    input_handler.simulate_event(InputEvent::KeyboardEvent {
        key: KeyCode::KeyW,
        state: InputState::Released,
    });

    assert_eq!(input_handler.key_pressed(KeyCode::KeyW), false)
}

#[test]
fn key_input_holds_and_releases_keys() {
    let mut h = InputHandler::new();
    h.key_input(KeyCode::KeyA, ElementState::Pressed);
    h.key_input(KeyCode::KeyB, ElementState::Pressed);
    assert!(h.is_key_down(KeyCode::KeyA));
    assert!(h.is_key_down(KeyCode::KeyB));
    assert!(h.key_pressed(KeyCode::KeyA));

    h.key_input(KeyCode::KeyA, ElementState::Released);
    assert!(!h.is_key_down(KeyCode::KeyA));
    assert!(h.is_key_down(KeyCode::KeyB));
    assert!(h.key_release(KeyCode::KeyA));
    assert!(!h.key_pressed(KeyCode::KeyA));
    assert_eq!(h.get_input_events().len(), 3);
}

#[test]
fn pressing_twice_keeps_one_entry() {
    let mut h = InputHandler::new();
    h.key_input(KeyCode::KeyA, ElementState::Pressed);
    h.key_input(KeyCode::KeyA, ElementState::Pressed);
    assert_eq!(h.keys_down.len(), 1);
    h.key_input(KeyCode::KeyA, ElementState::Released);
    assert_eq!(h.keys_down.len(), 0);
    assert!(!h.is_key_down(KeyCode::KeyA));
}

#[test]
fn raw_key_input_logs_nothing() {
    let mut h = InputHandler::new();
    h.raw_key_input(KeyCode::Space, ElementState::Pressed);
    assert!(h.is_key_down(KeyCode::Space));
    assert_eq!(h.get_input_events().len(), 0);
    assert!(!h.key_pressed(KeyCode::Space));
}

#[test]
fn clear_events_keeps_keys_down() {
    let mut h = InputHandler::new();
    h.key_input(KeyCode::KeyW, ElementState::Pressed);
    h.mouse_input(&MouseButton::Left, &ElementState::Pressed);
    h.mouse_wheel(ScrollDelta(7));
    h.clear_events();
    assert!(h.is_key_down(KeyCode::KeyW));
    assert!(h.mouse_button_down(MouseButton::Left));
    assert_eq!(h.get_input_events().len(), 0);
    assert!(!h.key_pressed(KeyCode::KeyW));
    assert!(h.left_mouse_state().is_none());
    assert_eq!(h.input_event_record.scroll_delta, ScrollDelta(0));
}

#[test]
fn mouse_buttons_are_recorded_per_button() {
    let mut h = InputHandler::new();
    h.mouse_input(&MouseButton::Left, &ElementState::Pressed);
    assert!(h.mouse_button_down(MouseButton::Left));
    assert!(!h.mouse_button_down(MouseButton::Right));
    assert!(h.mouse_button_pressed(MouseButton::Left));
    assert!(!h.mouse_button_pressed(MouseButton::Right));
    assert!(!h.mouse_button_released(MouseButton::Left));

    h.mouse_input(&MouseButton::Middle, &ElementState::Released);
    assert!(h.mouse_button_released(MouseButton::Middle));
    assert!(h.middle_mouse_state().is_some());
    assert!(!h.mouse_button_released(MouseButton::Back));

    h.mouse_input(&MouseButton::Left, &ElementState::Released);
    assert!(!h.mouse_button_down(MouseButton::Left));
    assert!(h.mouse_button_released(MouseButton::Left));
    assert_eq!(h.left_mouse_state().unwrap().state, InputState::Released);
}

#[test]
fn take_input_events_empties_the_log() {
    let mut h = InputHandler::new();
    h.mouse_wheel(ScrollDelta(1));
    h.key_input(KeyCode::KeyQ, ElementState::Pressed);
    let events = h.take_input_events();
    assert_eq!(events.len(), 2);
    assert!(matches!(events[0], InputEvent::MouseScrollEvent { delta: ScrollDelta(1) }));
    assert!(matches!(events[1], InputEvent::KeyboardEvent { key: KeyCode::KeyQ, state: InputState::Pressed }));
    assert_eq!(h.get_input_events().len(), 0);
    assert!(h.key_pressed(KeyCode::KeyQ));
}

#[test]
fn last_key_event_wins() {
    let mut h = InputHandler::new();
    h.simulate_event(InputEvent::KeyboardEvent { key: KeyCode::KeyE, state: InputState::Released });
    h.simulate_event(InputEvent::KeyboardEvent { key: KeyCode::KeyE, state: InputState::Pressed });
    assert!(h.key_pressed(KeyCode::KeyE));
    assert!(!h.key_release(KeyCode::KeyE));
    assert!(!h.is_key_down(KeyCode::KeyE));
}

#[test]
fn left_press_position_reads_the_first_button_event() {
    let p = Vec2::new(50.0, 40.0);
    let q = Vec2::new(1.0, 2.0);
    let events = [
        InputEvent::KeyboardEvent { key: KeyCode::KeyA, state: InputState::Pressed },
        InputEvent::MouseButtonEvent { button: MouseButton::Left, state: InputState::Pressed, position: p },
        InputEvent::MouseButtonEvent { button: MouseButton::Right, state: InputState::Pressed, position: q },
    ];
    assert_eq!(hexxengine::input::left_press_position(&events), Some(p));

    let right_first = [
        InputEvent::MouseScrollEvent { delta: ScrollDelta(3) },
        InputEvent::MouseButtonEvent { button: MouseButton::Right, state: InputState::Pressed, position: q },
        InputEvent::MouseButtonEvent { button: MouseButton::Left, state: InputState::Pressed, position: p },
    ];
    assert_eq!(hexxengine::input::left_press_position(&right_first), None);

    let released = [InputEvent::MouseButtonEvent { button: MouseButton::Left, state: InputState::Released, position: p }];
    assert_eq!(hexxengine::input::left_press_position(&released), None);
    assert_eq!(hexxengine::input::left_press_position(&[]), None);
}

#[test]
fn a_new_handler_has_the_pointer_at_rest_at_the_origin() {
    let mut handler = InputHandler::new();
    assert_eq!(handler.mouse_position, Vec2::ZERO);
    assert_eq!(handler.mouse_delta, glam::Vec3::ZERO);
    handler.mouse_delta = glam::Vec3::new(3.0, -1.0, 0.0);
    handler.clear();
    assert_eq!(handler.mouse_delta, glam::Vec3::ZERO);
}
