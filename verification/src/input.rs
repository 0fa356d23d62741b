use glam::{IVec2, IVec3, Vec2, Vec3};
use winit::keyboard::KeyCode;

use vstd::prelude::*;

verus! {

#[verifier::external_type_specification]
#[verifier::external_body]
pub struct ExKeyCode(KeyCode);

#[verifier::external_type_specification]
#[verifier::external_body]
pub struct ExVec2(Vec2);

#[verifier::external_type_specification]
#[verifier::external_body]
pub struct ExVec3(Vec3);

/// Compares two key codes with `KeyCode`'s `==`, which winit derives on a
/// field-less enum: true exactly when they are the same key.
#[verifier::external_body]
fn key_code_eq(a: &KeyCode, b: &KeyCode) -> (r: bool)
    ensures
        r == (*a == *b),
{
    *a == *b
}

/// The float vector glam makes of the integer point (`x`, `y`)
/// (`IVec2::as_vec2`): each coordinate converted to the nearest `f32`.
pub uninterp spec fn ivec2_as_vec2(x: i32, y: i32) -> Vec2;

/// The point (`x`, `y`) as a glam vector of floats (`IVec2::as_vec2`), a
/// function of the two integers alone.
#[verifier::external_body]
pub(crate) fn vec2_of_ints(x: i32, y: i32) -> (r: Vec2)
    ensures
        r == ivec2_as_vec2(x, y),
{
    IVec2::new(x, y).as_vec2()
}

/// The float vector glam makes of the integer point (`x`, `y`, `z`)
/// (`IVec3::as_vec3`): each coordinate converted to the nearest `f32`.
pub uninterp spec fn ivec3_as_vec3(x: i32, y: i32, z: i32) -> Vec3;

/// The point (`x`, `y`, `z`) as a glam vector of floats (`IVec3::as_vec3`),
/// a function of the three integers alone.
#[verifier::external_body]
fn vec3_of_ints(x: i32, y: i32, z: i32) -> (r: Vec3)
    ensures
        r == ivec3_as_vec3(x, y, z),
{
    IVec3::new(x, y, z).as_vec3()
}

/// The zero vector of the plane.
pub open spec fn zero2() -> Vec2 {
    ivec2_as_vec2(0, 0)
}

/// The zero vector of space.
pub open spec fn zero3() -> Vec3 {
    ivec3_as_vec3(0, 0, 0)
}

/// The zero vector of the plane, as glam makes it of the integer origin.
pub(crate) fn vec2_zero() -> (r: Vec2)
    ensures
        r == zero2(),
{
    vec2_of_ints(0, 0)
}

/// The zero vector of space, as glam makes it of the integer origin.
fn vec3_zero() -> (r: Vec3)
    ensures
        r == zero3(),
{
    vec3_of_ints(0, 0, 0)
}

/// Whether a physical key or button is down or up.
#[derive(Debug, Clone, Copy, PartialEq, Eq, Hash, Structural)]
pub enum ElementState {
    Pressed,
    Released,
}

/// The event state that a physical state is reported as.
pub open spec fn spec_input_state(state: ElementState) -> InputState {
    match state {
        ElementState::Pressed => InputState::Pressed,
        ElementState::Released => InputState::Released,
    }
}

/// Whether a key or button went down or up.
#[derive(Debug, Clone, Copy, PartialEq, Eq, Structural)]
pub enum InputState {
    Pressed,
    Released,
    Changed,
}

/// A mouse button.
#[derive(Debug, Clone, Copy, PartialEq, Eq, Hash, Structural)]
pub enum MouseButton {
    Left,
    Right,
    Middle,
    Back,
    Forward,
    Other(u16),
}

/// A scroll amount, held as the bit pattern of the `f32` it stands for.
#[derive(Debug, Clone, Copy, PartialEq, Eq, Structural)]
pub struct ScrollDelta(pub u32);

/// An input event as it was logged this frame.
#[derive(Debug, Clone, Copy)]
pub enum InputEvent {
    MouseButtonEvent { button: MouseButton, state: InputState, position: Vec2 },
    MouseScrollEvent { delta: ScrollDelta },
    KeyboardEvent { key: KeyCode, state: InputState },
}

/// A mouse button press or release, with where the pointer was.
#[derive(Clone, Copy)]
pub struct MouseButtonEvent {
    pub button: MouseButton,
    pub state: InputState,
    pub position: Vec2,
}

/// The last event of each kind seen this frame.
pub struct InputEventRecord {
    pub key_states: Vec<(KeyCode, InputState)>,
    pub scroll_delta: ScrollDelta,
    pub left_mouse: Option<MouseButtonEvent>,
    pub middle_mouse: Option<MouseButtonEvent>,
    pub right_mouse: Option<MouseButtonEvent>,
}

impl InputEventRecord {
    /// Nothing recorded yet.
    pub open spec fn is_clear(&self) -> bool {
        &&& self.key_states@ == Seq::<(KeyCode, InputState)>::empty()
        &&& self.scroll_delta == ScrollDelta(0)
        &&& self.left_mouse is None
        &&& self.middle_mouse is None
        &&& self.right_mouse is None
    }

    /// A record of nothing.
    pub fn new() -> (r: Self)
        ensures
            r.is_clear(),
    {
        InputEventRecord {
            key_states: Vec::new(),
            scroll_delta: ScrollDelta(0),
            left_mouse: None,
            middle_mouse: None,
            right_mouse: None,
        }
    }

    /// Forgets everything recorded.
    pub fn clear(&mut self)
        ensures
            final(self).is_clear(),
    {
        self.key_states.clear();
        self.scroll_delta = ScrollDelta(0);
        self.left_mouse = None;
        self.middle_mouse = None;
        self.right_mouse = None;
    }
}

/// The map an association list of key states stands for; later entries win.
pub open spec fn key_map(s: Seq<(KeyCode, InputState)>) -> Map<KeyCode, InputState>
    decreases s.len(),
{
    if s.len() == 0 {
        Map::empty()
    } else {
        key_map(s.drop_last()).insert(s.last().0, s.last().1)
    }
}

/// No key occurs twice.
pub open spec fn unique_key_states(s: Seq<(KeyCode, InputState)>) -> bool {
    forall|i: int, j: int| 0 <= i < s.len() && 0 <= j < s.len() && i != j ==> s[i].0 != s[j].0
}

/// No key occurs twice.
pub open spec fn unique_keys(s: Seq<KeyCode>) -> bool {
    forall|i: int, j: int| 0 <= i < s.len() && 0 <= j < s.len() && i != j ==> s[i] != s[j]
}

proof fn lemma_key_map(s: Seq<(KeyCode, InputState)>)
    requires
        unique_key_states(s),
    ensures
        forall|k: KeyCode| key_map(s).contains_key(k) <==> exists|i: int| 0 <= i < s.len() && s[i].0 == k,
        forall|i: int| 0 <= i < s.len() ==> #[trigger] key_map(s)[s[i].0] == s[i].1,
        forall|i: int| 0 <= i < s.len() ==> key_map(s).contains_key(#[trigger] s[i].0),
    decreases s.len(),
{
    if s.len() > 0 {
        let t = s.drop_last();
        assert(unique_key_states(t));
        lemma_key_map(t);
        assert(key_map(s) == key_map(t).insert(s.last().0, s.last().1));
        assert forall|k: KeyCode| key_map(s).contains_key(k) <==> exists|i: int| 0 <= i < s.len() && s[i].0 == k by {
            if key_map(s).contains_key(k) {
                if k == s.last().0 {
                    assert(s[s.len() - 1].0 == k);
                } else {
                    assert(key_map(t).contains_key(k));
                    let i = choose|i: int| 0 <= i < t.len() && t[i].0 == k;
                    assert(t[i] == s[i]);
                }
            }
            if exists|i: int| 0 <= i < s.len() && s[i].0 == k {
                let i = choose|i: int| 0 <= i < s.len() && s[i].0 == k;
                if i < s.len() - 1 {
                    assert(t[i] == s[i]);
                    assert(key_map(t).contains_key(t[i].0));
                }
            }
        }
        assert forall|i: int| 0 <= i < s.len() implies #[trigger] key_map(s)[s[i].0] == s[i].1 by {
            if i < s.len() - 1 {
                assert(t[i] == s[i]);
                assert(key_map(t)[t[i].0] == t[i].1);
            }
        }
        assert forall|i: int| 0 <= i < s.len() implies key_map(s).contains_key(#[trigger] s[i].0) by {
            if i < s.len() - 1 {
                assert(t[i] == s[i]);
                assert(key_map(t).contains_key(t[i].0));
            }
        }
    }
}

/// Keyboard and mouse state, and the events of the current frame.
pub struct InputHandler {
    pub keys_down: Vec<KeyCode>,
    pub right_mouse_down: bool,
    pub left_mouse_down: bool,
    pub mouse_position: Vec2,
    pub mouse_delta: Vec3,
    pub input_event_log: Vec<InputEvent>,
    pub input_event_record: InputEventRecord,
}

/// The record of the current frame for a button, if it is one that is recorded.
pub open spec fn recorded_for(rec: InputEventRecord, button: MouseButton) -> Option<Option<MouseButtonEvent>> {
    match button {
        MouseButton::Left => Some(rec.left_mouse),
        MouseButton::Right => Some(rec.right_mouse),
        MouseButton::Middle => Some(rec.middle_mouse),
        _ => None,
    }
}

impl InputHandler {
    /// The keys held down.
    pub open spec fn down_set(&self) -> Set<KeyCode> {
        Set::new(|k: KeyCode| self.keys_down@.contains(k))
    }

    /// The last state seen this frame of each key that had an event.
    pub open spec fn key_state_map(&self) -> Map<KeyCode, InputState> {
        key_map(self.input_event_record.key_states@)
    }

    /// The invariant every operation keeps.
    pub open spec fn wf(&self) -> bool {
        &&& unique_keys(self.keys_down@)
        &&& unique_key_states(self.input_event_record.key_states@)
    }

    /// The record after `e` was seen.
    pub open spec fn records(&self, old: InputHandler, e: InputEvent) -> bool {
        let r = self.input_event_record;
        let o = old.input_event_record;
        match e {
            InputEvent::MouseButtonEvent { button, state, position } => {
                let m = MouseButtonEvent { button, state, position };
                &&& self.key_state_map() == old.key_state_map()
                &&& r.scroll_delta == o.scroll_delta
                &&& r.left_mouse == if button == MouseButton::Left { Some(m) } else { o.left_mouse }
                &&& r.right_mouse == if button == MouseButton::Right { Some(m) } else { o.right_mouse }
                &&& r.middle_mouse == if button == MouseButton::Middle { Some(m) } else { o.middle_mouse }
            },
            InputEvent::MouseScrollEvent { delta } => {
                &&& self.key_state_map() == old.key_state_map()
                &&& r.scroll_delta == delta
                &&& r.left_mouse == o.left_mouse
                &&& r.right_mouse == o.right_mouse
                &&& r.middle_mouse == o.middle_mouse
            },
            InputEvent::KeyboardEvent { key, state } => {
                &&& self.key_state_map() == old.key_state_map().insert(key, state)
                &&& r.scroll_delta == o.scroll_delta
                &&& r.left_mouse == o.left_mouse
                &&& r.right_mouse == o.right_mouse
                &&& r.middle_mouse == o.middle_mouse
            },
        }
    }

    /// No key down, no button down, no events.
    pub fn new() -> (r: Self)
        ensures
            r.wf(),
            r.down_set() == Set::<KeyCode>::empty(),
            !r.right_mouse_down,
            !r.left_mouse_down,
            r.input_event_log@ == Seq::<InputEvent>::empty(),
            r.key_state_map() == Map::<KeyCode, InputState>::empty(),
            r.input_event_record.scroll_delta == ScrollDelta(0),
            r.input_event_record.left_mouse is None,
            r.input_event_record.middle_mouse is None,
            r.input_event_record.right_mouse is None,
            r.mouse_position == zero2(),
            r.mouse_delta == zero3(),
    {
        let r = Self {
            keys_down: Vec::new(),
            right_mouse_down: false,
            left_mouse_down: false,
            mouse_position: vec2_zero(),
            mouse_delta: vec3_zero(),
            input_event_log: Vec::new(),
            input_event_record: InputEventRecord::new(),
        };
        assert(r.down_set() =~= Set::<KeyCode>::empty());
        r
    }

    /// Forgets the mouse motion and the events of this frame.
    pub fn clear(&mut self)
        requires
            old(self).wf(),
        ensures
            final(self).wf(),
            final(self).events_cleared(),
            final(self).keys_down == old(self).keys_down,
            final(self).left_mouse_down == old(self).left_mouse_down,
            final(self).right_mouse_down == old(self).right_mouse_down,
            final(self).mouse_position == old(self).mouse_position,
            final(self).mouse_delta == zero3(),
    {
        self.mouse_delta = vec3_zero();
        self.clear_events();
    }

    /// No event is logged or recorded.
    pub open spec fn events_cleared(&self) -> bool {
        &&& self.input_event_log@ == Seq::<InputEvent>::empty()
        &&& self.key_state_map() == Map::<KeyCode, InputState>::empty()
        &&& self.input_event_record.scroll_delta == ScrollDelta(0)
        &&& self.input_event_record.left_mouse is None
        &&& self.input_event_record.middle_mouse is None
        &&& self.input_event_record.right_mouse is None
    }

    /// A key went down or up, without an event being logged.
    pub fn raw_key_input(&mut self, key: KeyCode, state: ElementState)
        requires
            old(self).wf(),
        ensures
            final(self).wf(),
            final(self).down_set() == if state == ElementState::Pressed { old(self).down_set().insert(key) } else { old(self).down_set().remove(key) },
            final(self).input_event_log == old(self).input_event_log,
            final(self).input_event_record == old(self).input_event_record,
            final(self).left_mouse_down == old(self).left_mouse_down,
            final(self).right_mouse_down == old(self).right_mouse_down,
            final(self).mouse_position == old(self).mouse_position,
            final(self).mouse_delta == old(self).mouse_delta,
    {
        match state {
            ElementState::Pressed => insert_key(&mut self.keys_down, key),
            ElementState::Released => remove_key(&mut self.keys_down, key),
        }
        proof {
            if state == ElementState::Pressed {
                assert(self.down_set() =~= old(self).down_set().insert(key));
            } else {
                assert(self.down_set() =~= old(self).down_set().remove(key));
            }
        }
    }

    /// A key went down or up: it is held down or not, and the event is logged.
    pub fn key_input(&mut self, key: KeyCode, state: ElementState)
        requires
            old(self).wf(),
        ensures
            final(self).wf(),
            final(self).down_set() == if state == ElementState::Pressed { old(self).down_set().insert(key) } else { old(self).down_set().remove(key) },
            final(self).records(*old(self), InputEvent::KeyboardEvent { key, state: spec_input_state(state) }),
            final(self).input_event_log@ == old(self).input_event_log@.push(InputEvent::KeyboardEvent { key, state: spec_input_state(state) }),
            final(self).left_mouse_down == old(self).left_mouse_down,
            final(self).right_mouse_down == old(self).right_mouse_down,
            final(self).mouse_position == old(self).mouse_position,
            final(self).mouse_delta == old(self).mouse_delta,
    {
        self.raw_key_input(key, state);
        let input_state = match state {
            ElementState::Pressed => InputState::Pressed,
            ElementState::Released => InputState::Released,
        };
        self.log_event(InputEvent::KeyboardEvent { key, state: input_state });
    }

    /// A mouse button went down or up at the current pointer position.
    pub fn mouse_input(&mut self, mouse_button: &MouseButton, state: &ElementState)
        requires
            old(self).wf(),
        ensures
            final(self).wf(),
            final(self).left_mouse_down == if *mouse_button == MouseButton::Left { *state == ElementState::Pressed } else { old(self).left_mouse_down },
            final(self).right_mouse_down == if *mouse_button == MouseButton::Right { *state == ElementState::Pressed } else { old(self).right_mouse_down },
            final(self).records(*old(self), InputEvent::MouseButtonEvent { button: *mouse_button, state: spec_input_state(*state), position: old(self).mouse_position }),
            final(self).input_event_log@ == old(self).input_event_log@.push(InputEvent::MouseButtonEvent { button: *mouse_button, state: spec_input_state(*state), position: old(self).mouse_position }),
            final(self).keys_down == old(self).keys_down,
            final(self).mouse_position == old(self).mouse_position,
            final(self).mouse_delta == old(self).mouse_delta,
    {
        let down_state = match state {
            ElementState::Pressed => true,
            ElementState::Released => false,
        };
        match mouse_button {
            MouseButton::Left => self.left_mouse_down = down_state,
            MouseButton::Right => {
                self.right_mouse_down = down_state;
            },
            _ => {},
        }
        let input_state = match state {
            ElementState::Pressed => InputState::Pressed,
            ElementState::Released => InputState::Released,
        };
        let mouse_button_event = InputEvent::MouseButtonEvent {
            button: *mouse_button,
            state: input_state,
            position: self.mouse_position,
        };
        self.log_event(mouse_button_event);
    }

    /// The wheel scrolled by `delta`.
    pub fn mouse_wheel(&mut self, delta: ScrollDelta)
        requires
            old(self).wf(),
        ensures
            final(self).wf(),
            final(self).records(*old(self), InputEvent::MouseScrollEvent { delta }),
            final(self).input_event_log@ == old(self).input_event_log@.push(InputEvent::MouseScrollEvent { delta }),
            final(self).keys_down == old(self).keys_down,
            final(self).left_mouse_down == old(self).left_mouse_down,
            final(self).right_mouse_down == old(self).right_mouse_down,
            final(self).mouse_position == old(self).mouse_position,
            final(self).mouse_delta == old(self).mouse_delta,
    {
        self.log_event(InputEvent::MouseScrollEvent { delta });
    }

    /// The last left-button event this frame.
    pub fn left_mouse_state(&self) -> (r: Option<MouseButtonEvent>)
        ensures
            r == self.input_event_record.left_mouse,
    {
        self.input_event_record.left_mouse
    }

    /// The last right-button event this frame.
    pub fn right_mouse_state(&self) -> (r: Option<MouseButtonEvent>)
        ensures
            r == self.input_event_record.right_mouse,
    {
        self.input_event_record.right_mouse
    }

    /// The last middle-button event this frame.
    pub fn middle_mouse_state(&self) -> (r: Option<MouseButtonEvent>)
        ensures
            r == self.input_event_record.middle_mouse,
    {
        self.input_event_record.middle_mouse
    }

    /// Whether the left or right button is held down (no other button is tracked).
    pub fn mouse_button_down(&self, mouse_button: MouseButton) -> (r: bool)
        requires
            mouse_button == MouseButton::Left || mouse_button == MouseButton::Right,
        ensures
            r == if mouse_button == MouseButton::Left { self.left_mouse_down } else { self.right_mouse_down },
    {
        match mouse_button {
            MouseButton::Left => self.left_mouse_down,
            _ => self.right_mouse_down,
        }
    }

    /// Whether the last event this frame of a left, right or middle button was a press.
    pub fn mouse_button_pressed(&self, mouse_button: MouseButton) -> (r: bool)
        requires
            recorded_for(self.input_event_record, mouse_button) is Some,
        ensures
            r == (recorded_for(self.input_event_record, mouse_button)->0 matches Some(e) && e.state == InputState::Pressed),
            mouse_button == MouseButton::Left ==> r == (self.input_event_record.left_mouse matches Some(e) && e.state == InputState::Pressed),
            mouse_button == MouseButton::Right ==> r == (self.input_event_record.right_mouse matches Some(e) && e.state == InputState::Pressed),
            mouse_button == MouseButton::Middle ==> r == (self.input_event_record.middle_mouse matches Some(e) && e.state == InputState::Pressed),
    {
        let to_check = match mouse_button {
            MouseButton::Left => self.input_event_record.left_mouse,
            MouseButton::Right => self.input_event_record.right_mouse,
            _ => self.input_event_record.middle_mouse,
        };
        match to_check {
            Some(event) => event.state == InputState::Pressed,
            None => false,
        }
    }

    /// Whether the last event this frame of a left, right or middle button was
    /// a release; false for other buttons.
    pub fn mouse_button_released(&self, mouse_button: MouseButton) -> (r: bool)
        ensures
            r == (recorded_for(self.input_event_record, mouse_button) matches Some(Some(e)) && e.state == InputState::Released),
            mouse_button == MouseButton::Left ==> r == (self.input_event_record.left_mouse matches Some(e) && e.state == InputState::Released),
            mouse_button == MouseButton::Right ==> r == (self.input_event_record.right_mouse matches Some(e) && e.state == InputState::Released),
            mouse_button == MouseButton::Middle ==> r == (self.input_event_record.middle_mouse matches Some(e) && e.state == InputState::Released),
    {
        let to_check = match mouse_button {
            MouseButton::Left => self.input_event_record.left_mouse,
            MouseButton::Right => self.input_event_record.right_mouse,
            MouseButton::Middle => self.input_event_record.middle_mouse,
            _ => {
                return false;
            },
        };
        match to_check {
            Some(event) => event.state == InputState::Released,
            None => false,
        }
    }

    /// Whether the last event of `key` this frame was a press.
    pub fn key_pressed(&self, key: KeyCode) -> (r: bool)
        requires
            self.wf(),
        ensures
            r == (self.key_state_map().contains_key(key) && self.key_state_map()[key] == InputState::Pressed),
    {
        match get_key_state(&self.input_event_record.key_states, &key) {
            Some(s) => s == InputState::Pressed,
            None => false,
        }
    }

    /// Whether the last event of `key` this frame was a release.
    pub fn key_release(&self, key: KeyCode) -> (r: bool)
        requires
            self.wf(),
        ensures
            r == (self.key_state_map().contains_key(key) && self.key_state_map()[key] == InputState::Released),
    {
        match get_key_state(&self.input_event_record.key_states, &key) {
            Some(s) => s == InputState::Released,
            None => false,
        }
    }

    /// Whether `code` is held down.
    pub fn is_key_down(&self, code: KeyCode) -> (r: bool)
        ensures
            r == self.down_set().contains(code),
    {
        contains_key(&self.keys_down, &code).is_some()
    }

    /// Forgets the events of this frame.
    pub fn clear_events(&mut self)
        requires
            old(self).wf(),
        ensures
            final(self).wf(),
            final(self).events_cleared(),
            final(self).keys_down == old(self).keys_down,
            final(self).left_mouse_down == old(self).left_mouse_down,
            final(self).right_mouse_down == old(self).right_mouse_down,
            final(self).mouse_position == old(self).mouse_position,
            final(self).mouse_delta == old(self).mouse_delta,
    {
        self.input_event_log.clear();
        self.input_event_record.clear();
        assert(self.key_state_map() =~= Map::<KeyCode, InputState>::empty());
    }

    /// The events of this frame, oldest first.
    pub fn get_input_events(&self) -> (r: &[InputEvent])
        ensures
            r@ == self.input_event_log@,
    {
        self.input_event_log.as_slice()
    }

    /// Hands over the events of this frame, leaving the log empty.
    pub fn take_input_events(&mut self) -> (r: Vec<InputEvent>)
        ensures
            r@ == old(self).input_event_log@,
            final(self).input_event_log@ == Seq::<InputEvent>::empty(),
            final(self).input_event_record == old(self).input_event_record,
            final(self).keys_down == old(self).keys_down,
            final(self).left_mouse_down == old(self).left_mouse_down,
            final(self).right_mouse_down == old(self).right_mouse_down,
            final(self).mouse_position == old(self).mouse_position,
            final(self).mouse_delta == old(self).mouse_delta,
    {
        let mut taken: Vec<InputEvent> = Vec::new();
        std::mem::swap(&mut taken, &mut self.input_event_log);
        taken
    }

    /// Logs `event` as if it had come from the window.
    pub fn simulate_event(&mut self, event: InputEvent)
        requires
            old(self).wf(),
        ensures
            final(self).wf(),
            final(self).records(*old(self), event),
            final(self).input_event_log@ == old(self).input_event_log@.push(event),
            final(self).keys_down == old(self).keys_down,
            final(self).left_mouse_down == old(self).left_mouse_down,
            final(self).right_mouse_down == old(self).right_mouse_down,
            final(self).mouse_position == old(self).mouse_position,
            final(self).mouse_delta == old(self).mouse_delta,
    {
        self.log_event(event);
    }

    /// Records `input_event` as the latest of its kind and appends it to the log.
    fn log_event(&mut self, input_event: InputEvent)
        requires
            old(self).wf(),
        ensures
            final(self).wf(),
            final(self).records(*old(self), input_event),
            final(self).input_event_log@ == old(self).input_event_log@.push(input_event),
            final(self).keys_down == old(self).keys_down,
            final(self).left_mouse_down == old(self).left_mouse_down,
            final(self).right_mouse_down == old(self).right_mouse_down,
            final(self).mouse_position == old(self).mouse_position,
            final(self).mouse_delta == old(self).mouse_delta,
    {
        match input_event {
            InputEvent::MouseButtonEvent { button, state, position } => {
                let mouse_input_event = MouseButtonEvent { button, state, position };
                match button {
                    MouseButton::Left => {
                        self.input_event_record.left_mouse = Some(mouse_input_event);
                    },
                    MouseButton::Right => {
                        self.input_event_record.right_mouse = Some(mouse_input_event);
                    },
                    MouseButton::Middle => {
                        self.input_event_record.middle_mouse = Some(mouse_input_event);
                    },
                    _ => {},
                }
            },
            InputEvent::MouseScrollEvent { delta } => {
                self.input_event_record.scroll_delta = delta;
            },
            InputEvent::KeyboardEvent { key, state } => {
                set_key_state(&mut self.input_event_record.key_states, key, state);
            },
        }
        self.input_event_log.push(input_event);
    }
}

/// The state of `key` in the association list, if it has one.
fn get_key_state(states: &Vec<(KeyCode, InputState)>, key: &KeyCode) -> (r: Option<InputState>)
    requires
        unique_key_states(states@),
    ensures
        r == if key_map(states@).contains_key(*key) { Some(key_map(states@)[*key]) } else { None },
{
    proof {
        lemma_key_map(states@);
    }
    let n = states.len();
    for i in 0..n
        invariant
            n == states@.len(),
            unique_key_states(states@),
            forall|j: int| 0 <= j < i ==> (#[trigger] states@[j]).0 != *key,
    {
        if key_code_eq(&states[i].0, key) {
            proof {
                lemma_key_map(states@);
                assert(key_map(states@)[states@[i as int].0] == states@[i as int].1);
            }
            return Some(states[i].1);
        }
    }
    None
}

/// Whether `key` is in the list.
fn contains_key(keys: &Vec<KeyCode>, key: &KeyCode) -> (r: Option<usize>)
    ensures
        match r {
            Some(i) => i < keys@.len() && keys@[i as int] == *key,
            None => !keys@.contains(*key),
        },
{
    let n = keys.len();
    for i in 0..n
        invariant
            n == keys@.len(),
            forall|j: int| 0 <= j < i ==> keys@[j] != *key,
    {
        if key_code_eq(&keys[i], key) {
            return Some(i);
        }
    }
    None
}

/// Adds `key` to the set of keys held down.
fn insert_key(keys: &mut Vec<KeyCode>, key: KeyCode)
    requires
        unique_keys(old(keys)@),
    ensures
        unique_keys(final(keys)@),
        forall|k: KeyCode| final(keys)@.contains(k) <==> (old(keys)@.contains(k) || k == key),
{
    match contains_key(keys, &key) {
        Some(i) => {},
        None => {
            let ghost s0 = keys@;
            keys.push(key);
            proof {
                let s1 = keys@;
                assert forall|a: int, b: int| 0 <= a < s1.len() && 0 <= b < s1.len() && a != b implies s1[a] != s1[b] by {
                    if a < s0.len() && b < s0.len() {
                        assert(s1[a] == s0[a] && s1[b] == s0[b]);
                    } else if a < s0.len() {
                        assert(s1[a] == s0[a]);
                        assert(s0.contains(s0[a]));
                    } else {
                        assert(s1[b] == s0[b]);
                        assert(s0.contains(s0[b]));
                    }
                }
                assert forall|k: KeyCode| s1.contains(k) <==> (s0.contains(k) || k == key) by {
                    if s1.contains(k) {
                        let j = choose|j: int| 0 <= j < s1.len() && s1[j] == k;
                        if j < s0.len() {
                            assert(s0[j] == k);
                        }
                    }
                    if s0.contains(k) {
                        let j = choose|j: int| 0 <= j < s0.len() && s0[j] == k;
                        assert(s1[j] == k);
                    }
                    if k == key {
                        assert(s1[s1.len() - 1] == k);
                    }
                }
            }
        },
    }
}

/// Removes `key` from the set of keys held down.
fn remove_key(keys: &mut Vec<KeyCode>, key: KeyCode)
    requires
        unique_keys(old(keys)@),
    ensures
        unique_keys(final(keys)@),
        forall|k: KeyCode| final(keys)@.contains(k) <==> (old(keys)@.contains(k) && k != key),
{
    match contains_key(keys, &key) {
        Some(i) => {
            let ghost s0 = keys@;
            keys.swap_remove(i);
            proof {
                let s1 = keys@;
                let last = s0.len() - 1;
                assert forall|a: int| 0 <= a < s1.len() implies #[trigger] s1[a] == if a == i { s0[last] } else { s0[a] } by {}
                assert forall|a: int, b: int| 0 <= a < s1.len() && 0 <= b < s1.len() && a != b implies s1[a] != s1[b] by {
                    let oa = if a == i { last } else { a };
                    let ob = if b == i { last } else { b };
                    assert(s1[a] == s0[oa] && s1[b] == s0[ob]);
                }
                assert forall|k: KeyCode| s1.contains(k) <==> (s0.contains(k) && k != key) by {
                    if s1.contains(k) {
                        let j = choose|j: int| 0 <= j < s1.len() && s1[j] == k;
                        let oj = if j == i { last } else { j };
                        assert(s0[oj] == k);
                    }
                    if s0.contains(k) && k != key {
                        let j = choose|j: int| 0 <= j < s0.len() && s0[j] == k;
                        if j == last {
                            assert(s1[i as int] == k);
                        } else {
                            assert(j != i);
                            assert(s1[j] == k);
                        }
                    }
                }
            }
        },
        None => {},
    }
}

/// Sets the state of `key` in the association list.
fn set_key_state(states: &mut Vec<(KeyCode, InputState)>, key: KeyCode, state: InputState)
    requires
        unique_key_states(old(states)@),
    ensures
        unique_key_states(final(states)@),
        key_map(final(states)@) == key_map(old(states)@).insert(key, state),
{
    proof {
        lemma_key_map(states@);
    }
    let n = states.len();
    let ghost s0 = states@;
    for i in 0..n
        invariant
            n == states@.len(),
            states@ == s0,
            s0 == old(states)@,
            unique_key_states(s0),
            forall|j: int| 0 <= j < i ==> (#[trigger] s0[j]).0 != key,
    {
        if key_code_eq(&states[i].0, &key) {
            states.set(i, (key, state));
            proof {
                let s1 = states@;
                lemma_key_map(s0);
                assert(unique_key_states(s1)) by {
                    assert forall|a: int, b: int| 0 <= a < s1.len() && 0 <= b < s1.len() && a != b implies s1[a].0 != s1[b].0 by {
                        if a != i && b != i {
                            assert(s1[a] == s0[a] && s1[b] == s0[b]);
                        } else if a == i {
                            assert(s1[b] == s0[b]);
                        } else {
                            assert(s1[a] == s0[a]);
                        }
                    }
                }
                lemma_key_map(s1);
                assert(key_map(s1) =~= key_map(s0).insert(key, state)) by {
                    assert forall|k: KeyCode| key_map(s1).contains_key(k) <==> key_map(s0).insert(key, state).contains_key(k) by {
                        if key_map(s0).contains_key(k) {
                            let j = choose|j: int| 0 <= j < s0.len() && s0[j].0 == k;
                            assert(s1[j].0 == k);
                        }
                        if key_map(s1).contains_key(k) {
                            let j = choose|j: int| 0 <= j < s1.len() && s1[j].0 == k;
                            if j != i {
                                assert(s0[j].0 == k);
                            }
                        }
                    }
                    assert forall|k: KeyCode| key_map(s1).contains_key(k) implies key_map(s1)[k] == key_map(s0).insert(key, state)[k] by {
                        let j = choose|j: int| 0 <= j < s1.len() && s1[j].0 == k;
                        assert(key_map(s1)[s1[j].0] == s1[j].1);
                        if j != i {
                            assert(s1[j] == s0[j]);
                            assert(key_map(s0)[s0[j].0] == s0[j].1);
                        }
                    }
                }
            }
            return;
        }
    }
    states.push((key, state));
    proof {
        let s1 = states@;
        assert(s1.drop_last() =~= s0);
        assert(unique_key_states(s1)) by {
            assert forall|a: int, b: int| 0 <= a < s1.len() && 0 <= b < s1.len() && a != b implies s1[a].0 != s1[b].0 by {
                if a < n && b < n {
                    assert(s1[a] == s0[a] && s1[b] == s0[b]);
                } else if a < n {
                    assert(s1[a] == s0[a]);
                } else {
                    assert(s1[b] == s0[b]);
                }
            }
        }
    }
}

/// The last keyboard event of a key this frame decides what `key_pressed` and
/// `key_release` report for it, whatever came before.
pub proof fn law_last_key_event_wins(h0: InputHandler, h1: InputHandler, h2: InputHandler, key: KeyCode, s1: InputState, s2: InputState)
    requires
        h1.records(h0, InputEvent::KeyboardEvent { key, state: s1 }),
        h2.records(h1, InputEvent::KeyboardEvent { key, state: s2 }),
    ensures
        h2.key_state_map().contains_key(key),
        h2.key_state_map()[key] == s2,
        h2.key_state_map() == h0.key_state_map().insert(key, s2),
{
    assert(h2.key_state_map() =~= h0.key_state_map().insert(key, s2));
}

/// A left, right or middle button's event is recorded for that button and no
/// other: after `b`'s event, the record `mouse_button_pressed` and
/// `mouse_button_released` read for `b` is that event, and the record read for
/// each other of the three buttons is the one it had before.
pub proof fn law_button_record_is_its_own(
    h0: InputHandler,
    h1: InputHandler,
    b: MouseButton,
    state: InputState,
    position: Vec2,
)
    requires
        h1.records(h0, InputEvent::MouseButtonEvent { button: b, state, position }),
        b == MouseButton::Left || b == MouseButton::Right || b == MouseButton::Middle,
    ensures
        recorded_for(h1.input_event_record, b) == Some(Some(MouseButtonEvent { button: b, state, position })),
        b == MouseButton::Left ==> h1.input_event_record.left_mouse == Some(MouseButtonEvent { button: b, state, position }),
        b == MouseButton::Right ==> h1.input_event_record.right_mouse == Some(MouseButtonEvent { button: b, state, position }),
        b == MouseButton::Middle ==> h1.input_event_record.middle_mouse == Some(MouseButtonEvent { button: b, state, position }),
        b != MouseButton::Left ==> recorded_for(h1.input_event_record, MouseButton::Left) == Some(h0.input_event_record.left_mouse),
        b != MouseButton::Right ==> recorded_for(h1.input_event_record, MouseButton::Right) == Some(h0.input_event_record.right_mouse),
        b != MouseButton::Middle ==> recorded_for(h1.input_event_record, MouseButton::Middle) == Some(h0.input_event_record.middle_mouse),
        state == InputState::Pressed ==> (recorded_for(h1.input_event_record, b) matches Some(Some(e)) && e.state == InputState::Pressed),
        state == InputState::Released ==> (recorded_for(h1.input_event_record, b) matches Some(Some(e)) && e.state == InputState::Released),
{
}

/// Pressing a key holds it down and releasing it lets it go, whatever else
/// is held.
pub proof fn law_press_release(down: Set<KeyCode>, key: KeyCode)
    ensures
        down.insert(key).contains(key),
        !down.insert(key).remove(key).contains(key),
        down.insert(key).remove(key) == down.remove(key),
{
    assert(down.insert(key).remove(key) =~= down.remove(key));
}

/// The position of the first mouse-button event among `events` at or after
/// `i`, with its button and state; none when there is no such event.
pub open spec fn first_button_event(events: Seq<InputEvent>, i: int) -> Option<MouseButtonEvent>
    decreases events.len() - i,
{
    if i < 0 || i >= events.len() {
        None
    } else {
        match events[i] {
            InputEvent::MouseButtonEvent { button, state, position } => Some(MouseButtonEvent { button, state, position }),
            _ => first_button_event(events, i + 1),
        }
    }
}

/// Where the pointer was at the first mouse-button event of `events`, when
/// that event is a press of the left button; none otherwise.
pub fn left_press_position(events: &[InputEvent]) -> (r: Option<Vec2>)
    ensures
        r == match first_button_event(events@, 0) {
            Some(e) => if e.button == MouseButton::Left && e.state == InputState::Pressed {
                Some(e.position)
            } else {
                None
            },
            None => None,
        },
{
    let mut i: usize = 0;
    while i < events.len()
        invariant
            i <= events@.len(),
            first_button_event(events@, 0) == first_button_event(events@, i as int),
        decreases events@.len() - i,
    {
        match events[i] {
            InputEvent::MouseButtonEvent { button, state, position } => {
                let is_left = match button {
                    MouseButton::Left => true,
                    _ => false,
                };
                let is_pressed = match state {
                    InputState::Pressed => true,
                    _ => false,
                };
                if is_left && is_pressed {
                    return Some(position);
                } else {
                    return None;
                }
            },
            _ => {},
        }
        i += 1;
    }
    None
}

} // verus!
