use vstd::prelude::*;

use crate::physics::{read_userdata, UserdataType};

verus! {

/// What a transform gizmo changes.
#[derive(Debug, Clone, Copy, PartialEq, Eq, Structural)]
pub enum TransformType {
    Position,
    Rotation,
    Size,
}

/// The arena bits of the built-in sphere mesh.
pub const SPHERE_MESH_BITS: u64 = 0x1_0000_0001;

/// The arena bits of the built-in cone mesh.
pub const CONE_MESH_BITS: u64 = 0x1_0000_0002;

/// The mesh a gizmo's handles are drawn with: cones to move, spheres to resize.
pub open spec fn spec_handle_mesh(transform_type: TransformType) -> u64 {
    match transform_type {
        TransformType::Size => SPHERE_MESH_BITS,
        _ => CONE_MESH_BITS,
    }
}

impl TransformType {
    /// The arena bits of the mesh the handles are drawn with. Rotation
    /// handles have no mesh.
    pub fn handle_mesh(&self) -> (r: u64)
        requires
            *self != TransformType::Rotation,
        ensures
            r == spec_handle_mesh(*self),
    {
        match self {
            TransformType::Size => SPHERE_MESH_BITS,
            _ => CONE_MESH_BITS,
        }
    }
}

/// The handle the pointer last hovered over after a hit: the handle's number
/// when the collider hit is a gizmo handle, none when it is something else,
/// and the same as before when the pointer ray hit nothing.
pub open spec fn hovered_after(hovering: Option<usize>, hit: Option<u128>) -> Option<usize> {
    match hit {
        Some(u) => if (u / 0x80_0000_0000_0000_0000_0000_0000_0000u128) % 256 == UserdataType::Handle.spec_code() {
            Some(((u / 0x1_0000_0000_0000_0000u128) % 0x1_0000_0000) as usize)
        } else {
            None
        },
        None => hovering,
    }
}

/// The handle dragged after a frame: with the left button down, a hovered
/// handle starts being dragged when none is, and a dragged one stays dragged;
/// with the button up, no handle is dragged.
pub open spec fn dragged_after(dragging: Option<usize>, hovering: Option<usize>, left_mouse_down: bool) -> Option<usize> {
    if !left_mouse_down {
        None
    } else if dragging is None {
        hovering
    } else {
        dragging
    }
}

/// Which handle of a gizmo the pointer is over and which one it drags.
pub struct HandlePointer {
    pub mouse_hovering_on: Option<usize>,
    pub mouse_dragging_on: Option<usize>,
}

impl HandlePointer {
    /// Nothing hovered, nothing dragged.
    pub fn new() -> (r: Self)
        ensures
            r.mouse_hovering_on is None,
            r.mouse_dragging_on is None,
    {
        HandlePointer { mouse_hovering_on: None, mouse_dragging_on: None }
    }

    /// One frame of pointing: `hit` is the userdata of the collider the
    /// pointer ray met first, if it met one. The result says whether the
    /// dragged handle moves the object this frame.
    pub fn update(&mut self, hit: Option<u128>, left_mouse_down: bool) -> (drag: bool)
        ensures
            final(self).mouse_hovering_on == hovered_after(old(self).mouse_hovering_on, hit),
            final(self).mouse_dragging_on == dragged_after(
                old(self).mouse_dragging_on,
                final(self).mouse_hovering_on,
                left_mouse_down,
            ),
            drag == final(self).mouse_dragging_on is Some,
    {
        if let Some(userdata) = hit {
            let (ty, _index, extra_data) = read_userdata(userdata);
            if ty == UserdataType::Handle.code() {
                self.mouse_hovering_on = Some(extra_data as usize);
            } else {
                self.mouse_hovering_on = None;
            }
        }
        if self.mouse_hovering_on.is_some() && self.mouse_dragging_on.is_none() {
            if left_mouse_down {
                self.mouse_dragging_on = self.mouse_hovering_on;
            }
        }
        if self.mouse_dragging_on.is_some() {
            if left_mouse_down {
                return true;
            } else {
                self.mouse_dragging_on = None;
            }
        }
        false
    }

    /// The handle drawn highlighted: the dragged one, else the hovered one.
    pub fn highlighted(&self) -> (r: Option<usize>)
        ensures
            r == if self.mouse_dragging_on is Some { self.mouse_dragging_on } else { self.mouse_hovering_on },
    {
        match self.mouse_dragging_on {
            Some(i) => Some(i),
            None => self.mouse_hovering_on,
        }
    }
}

/// While the left button stays down, the handle being dragged stays the one
/// dragged, whatever the pointer passes over; letting go ends every drag.
pub proof fn law_drag_holds_until_release(dragged: usize, hovering: Option<usize>)
    ensures
        dragged_after(Some(dragged), hovering, true) == Some(dragged),
        dragged_after(Some(dragged), hovering, false) is None,
{
}

} // verus!
