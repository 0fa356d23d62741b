use vstd::prelude::*;

use crate::deletion_queue::MAX_FRAMES;

verus! {

/// The per-frame decisions of the renderer: whether a frame may be drawn at
/// all, which of the `MAX_FRAMES` frame slots it records into, and which slots
/// have still to upload the current skybox.
pub struct FrameSchedule {
    current_frame: usize,
    should_resize: bool,
    current_skybox: Option<u32>,
    skybox_dirty: Vec<bool>,
}

impl FrameSchedule {
    /// How many frames have been presented.
    pub closed spec fn frame(&self) -> nat {
        self.current_frame as nat
    }

    /// The swapchain is out of date and must be recreated before the next frame.
    pub closed spec fn resize_pending(&self) -> bool {
        self.should_resize
    }

    /// The skybox the last frame drew, if any frame did.
    pub closed spec fn skybox(&self) -> Option<u32> {
        self.current_skybox
    }

    /// For each frame slot, whether it has still to upload the current skybox.
    pub closed spec fn dirty(&self) -> Seq<bool> {
        self.skybox_dirty@
    }

    /// One flag per frame slot.
    pub open spec fn wf(&self) -> bool {
        self.dirty().len() == MAX_FRAMES
    }

    /// Before the first frame: nothing presented, no resize pending, no
    /// skybox chosen, and every slot has a skybox to upload.
    pub fn new() -> (r: Self)
        ensures
            r.wf(),
            r.frame() == 0,
            !r.resize_pending(),
            r.skybox() is None,
            r.dirty() == Seq::new(MAX_FRAMES as nat, |i: int| true),
    {
        let mut skybox_dirty: Vec<bool> = Vec::new();
        let mut i: usize = 0;
        while i < MAX_FRAMES
            invariant
                i <= MAX_FRAMES,
                skybox_dirty@ == Seq::new(i as nat, |j: int| true),
            decreases MAX_FRAMES - i,
        {
            skybox_dirty.push(true);
            i += 1;
        }
        FrameSchedule { current_frame: 0, should_resize: false, current_skybox: None, skybox_dirty }
    }

    /// Starts a frame that shows the skybox `skybox_id`. While a resize is
    /// pending no frame is drawn: the result is `None` and nothing changes.
    /// Otherwise a skybox other than the current one becomes current and
    /// every slot has to upload it, and the result is the slot of this frame:
    /// the number of frames presented so far, modulo `MAX_FRAMES`.
    pub fn begin_frame(&mut self, skybox_id: u32) -> (slot: Option<usize>)
        requires
            old(self).wf(),
        ensures
            final(self).wf(),
            final(self).frame() == old(self).frame(),
            final(self).resize_pending() == old(self).resize_pending(),
            old(self).resize_pending() ==> {
                &&& slot is None
                &&& final(self).skybox() == old(self).skybox()
                &&& final(self).dirty() == old(self).dirty()
            },
            !old(self).resize_pending() ==> {
                &&& slot == Some((old(self).frame() % (MAX_FRAMES as nat)) as usize)
                &&& final(self).skybox() == Some(skybox_id)
                &&& final(self).dirty() == if old(self).skybox() == Some(skybox_id) {
                    old(self).dirty()
                } else {
                    Seq::new(MAX_FRAMES as nat, |i: int| true)
                }
            },
    {
        if self.should_resize {
            return None;
        }
        let changed = match self.current_skybox {
            Some(current) => current != skybox_id,
            None => true,
        };
        if changed {
            self.current_skybox = Some(skybox_id);
            let mut i: usize = 0;
            while i < self.skybox_dirty.len()
                invariant
                    self.skybox_dirty@.len() == MAX_FRAMES,
                    self.current_frame == old(self).current_frame,
                    self.should_resize == old(self).should_resize,
                    self.current_skybox == Some(skybox_id),
                    i <= MAX_FRAMES,
                    forall|j: int| 0 <= j < i ==> self.skybox_dirty@[j],
                decreases MAX_FRAMES - i,
            {
                self.skybox_dirty.set(i, true);
                i += 1;
            }
            assert(self.skybox_dirty@ =~= Seq::new(MAX_FRAMES as nat, |i: int| true));
        }
        Some(self.current_frame % MAX_FRAMES)
    }

    /// The swapchain image for the frame was acquired, or the swapchain has
    /// to be recreated (`recreate`: it is out of date or no longer matches the
    /// surface): then a resize is pending and the frame is dropped. The result
    /// says whether the frame goes on.
    pub fn image_acquired(&mut self, recreate: bool) -> (proceed: bool)
        ensures
            proceed == !recreate,
            final(self).resize_pending() == (old(self).resize_pending() || recreate),
            final(self).frame() == old(self).frame(),
            final(self).skybox() == old(self).skybox(),
            final(self).dirty() == old(self).dirty(),
    {
        if recreate {
            self.should_resize = true;
            return false;
        }
        true
    }

    /// Whether the frame recorded into `slot` has to upload the current
    /// skybox first; the slot then has it.
    pub fn take_skybox_upload(&mut self, slot: usize) -> (upload: bool)
        requires
            old(self).wf(),
            slot < MAX_FRAMES,
        ensures
            final(self).wf(),
            upload == old(self).dirty()[slot as int],
            final(self).dirty() == old(self).dirty().update(slot as int, false),
            final(self).frame() == old(self).frame(),
            final(self).resize_pending() == old(self).resize_pending(),
            final(self).skybox() == old(self).skybox(),
    {
        let upload = self.skybox_dirty[slot];
        if upload {
            self.skybox_dirty.set(slot, false);
        }
        proof {
            assert(self.skybox_dirty@ =~= old(self).dirty().update(slot as int, false));
        }
        upload
    }

    /// The frame was submitted and presented; a swapchain found on presenting
    /// to need recreating (`recreate`) makes a resize pending. The next frame
    /// comes.
    pub fn frame_presented(&mut self, recreate: bool)
        requires
            old(self).frame() < usize::MAX,
        ensures
            final(self).frame() == old(self).frame() + 1,
            final(self).resize_pending() == (old(self).resize_pending() || recreate),
            final(self).skybox() == old(self).skybox(),
            final(self).dirty() == old(self).dirty(),
    {
        if recreate {
            self.should_resize = true;
        }
        self.current_frame += 1;
    }

    /// The swapchain was recreated for a new window size, which clears a
    /// pending resize; or the window was in use and nothing was recreated,
    /// which changes nothing.
    pub fn swapchain_recreated(&mut self, window_in_use: bool)
        ensures
            final(self).resize_pending() == (old(self).resize_pending() && window_in_use),
            final(self).frame() == old(self).frame(),
            final(self).skybox() == old(self).skybox(),
            final(self).dirty() == old(self).dirty(),
    {
        if !window_in_use {
            self.should_resize = false;
        }
    }

    /// How many frames have been presented.
    pub fn current_frame(&self) -> (r: usize)
        ensures
            r == self.frame(),
    {
        self.current_frame
    }

    /// Whether the swapchain must be recreated before the next frame.
    pub fn should_resize(&self) -> (r: bool)
        ensures
            r == self.resize_pending(),
    {
        self.should_resize
    }
}

/// Consecutive frames never record into the same slot, so a frame never
/// reuses the resources of the frame still in flight before it.
pub proof fn law_consecutive_frames_use_other_slots(frame: nat)
    ensures
        (frame + 1) % (MAX_FRAMES as nat) != frame % (MAX_FRAMES as nat),
{
}

/// The size of the swapchain images: the largest the surface allows, or the
/// window's size where the surface leaves it to the window (a largest width of
/// `u32::MAX`); neither side below one pixel.
pub open spec fn spec_swapchain_extent(max_extent: (u32, u32), window_size: (u32, u32)) -> (u32, u32) {
    let e = if max_extent.0 != u32::MAX { max_extent } else { window_size };
    (if e.0 < 1 { 1 } else { e.0 }, if e.1 < 1 { 1 } else { e.1 })
}

/// The size of the swapchain images for a surface whose largest image is
/// `max_extent`, in a window of `window_size` (width, height).
pub fn swapchain_image_extent(max_extent: (u32, u32), window_size: (u32, u32)) -> (r: (u32, u32))
    ensures
        r == spec_swapchain_extent(max_extent, window_size),
{
    let (width, height) = if max_extent.0 != u32::MAX { max_extent } else { window_size };
    let width = if width < 1 { 1 } else { width };
    let height = if height < 1 { 1 } else { height };
    (width, height)
}

/// How many swapchain images to ask for: one more than the surface's minimum.
pub fn swapchain_image_count(min_image_count: u32) -> (r: u32)
    requires
        min_image_count < u32::MAX,
    ensures
        r == min_image_count + 1,
{
    min_image_count + 1
}

/// The queue family the renderer uses: the first one, in the device's order,
/// that supports graphics (`.0`) and can present to the surface (`.1`).
pub fn graphics_queue_family(families: &[(bool, bool)]) -> (r: Option<u32>)
    requires
        families@.len() <= u32::MAX,
    ensures
        match r {
            Some(i) => {
                &&& i < families@.len()
                &&& families@[i as int].0 && families@[i as int].1
                &&& forall|j: int| 0 <= j < i ==> !(families@[j].0 && families@[j].1)
            },
            None => forall|j: int| 0 <= j < families@.len() ==> !(families@[j].0 && families@[j].1),
        },
{
    let mut i: usize = 0;
    while i < families.len()
        invariant
            i <= families@.len(),
            families@.len() <= u32::MAX,
            forall|j: int| 0 <= j < i ==> !(families@[j].0 && families@[j].1),
        decreases families@.len() - i,
    {
        let (graphics, present) = families[i];
        if graphics && present {
            return Some(i as u32);
        }
        i += 1;
    }
    None
}

} // verus!
