//! The order of a frame: which of the frames in flight is next, what happens
//! when the surface changed, and which image is in which layout when.
use vstd::prelude::*;

use crate::device;
use crate::device::Extent;

verus! {

/// What asking for an image of the surface gave.
#[derive(Clone, Copy, Debug, PartialEq, Eq, Structural)]
pub enum Acquired {
    Image(u32),
    OutOfDate,
    Failed,
}

/// What to do with it.
#[derive(Clone, Copy, Debug, PartialEq, Eq, Structural)]
pub enum AfterAcquire {
    /// Record and submit, drawing onto this image.
    Draw(u32),
    /// Make the surface's images anew and leave this frame out.
    Recreate,
    Fail,
}

/// What presenting an image gave.
#[derive(Clone, Copy, Debug, PartialEq, Eq, Structural)]
pub enum Presented {
    Fine,
    Suboptimal,
    OutOfDate,
    Failed,
}

#[derive(Clone, Copy, Debug, PartialEq, Eq, Structural)]
pub enum AfterPresent {
    Next,
    /// Make the surface's images anew before the next frame.
    Recreate,
    Fail,
}

/// The size drawn at, and which of the frames in flight is next.
#[derive(Clone, Copy, Debug, PartialEq, Eq, Structural)]
pub struct FrameLoop {
    pub extent: Extent,
    pub frame: usize,
}

pub open spec fn empty(e: Extent) -> bool {
    e.width == 0 || e.height == 0
}

impl FrameLoop {
    pub open spec fn valid(&self) -> bool {
        self.frame < device::FRAMES_IN_FLIGHT
    }

    pub fn new(extent: Extent) -> (r: FrameLoop)
        ensures
            r.valid(),
            r.extent == extent,
            r.frame == 0,
    {
        FrameLoop { extent, frame: 0 }
    }

    /// The frame to record, or none while the window has no area.
    pub fn begin(&self) -> (r: Option<usize>)
        requires
            self.valid(),
        ensures
            r == (if empty(self.extent) {
                None
            } else {
                Some(self.frame)
            }),
            r is Some <==> self.extent.width > 0 && self.extent.height > 0,
    {
        if self.extent.width == 0 || self.extent.height == 0 {
            None
        } else {
            Some(self.frame)
        }
    }

    /// The window changed its size. The result says whether to make the
    /// surface's images anew, which a window without area does not need.
    pub fn resize(&mut self, extent: Extent) -> (r: bool)
        ensures
            final(self).extent == extent,
            final(self).frame == old(self).frame,
            r == !empty(extent),
            r <==> extent.width > 0 && extent.height > 0,
    {
        self.extent = extent;
        extent.width != 0 && extent.height != 0
    }

    /// The surface's images were made anew, with this size.
    pub fn recreated(&mut self, extent: Extent)
        ensures
            final(self).valid(),
            final(self).extent == extent,
            final(self).frame == 0,
    {
        self.extent = extent;
        self.frame = 0;
    }

    pub fn acquired(a: Acquired) -> (r: AfterAcquire)
        ensures
            r == match a {
                Acquired::Image(i) => AfterAcquire::Draw(i),
                Acquired::OutOfDate => AfterAcquire::Recreate,
                Acquired::Failed => AfterAcquire::Fail,
            },
    {
        match a {
            Acquired::Image(i) => AfterAcquire::Draw(i),
            Acquired::OutOfDate => AfterAcquire::Recreate,
            Acquired::Failed => AfterAcquire::Fail,
        }
    }

    /// A surface that no longer fits is replaced, even where it could still be
    /// presented to.
    pub fn presented(p: Presented) -> (r: AfterPresent)
        ensures
            r == match p {
                Presented::Fine => AfterPresent::Next,
                Presented::Suboptimal => AfterPresent::Recreate,
                Presented::OutOfDate => AfterPresent::Recreate,
                Presented::Failed => AfterPresent::Fail,
            },
    {
        match p {
            Presented::Fine => AfterPresent::Next,
            Presented::Suboptimal => AfterPresent::Recreate,
            Presented::OutOfDate => AfterPresent::Recreate,
            Presented::Failed => AfterPresent::Fail,
        }
    }

    /// Frame `frame` was presented; go on with the other one.
    pub fn advance(&mut self, frame: usize)
        requires
            frame < device::FRAMES_IN_FLIGHT,
        ensures
            final(self).valid(),
            final(self).extent == old(self).extent,
            final(self).frame == (frame + 1) % (device::FRAMES_IN_FLIGHT as int),
    {
        self.frame = (frame + 1) % device::FRAMES_IN_FLIGHT;
    }
}

/// Two frames on, the same frame is recorded again, and in between another: no
/// frame is recorded while its own buffers are still in use.
pub proof fn law_frames_take_turns(frame: int)
    requires
        0 <= frame < device::FRAMES_IN_FLIGHT,
    ensures
        (frame + 1) % (device::FRAMES_IN_FLIGHT as int) != frame,
        ((frame + 1) % (device::FRAMES_IN_FLIGHT as int) + 1) % (device::FRAMES_IN_FLIGHT as int)
            == frame,
{
}

/// An image that a frame works with.
#[derive(Clone, Copy, Debug, PartialEq, Eq, Structural)]
pub enum Target {
    /// The scene in linear light.
    Hdr,
    Depth,
    /// The surface's image.
    Swapchain,
    /// A texture that is being filled.
    Texture,
}

#[derive(Clone, Copy, Debug, PartialEq, Eq, Structural)]
pub enum Layout {
    Undefined,
    ColorAttachment,
    DepthAttachment,
    ShaderRead,
    TransferDst,
    Present,
}

#[derive(Clone, Copy, Debug, PartialEq, Eq, Structural)]
pub enum Stage {
    Top,
    Transfer,
    EarlyTests,
    Fragment,
    ColorOutput,
    Bottom,
}

#[derive(Clone, Copy, Debug, PartialEq, Eq, Structural)]
pub enum Access {
    Nothing,
    TransferWrite,
    ColorWrite,
    DepthWrite,
    ShaderRead,
}

/// A change of layout, between what was done with an image and what will be.
#[derive(Clone, Copy, Debug, PartialEq, Eq, Structural)]
pub struct Barrier {
    pub target: Target,
    pub from: Layout,
    pub to: Layout,
    pub src_stage: Stage,
    pub dst_stage: Stage,
    pub src_access: Access,
    pub dst_access: Access,
}

#[derive(Clone, Copy, Debug, PartialEq, Eq, Structural)]
pub enum Step {
    Barrier(Barrier),
    /// Draw the scene into the linear target, with depth.
    Geometry,
    /// Read the linear target and write the surface's image.
    Post,
    /// Copy the staged pixels into the texture.
    Copy,
}

pub open spec fn barrier(
    target: Target,
    from: Layout,
    to: Layout,
    src_stage: Stage,
    dst_stage: Stage,
    src_access: Access,
    dst_access: Access,
) -> Step {
    Step::Barrier(Barrier { target, from, to, src_stage, dst_stage, src_access, dst_access })
}

/// The steps of a frame.
pub open spec fn frame_plan() -> Seq<Step> {
    seq![
        barrier(
            Target::Hdr,
            Layout::Undefined,
            Layout::ColorAttachment,
            Stage::Top,
            Stage::ColorOutput,
            Access::Nothing,
            Access::ColorWrite,
        ),
        barrier(
            Target::Depth,
            Layout::Undefined,
            Layout::DepthAttachment,
            Stage::Top,
            Stage::EarlyTests,
            Access::Nothing,
            Access::DepthWrite,
        ),
        Step::Geometry,
        barrier(
            Target::Hdr,
            Layout::ColorAttachment,
            Layout::ShaderRead,
            Stage::ColorOutput,
            Stage::Fragment,
            Access::ColorWrite,
            Access::ShaderRead,
        ),
        barrier(
            Target::Swapchain,
            Layout::Undefined,
            Layout::ColorAttachment,
            Stage::Top,
            Stage::ColorOutput,
            Access::Nothing,
            Access::ColorWrite,
        ),
        Step::Post,
        barrier(
            Target::Swapchain,
            Layout::ColorAttachment,
            Layout::Present,
            Stage::ColorOutput,
            Stage::Bottom,
            Access::ColorWrite,
            Access::Nothing,
        ),
    ]
}

/// The steps of filling a texture.
pub open spec fn upload_plan() -> Seq<Step> {
    seq![
        barrier(
            Target::Texture,
            Layout::Undefined,
            Layout::TransferDst,
            Stage::Top,
            Stage::Transfer,
            Access::Nothing,
            Access::TransferWrite,
        ),
        Step::Copy,
        barrier(
            Target::Texture,
            Layout::TransferDst,
            Layout::ShaderRead,
            Stage::Transfer,
            Stage::Fragment,
            Access::TransferWrite,
            Access::ShaderRead,
        ),
    ]
}

fn step(
    target: Target,
    from: Layout,
    to: Layout,
    stages: (Stage, Stage),
    accesses: (Access, Access),
) -> (r: Step)
    ensures
        r == barrier(target, from, to, stages.0, stages.1, accesses.0, accesses.1),
{
    Step::Barrier(
        Barrier {
            target,
            from,
            to,
            src_stage: stages.0,
            dst_stage: stages.1,
            src_access: accesses.0,
            dst_access: accesses.1,
        },
    )
}

/// What to record for a frame, in order.
pub fn frame_steps() -> (r: Vec<Step>)
    ensures
        r@ == frame_plan(),
{
    let r: Vec<Step> = vec![
        step(
            Target::Hdr,
            Layout::Undefined,
            Layout::ColorAttachment,
            (Stage::Top, Stage::ColorOutput),
            (Access::Nothing, Access::ColorWrite),
        ),
        step(
            Target::Depth,
            Layout::Undefined,
            Layout::DepthAttachment,
            (Stage::Top, Stage::EarlyTests),
            (Access::Nothing, Access::DepthWrite),
        ),
        Step::Geometry,
        step(
            Target::Hdr,
            Layout::ColorAttachment,
            Layout::ShaderRead,
            (Stage::ColorOutput, Stage::Fragment),
            (Access::ColorWrite, Access::ShaderRead),
        ),
        step(
            Target::Swapchain,
            Layout::Undefined,
            Layout::ColorAttachment,
            (Stage::Top, Stage::ColorOutput),
            (Access::Nothing, Access::ColorWrite),
        ),
        Step::Post,
        step(
            Target::Swapchain,
            Layout::ColorAttachment,
            Layout::Present,
            (Stage::ColorOutput, Stage::Bottom),
            (Access::ColorWrite, Access::Nothing),
        ),
    ];
    assert(r@ =~= frame_plan());
    r
}

/// What to record to fill a texture, in order.
pub fn upload_steps() -> (r: Vec<Step>)
    ensures
        r@ == upload_plan(),
{
    let r: Vec<Step> = vec![
        step(
            Target::Texture,
            Layout::Undefined,
            Layout::TransferDst,
            (Stage::Top, Stage::Transfer),
            (Access::Nothing, Access::TransferWrite),
        ),
        Step::Copy,
        step(
            Target::Texture,
            Layout::TransferDst,
            Layout::ShaderRead,
            (Stage::Transfer, Stage::Fragment),
            (Access::TransferWrite, Access::ShaderRead),
        ),
    ];
    assert(r@ =~= upload_plan());
    r
}

/// The layout of an image after the first `n` steps; before any, its contents
/// do not matter.
pub open spec fn layout_after(steps: Seq<Step>, target: Target, n: nat) -> Layout
    decreases n,
{
    if n == 0 {
        Layout::Undefined
    } else {
        match steps[n - 1] {
            Step::Barrier(b) => if b.target == target {
                b.to
            } else {
                layout_after(steps, target, (n - 1) as nat)
            },
            _ => layout_after(steps, target, (n - 1) as nat),
        }
    }
}

/// Whether step `i` finds every image it works with in the layout it needs.
pub open spec fn sound_at(steps: Seq<Step>, i: int) -> bool {
    match steps[i] {
        Step::Barrier(b) => b.from == layout_after(steps, b.target, i as nat),
        Step::Geometry => layout_after(steps, Target::Hdr, i as nat) == Layout::ColorAttachment
            && layout_after(steps, Target::Depth, i as nat) == Layout::DepthAttachment,
        Step::Post => layout_after(steps, Target::Hdr, i as nat) == Layout::ShaderRead
            && layout_after(steps, Target::Swapchain, i as nat) == Layout::ColorAttachment,
        Step::Copy => layout_after(steps, Target::Texture, i as nat) == Layout::TransferDst,
    }
}

/// Every step of a frame finds its images in the layout it needs, and the
/// surface's image ends ready to be presented.
pub proof fn law_frames_are_sound(i: int)
    requires
        0 <= i < frame_plan().len(),
    ensures
        sound_at(frame_plan(), i),
        layout_after(frame_plan(), Target::Swapchain, frame_plan().len()) == Layout::Present,
{
    reveal_with_fuel(layout_after, 8);
}

/// Every step of filling a texture finds it in the layout it needs, and it ends
/// ready to be sampled.
pub proof fn law_uploads_are_sound(i: int)
    requires
        0 <= i < upload_plan().len(),
    ensures
        sound_at(upload_plan(), i),
        layout_after(upload_plan(), Target::Texture, upload_plan().len()) == Layout::ShaderRead,
{
    reveal_with_fuel(layout_after, 4);
}

/// What an image in a layout is used for, and at which stage.
pub open spec fn use_of(layout: Layout) -> (Stage, Access) {
    match layout {
        Layout::Undefined => (Stage::Top, Access::Nothing),
        Layout::ColorAttachment => (Stage::ColorOutput, Access::ColorWrite),
        Layout::DepthAttachment => (Stage::EarlyTests, Access::DepthWrite),
        Layout::ShaderRead => (Stage::Fragment, Access::ShaderRead),
        Layout::TransferDst => (Stage::Transfer, Access::TransferWrite),
        Layout::Present => (Stage::Bottom, Access::Nothing),
    }
}

/// Every change of layout waits for what the image was last used for, and what
/// it is used for next waits for the change.
pub proof fn law_barriers_wait_for_both_sides(i: int, b: Barrier)
    ensures
        0 <= i < frame_plan().len() && frame_plan()[i] == Step::Barrier(b) ==> (
            b.src_stage,
            b.src_access,
        ) == use_of(b.from) && (b.dst_stage, b.dst_access) == use_of(b.to) && b.target
            !is Texture,
        0 <= i < upload_plan().len() && upload_plan()[i] == Step::Barrier(b) ==> (
            b.src_stage,
            b.src_access,
        ) == use_of(b.from) && (b.dst_stage, b.dst_access) == use_of(b.to) && b.target is Texture,
{
}

/// A frame draws the scene once and then, once, what is shown of it. Filling a
/// texture copies its pixels once.
pub proof fn law_plans_do_their_work_once(i: int)
    ensures
        0 <= i < frame_plan().len() ==> (frame_plan()[i] is Geometry <==> i == 2) && (
        frame_plan()[i] is Post <==> i == 5) && frame_plan()[i] !is Copy,
        0 <= i < upload_plan().len() ==> (upload_plan()[i] is Copy <==> i == 1) && (
        upload_plan()[i] is Barrier <==> i != 1),
        frame_plan().len() == 7,
        upload_plan().len() == 3,
{
}

} // verus!
