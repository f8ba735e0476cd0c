//! Frame bookkeeping of the renderer and the labels of its schedules,
//! system sets and sub-apps.
use vstd::prelude::*;

verus! {

/// Number of frames that the renderer keeps in flight at once.
pub const FRAMES_IN_FLIGHT: usize = 2;

/// Counts the frames that the renderer has started.
pub struct FrameCount(pub u64);

impl FrameCount {
    /// The slot, among the frames in flight, that the current frame uses.
    pub fn frame_in_flight(&self) -> (slot: usize)
        ensures
            slot == self.0 % (FRAMES_IN_FLIGHT as u64),
            slot < FRAMES_IN_FLIGHT,
    {
        (self.0 % (FRAMES_IN_FLIGHT as u64)) as usize
    }

    /// Starts the next frame. Returns whether the renderer must first wait
    /// for the fence of the frame's slot: only once every slot has been
    /// used, since before that no earlier frame used it.
    pub fn advance(&mut self) -> (wait: bool)
        requires
            old(self).0 < u64::MAX,
        ensures
            final(self).0 == old(self).0 + 1,
            wait == (final(self).0 > FRAMES_IN_FLIGHT as u64),
    {
        self.0 = self.0 + 1;
        self.0 > FRAMES_IN_FLIGHT as u64
    }
}

/// Frames `FRAMES_IN_FLIGHT` apart share a slot, and consecutive frames
/// never do: the fence a frame waits for is the one of the frame
/// `FRAMES_IN_FLIGHT` before it.
pub proof fn lemma_slot_reuse(n: u64)
    requires
        n + FRAMES_IN_FLIGHT <= u64::MAX,
    ensures
        n % (FRAMES_IN_FLIGHT as u64) == ((n + FRAMES_IN_FLIGHT) as u64) % (FRAMES_IN_FLIGHT as u64),
        n % (FRAMES_IN_FLIGHT as u64) != ((n + 1) as u64) % (FRAMES_IN_FLIGHT as u64),
{
}

/// The system sets of the render schedule, in the order they run.
#[derive(Copy, Clone, Debug, PartialEq, Eq, Structural)]
pub enum RenderSystems {
    ApplyExtractCommands,
    WaitFences,
    AquireSwapchainImage,
    PreRender,
    Render,
    AfterFences,
}

/// The schedule that copies data from the main world to the render world.
#[derive(Copy, Clone, Debug, PartialEq, Eq, Structural)]
pub struct ExtractSchedule;

/// The label of the render sub-app.
#[derive(Copy, Clone, Debug, PartialEq, Eq, Structural)]
pub struct RenderApp;

/// The schedule that renders a frame.
#[derive(Copy, Clone, Debug, PartialEq, Eq, Structural)]
pub struct Render;

/// The schedule that runs once when the renderer starts.
#[derive(Copy, Clone, Debug, PartialEq, Eq, Structural)]
pub struct RenderStartup;

/// The label of the sub-app that extracts on the main thread while the
/// render app runs on its own.
#[derive(Copy, Clone, Debug, PartialEq, Eq, Structural)]
pub struct RenderExtractApp;

/// The plugin that runs rendering on a thread of its own.
#[derive(Copy, Clone, Debug, PartialEq, Eq, Structural)]
pub struct PipelinedRenderingPlugin;

/// The plugin that sets up the renderer.
#[derive(Copy, Clone, Debug, PartialEq, Eq, Structural)]
pub struct RenderPlugin;

} // verus!
