//! What a frame does with the swapchain image it asked for.
//!
//! Acquiring the image can fail in ways that are routine: the window is
//! hidden, the compositor is slow, or it was resized and the surface no longer
//! matches. None of them is worth stopping for; each decides whether this frame
//! draws, and whether the surface must be configured again first.
use vstd::prelude::*;

verus! {

/// How acquiring the frame's swapchain image went.
#[derive(Debug, Clone, Copy, PartialEq, Eq, Structural)]
pub enum SurfaceStatus {
    /// An image, matching the surface.
    Success,
    /// An image, but the surface has changed under it.
    Suboptimal,
    /// No image in time.
    Timeout,
    /// No image: the window cannot be seen.
    Occluded,
    /// No image: the surface's configuration is stale.
    Outdated,
    /// No image: the surface was lost.
    Lost,
    /// No image: the request failed validation.
    Validation,
}

/// What the frame does about it.
#[derive(Debug, Clone, Copy, PartialEq, Eq, Structural)]
pub enum FrameAction {
    /// Record and present the frame.
    Draw,
    /// Skip this frame quietly and try again on the next.
    Skip,
    /// Configure the surface again, then skip this frame.
    Reconfigure,
    /// Skip this frame and report the failure.
    Report,
}

/// The action each status calls for: draw whenever there is an image, even a
/// suboptimal one; configure again when the surface is outdated or lost; skip
/// quietly on a timeout or while occluded; report a validation failure.
pub open spec fn frame_action_spec(status: SurfaceStatus) -> FrameAction {
    match status {
        SurfaceStatus::Success | SurfaceStatus::Suboptimal => FrameAction::Draw,
        SurfaceStatus::Timeout | SurfaceStatus::Occluded => FrameAction::Skip,
        SurfaceStatus::Outdated | SurfaceStatus::Lost => FrameAction::Reconfigure,
        SurfaceStatus::Validation => FrameAction::Report,
    }
}

/// Decide what this frame does, given how acquiring its image went.
pub fn frame_action(status: SurfaceStatus) -> (a: FrameAction)
    ensures
        a == frame_action_spec(status),
{
    match status {
        SurfaceStatus::Success | SurfaceStatus::Suboptimal => FrameAction::Draw,
        SurfaceStatus::Timeout | SurfaceStatus::Occluded => FrameAction::Skip,
        SurfaceStatus::Outdated | SurfaceStatus::Lost => FrameAction::Reconfigure,
        SurfaceStatus::Validation => FrameAction::Report,
    }
}

} // verus!
