use slmsttaa::frame::{frame_action, FrameAction, SurfaceStatus};

#[test]
fn a_frame_draws_only_when_it_has_an_image() {
    assert_eq!(frame_action(SurfaceStatus::Success), FrameAction::Draw);
    assert_eq!(frame_action(SurfaceStatus::Suboptimal), FrameAction::Draw);
    assert_eq!(frame_action(SurfaceStatus::Timeout), FrameAction::Skip);
    assert_eq!(frame_action(SurfaceStatus::Occluded), FrameAction::Skip);
    assert_eq!(frame_action(SurfaceStatus::Outdated), FrameAction::Reconfigure);
    assert_eq!(frame_action(SurfaceStatus::Lost), FrameAction::Reconfigure);
    assert_eq!(frame_action(SurfaceStatus::Validation), FrameAction::Report);
}
