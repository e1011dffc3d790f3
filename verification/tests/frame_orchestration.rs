use voxel_world::frame::{AcquireOutcome, FrameAction, FrameSync, PresentOutcome};

#[test]
fn normal_frame_script() {
    let mut sync = FrameSync::new(3);
    let actions = sync.render_frame(AcquireOutcome::Image(1), PresentOutcome::Presented);
    assert_eq!(
        actions,
        vec![
            FrameAction::WaitInFlightFence(0),
            FrameAction::WriteUniform(1),
            FrameAction::RecordCommands(1),
            FrameAction::ResetInFlightFence(0),
            FrameAction::Submit { frame: 0, image: 1 },
            FrameAction::Present(1),
        ]
    );
    assert_eq!(sync.frame, 1);
    assert_eq!(sync.images_in_flight[1], Some(0));
}

#[test]
fn image_still_in_flight_is_waited_on() {
    let mut sync = FrameSync::new(2);
    sync.render_frame(AcquireOutcome::Image(0), PresentOutcome::Presented);
    let actions = sync.render_frame(AcquireOutcome::Image(0), PresentOutcome::Presented);
    // the image is guarded by frame 0's fence, which must signal first
    assert_eq!(actions[1], FrameAction::WaitImageFence(0));
    assert_eq!(sync.images_in_flight[0], Some(1));
    assert_eq!(sync.frame, 0);
}

#[test]
fn out_of_date_acquire_rebuilds_without_presenting() {
    let mut sync = FrameSync::new(3);
    sync.render_frame(AcquireOutcome::Image(2), PresentOutcome::Presented);
    let frame_before = sync.frame;
    let actions = sync.render_frame(AcquireOutcome::OutOfDate, PresentOutcome::Presented);
    assert_eq!(
        actions,
        vec![FrameAction::WaitInFlightFence(frame_before), FrameAction::RebuildSwapchain]
    );
    // nothing was submitted or presented, and the frame slot is reused
    assert!(!actions.iter().any(|a| matches!(a, FrameAction::Submit { .. })));
    assert!(!actions.iter().any(|a| matches!(a, FrameAction::Present(_))));
    assert_eq!(sync.frame, frame_before);

    // the rebuild resizes the images-in-flight slots and clears them
    sync.swapchain_rebuilt(4);
    assert_eq!(sync.images_in_flight.len(), 4);
    assert!(sync.images_in_flight.iter().all(|s| s.is_none()));
}

#[test]
fn out_of_date_present_rebuilds_after_presenting() {
    let mut sync = FrameSync::new(2);
    let actions = sync.render_frame(AcquireOutcome::Image(0), PresentOutcome::OutOfDate);
    assert_eq!(actions.last(), Some(&FrameAction::RebuildSwapchain));
    let presents = actions.iter().filter(|a| matches!(a, FrameAction::Present(_))).count();
    assert_eq!(presents, 1);
    // every submission comes right after the reset of its fence
    for (k, a) in actions.iter().enumerate() {
        if let FrameAction::Submit { frame, .. } = a {
            assert_eq!(actions[k - 1], FrameAction::ResetInFlightFence(*frame));
        }
    }
    assert_eq!(sync.frame, 1);
}

#[test]
fn failed_present_keeps_the_frame_slot() {
    let mut sync = FrameSync::new(2);
    let actions = sync.render_frame(AcquireOutcome::Image(1), PresentOutcome::Failed);
    assert_eq!(sync.frame, 0);
    assert!(actions.iter().any(|a| matches!(a, FrameAction::Submit { .. })));
}
