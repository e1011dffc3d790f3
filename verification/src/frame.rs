//! Per-frame render orchestration, modeled as a state machine over plain
//! values: which fences to wait on and reset, when to record and submit,
//! when to present, and when to tear the swapchain down and rebuild it.
//! The platform layer performs each action in order against the real
//! graphics device.

use vstd::prelude::*;

use crate::MAX_FRAMES_IN_FLIGHT;

verus! {

/// What acquiring the next swapchain image came back with.
#[derive(Debug, Clone, Copy, PartialEq, Eq, Structural)]
pub enum AcquireOutcome {
    /// The index of the acquired image.
    Image(usize),
    /// The swapchain no longer matches the surface; nothing was acquired.
    OutOfDate,
    /// Any other acquisition error; the frame is abandoned.
    Failed,
}

/// What presenting the finished image came back with.
#[derive(Debug, Clone, Copy, PartialEq, Eq, Structural)]
pub enum PresentOutcome {
    Presented,
    /// Presented, but the swapchain should be rebuilt.
    Suboptimal,
    /// Not presented; the swapchain must be rebuilt.
    OutOfDate,
    /// Any other presentation error; the frame is abandoned.
    Failed,
}

/// One step the platform layer performs for a frame, in script order.
#[derive(Debug, Clone, Copy, PartialEq, Eq, Structural)]
pub enum FrameAction {
    /// Wait until the in-flight fence of this frame slot signals.
    WaitInFlightFence(usize),
    /// Wait until the fence of the frame slot still drawing to the target
    /// image signals.
    WaitImageFence(usize),
    /// Re-record the primary command buffer of this image, executing every
    /// region's secondary buffer.
    RecordCommands(usize),
    /// Write the camera matrix into this image's uniform slot.
    WriteUniform(usize),
    /// Reset the in-flight fence of this frame slot, immediately before
    /// the one submission that will signal it.
    ResetInFlightFence(usize),
    /// Submit the draw work of `image`, signaling `frame`'s fence.
    Submit { frame: usize, image: usize },
    /// Queue the presentation of this image.
    Present(usize),
    /// Destroy and rebuild the swapchain and everything derived from it.
    RebuildSwapchain,
}

/// The frame synchronization state: the current frame slot and, per
/// swapchain image, the frame slot whose submitted work still targets it.
#[derive(Debug)]
pub struct FrameSync {
    pub frame: usize,
    pub images_in_flight: Vec<Option<usize>>,
}

/// The exact sequence of steps one frame performs, given what acquire and
/// (if reached) present return.
pub open spec fn frame_script(
    s: FrameSync,
    acquire: AcquireOutcome,
    present: PresentOutcome,
) -> Seq<FrameAction> {
    let head = seq![FrameAction::WaitInFlightFence(s.frame)];
    match acquire {
        AcquireOutcome::OutOfDate => head + seq![FrameAction::RebuildSwapchain],
        AcquireOutcome::Failed => head,
        AcquireOutcome::Image(i) => {
            let image_wait = match s.images_in_flight@[i as int] {
                Some(f) => seq![FrameAction::WaitImageFence(f)],
                None => Seq::empty(),
            };
            let draw = seq![
                FrameAction::WriteUniform(i),
                FrameAction::RecordCommands(i),
                FrameAction::ResetInFlightFence(s.frame),
                FrameAction::Submit { frame: s.frame, image: i },
                FrameAction::Present(i),
            ];
            let tail = match present {
                PresentOutcome::Suboptimal => seq![FrameAction::RebuildSwapchain],
                PresentOutcome::OutOfDate => seq![FrameAction::RebuildSwapchain],
                _ => Seq::empty(),
            };
            head + image_wait + draw + tail
        },
    }
}

impl FrameSync {
    pub open spec fn wf(&self) -> bool {
        &&& self.frame < MAX_FRAMES_IN_FLIGHT
        &&& forall|k: int|
            0 <= k < self.images_in_flight@.len() ==> ((#[trigger] self.images_in_flight@[k])
                matches Some(f) ==> f < MAX_FRAMES_IN_FLIGHT)
    }

    /// Fresh state: frame zero, no image guarded by any fence. The
    /// in-flight fences themselves are created signaled, so the first wait
    /// on each returns at once.
    pub fn new(image_count: usize) -> (r: Self)
        ensures
            r.wf(),
            r.frame == 0,
            r.images_in_flight@.len() == image_count,
            forall|k: int| 0 <= k < image_count ==> (#[trigger] r.images_in_flight@[k]) is None,
    {
        let mut images_in_flight: Vec<Option<usize>> = Vec::new();
        let mut k: usize = 0;
        while k < image_count
            invariant
                0 <= k <= image_count,
                images_in_flight@.len() == k,
                forall|j: int| 0 <= j < k ==> (#[trigger] images_in_flight@[j]) is None,
            decreases image_count - k,
        {
            images_in_flight.push(None);
            k = k + 1;
        }
        FrameSync { frame: 0, images_in_flight }
    }

    /// Decides one frame: emits the steps to perform, in order, and
    /// advances the state the way performing them does. An acquire that
    /// fails or goes out of date leaves the frame slot unchanged, so the
    /// next call reuses it.
    pub fn render_frame(&mut self, acquire: AcquireOutcome, present: PresentOutcome) -> (actions:
        Vec<FrameAction>)
        requires
            old(self).wf(),
            acquire matches AcquireOutcome::Image(i) ==> i < old(self).images_in_flight@.len(),
        ensures
            final(self).wf(),
            actions@ == frame_script(*old(self), acquire, present),
            final(self).images_in_flight@.len() == old(self).images_in_flight@.len(),
            acquire matches AcquireOutcome::Image(i) ==> {
                &&& final(self).images_in_flight@ == old(self).images_in_flight@.update(
                    i as int,
                    Some(old(self).frame),
                )
                &&& (present != PresentOutcome::Failed ==> final(self).frame == (old(self).frame
                    + 1) % (MAX_FRAMES_IN_FLIGHT as int))
                &&& (present == PresentOutcome::Failed ==> final(self).frame == old(self).frame)
            },
            !(acquire matches AcquireOutcome::Image(_)) ==> *final(self) == *old(self),
    {
        let mut actions: Vec<FrameAction> = Vec::new();
        actions.push(FrameAction::WaitInFlightFence(self.frame));
        match acquire {
            AcquireOutcome::OutOfDate => {
                actions.push(FrameAction::RebuildSwapchain);
                proof {
                    assert(actions@ =~= frame_script(*old(self), acquire, present));
                }
                actions
            },
            AcquireOutcome::Failed => {
                proof {
                    assert(actions@ =~= frame_script(*old(self), acquire, present));
                }
                actions
            },
            AcquireOutcome::Image(i) => {
                match self.images_in_flight[i] {
                    Some(f) => actions.push(FrameAction::WaitImageFence(f)),
                    None => (),
                }
                actions.push(FrameAction::WriteUniform(i));
                actions.push(FrameAction::RecordCommands(i));
                actions.push(FrameAction::ResetInFlightFence(self.frame));
                actions.push(FrameAction::Submit { frame: self.frame, image: i });
                actions.push(FrameAction::Present(i));
                self.images_in_flight[i] = Some(self.frame);
                match present {
                    PresentOutcome::Suboptimal => actions.push(FrameAction::RebuildSwapchain),
                    PresentOutcome::OutOfDate => actions.push(FrameAction::RebuildSwapchain),
                    PresentOutcome::Presented => (),
                    PresentOutcome::Failed => (),
                }
                if !matches!(present, PresentOutcome::Failed) {
                    self.frame = (self.frame + 1) % MAX_FRAMES_IN_FLIGHT;
                }
                proof {
                    assert(actions@ =~= frame_script(*old(self), acquire, present));
                }
                actions
            },
        }
    }

    /// After a swapchain rebuild the image set is new: the guard-fence
    /// slots are resized to the new image count and cleared, since no
    /// submitted work targets any new image yet.
    pub fn swapchain_rebuilt(&mut self, image_count: usize)
        requires
            old(self).wf(),
        ensures
            final(self).wf(),
            final(self).frame == old(self).frame,
            final(self).images_in_flight@.len() == image_count,
            forall|k: int|
                0 <= k < image_count ==> (#[trigger] final(self).images_in_flight@[k]) is None,
    {
        let mut fresh: Vec<Option<usize>> = Vec::new();
        let mut k: usize = 0;
        while k < image_count
            invariant
                0 <= k <= image_count,
                fresh@.len() == k,
                forall|j: int| 0 <= j < k ==> (#[trigger] fresh@[j]) is None,
            decreases image_count - k,
        {
            fresh.push(None);
            k = k + 1;
        }
        core::mem::swap(&mut self.images_in_flight, &mut fresh);
    }
}

/// Whether an action is the draw submission.
pub open spec fn action_is_submit(a: FrameAction) -> bool {
    match a {
        FrameAction::Submit { frame, image } => true,
        _ => false,
    }
}

/// The frame slot a submission signals.
pub open spec fn submit_frame(a: FrameAction) -> usize {
    match a {
        FrameAction::Submit { frame, image } => frame,
        _ => 0,
    }
}

/// Whether an action queues a presentation.
pub open spec fn action_is_present(a: FrameAction) -> bool {
    match a {
        FrameAction::Present(_) => true,
        _ => false,
    }
}

/// Whether an action waits on an image-guard fence.
pub open spec fn action_is_wait_image(a: FrameAction) -> bool {
    match a {
        FrameAction::WaitImageFence(_) => true,
        _ => false,
    }
}

/// The frame slot an image-guard wait waits for.
pub open spec fn wait_fence_of(a: FrameAction) -> usize {
    match a {
        FrameAction::WaitImageFence(f) => f,
        _ => 0,
    }
}

/// The synchronization discipline every frame script obeys.
///
/// A submission is always immediately preceded by the reset of the very
/// fence it signals; a frame presents at most once, and only after its
/// submission; an image-guard fence is waited on only when an earlier
/// frame's submission installed it on the acquired image; and an
/// out-of-date acquire submits and presents nothing and rebuilds the
/// swapchain.
pub proof fn lemma_frame_script_discipline(
    s: FrameSync,
    acquire: AcquireOutcome,
    present: PresentOutcome,
)
    requires
        s.wf(),
        acquire matches AcquireOutcome::Image(i) ==> i < s.images_in_flight@.len(),
    ensures
        forall|k: int|
            0 <= k < frame_script(s, acquire, present).len() && action_is_submit(
                #[trigger] frame_script(s, acquire, present)[k],
            ) ==> k > 0 && frame_script(s, acquire, present)[k - 1]
                == FrameAction::ResetInFlightFence(submit_frame(frame_script(s, acquire, present)[k])),
        forall|k1: int, k2: int|
            0 <= k1 < k2 < frame_script(s, acquire, present).len() ==> !(action_is_present(
                #[trigger] frame_script(s, acquire, present)[k1],
            ) && action_is_present(#[trigger] frame_script(s, acquire, present)[k2])),
        forall|k: int|
            0 <= k < frame_script(s, acquire, present).len() && action_is_present(
                #[trigger] frame_script(s, acquire, present)[k],
            ) ==> exists|j: int|
                0 <= j < k && action_is_submit(#[trigger] frame_script(s, acquire, present)[j]),
        forall|k: int|
            0 <= k < frame_script(s, acquire, present).len() && action_is_wait_image(
                #[trigger] frame_script(s, acquire, present)[k],
            ) ==> exists|i: int|
                0 <= i < s.images_in_flight@.len() && acquire == AcquireOutcome::Image(i as usize)
                    && s.images_in_flight@[i] == Some(wait_fence_of(frame_script(s, acquire, present)[k])),
        acquire is OutOfDate ==> (forall|k: int|
            0 <= k < frame_script(s, acquire, present).len() ==> !action_is_submit(
                #[trigger] frame_script(s, acquire, present)[k],
            ) && !action_is_present(frame_script(s, acquire, present)[k])) && frame_script(
            s,
            acquire,
            present,
        ).contains(FrameAction::RebuildSwapchain),
{
    let script = frame_script(s, acquire, present);
    match acquire {
        AcquireOutcome::OutOfDate => {
            assert(script.len() == 2);
            assert(script[1] == FrameAction::RebuildSwapchain);
            assert(script.contains(FrameAction::RebuildSwapchain));
        },
        AcquireOutcome::Failed => {
            assert(script.len() == 1);
        },
        AcquireOutcome::Image(i) => {
            let w: int = match s.images_in_flight@[i as int] {
                Some(_) => 1,
                None => 0,
            };
            assert(script[3 + w] == FrameAction::ResetInFlightFence(s.frame));
            assert(script[4 + w] == (FrameAction::Submit { frame: s.frame, image: i }));
            assert(script[5 + w] == FrameAction::Present(i));
            assert forall|k: int|
                0 <= k < script.len() && action_is_submit(#[trigger] script[k]) implies k > 0
                && script[k - 1] == FrameAction::ResetInFlightFence(submit_frame(script[k])) by {
                assert(k == 4 + w);
            }
            assert forall|k: int|
                0 <= k < script.len() && action_is_present(#[trigger] script[k]) implies exists|
                j: int,
            | 0 <= j < k && action_is_submit(#[trigger] script[j]) by {
                assert(k == 5 + w);
                assert(action_is_submit(script[4 + w]));
            }
            if s.images_in_flight@[i as int] is Some {
                let f0 = s.images_in_flight@[i as int]->0;
                assert forall|k: int|
                    0 <= k < script.len() && action_is_wait_image(#[trigger] script[k])
                    implies exists|j: int|
                    0 <= j < s.images_in_flight@.len() && acquire == AcquireOutcome::Image(
                        j as usize,
                    ) && s.images_in_flight@[j] == Some(wait_fence_of(script[k])) by {
                    assert(script[1] == FrameAction::WaitImageFence(f0));
                    assert(k == 1);
                    assert(s.images_in_flight@[i as int] == Some(wait_fence_of(script[k])));
                }
            }
        },
    }
}

} // verus!
