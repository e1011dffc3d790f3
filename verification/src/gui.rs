//! The frame-rate counter behind the debug overlay: it averages the frame
//! time over small batches of frames. The overlay itself, and the clock,
//! live in the platform layer, which feeds the current time in.

use vstd::prelude::*;

verus! {

/// Frames per averaging batch.
pub const FPS_FRAMES_COUNT: u32 = 5;

/// Averages the duration of a frame over batches of `FPS_FRAMES_COUNT`
/// frames; times are nanosecond readings of a monotonic clock.
#[derive(Debug, Clone, Copy, PartialEq, Eq, Structural)]
pub struct FpsCalculator {
    pub frame_time_nanos: u64,
    pub start_time_nanos: Option<u64>,
    pub frame_count: u32,
}

impl FpsCalculator {
    pub fn new() -> (r: Self)
        ensures
            r.frame_time_nanos == 0,
            r.start_time_nanos is None,
            r.frame_count == 0,
    {
        FpsCalculator { frame_time_nanos: 0, start_time_nanos: None, frame_count: 0 }
    }

    /// Counts one frame; at each full batch, publishes the batch's average
    /// frame time and starts the next batch at the current reading.
    pub fn tick(&mut self, now_nanos: u64)
        requires
            old(self).start_time_nanos matches Some(t) ==> t <= now_nanos,
            old(self).frame_count < FPS_FRAMES_COUNT,
        ensures
            final(self).start_time_nanos is Some,
            old(self).frame_count + 1 == FPS_FRAMES_COUNT ==> {
                &&& final(self).frame_count == 0
                &&& final(self).start_time_nanos == Some(now_nanos)
                &&& final(self).frame_time_nanos == ((now_nanos - (match old(
                    self,
                ).start_time_nanos {
                    Some(t) => t,
                    None => now_nanos,
                })) as u64) / (FPS_FRAMES_COUNT as u64)
            },
            old(self).frame_count + 1 < FPS_FRAMES_COUNT ==> {
                &&& final(self).frame_count == old(self).frame_count + 1
                &&& final(self).frame_time_nanos == old(self).frame_time_nanos
                &&& final(self).start_time_nanos == Some(match old(self).start_time_nanos {
                    Some(t) => t,
                    None => now_nanos,
                })
            },
    {
        let start = match self.start_time_nanos {
            Some(t) => t,
            None => {
                self.start_time_nanos = Some(now_nanos);
                now_nanos
            },
        };
        self.frame_count = self.frame_count + 1;
        if self.frame_count == FPS_FRAMES_COUNT {
            let elapsed = now_nanos - start;
            self.frame_time_nanos = elapsed / FPS_FRAMES_COUNT as u64;
            self.start_time_nanos = Some(now_nanos);
            self.frame_count = 0;
        }
    }
}

} // verus!
