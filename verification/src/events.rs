//! Events that outside parts of the program send back to the main loop.

use vstd::prelude::*;

verus! {

/// An event the main loop handles between frames.
#[derive(Debug, Clone, Copy, PartialEq, Eq, Structural)]
pub enum MainLoopEvent {
    /// Rebuild the graphics pipeline (and everything recorded against it).
    RecreatePipeline,
}

} // verus!
