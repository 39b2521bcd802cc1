use vstd::prelude::*;

verus! {

/// Tag for the diagnostic text that shows the viewpoint speed. The
/// engine draws nothing itself; the presentation collaborator owns the
/// on-screen text and marks it with this type so it can find and update
/// it each frame.
#[derive(Clone, Copy, Debug, PartialEq, Eq, Structural)]
pub struct SpeedDisplay;

/// Tag for the diagnostic text that shows the frame rate, owned and
/// updated by the presentation collaborator in the same way.
#[derive(Clone, Copy, Debug, PartialEq, Eq, Structural)]
pub struct FpsText;

} // verus!
