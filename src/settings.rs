//! Settings that the host may adjust between frames.
use vstd::prelude::*;

verus! {

/// How pixels whose ray misses the sphere are coloured.
#[derive(Clone, Copy, Debug, PartialEq, Eq, Structural)]
pub enum MissColor {
    /// Opaque black.
    Black,
    /// The ray direction's x and y components, scaled to `[0, 255]`, in the
    /// red and green channels: a picture of the camera's rays.
    DirectionTint,
}

/// Tunable parameters read by the renderer at the start of each frame.
pub struct RenderSettings {
    pub miss_color: MissColor,
}

impl RenderSettings {
    /// The default settings: misses are black.
    pub fn new() -> (r: RenderSettings)
        ensures
            r.miss_color == MissColor::Black,
    {
        RenderSettings { miss_color: MissColor::Black }
    }
}

} // verus!
