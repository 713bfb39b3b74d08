use vstd::prelude::*;
use crate::color::MAX_COLLIDERS;

verus! {

/// A point sampled on the surface of a rigid collider. The position is held
/// as three binary32 bit patterns; the indices name the owning collider and
/// the surface primitive (segment in 2D, triangle in 3D) the point came from,
/// and `color_index` caches its color classification.
#[derive(Clone, Copy, Debug, Default, PartialEq, Eq)]
pub struct RigidParticle {
    pub position: [u32; 3],
    pub collider_index: u32,
    pub segment_or_triangle_index: u32,
    pub color_index: u32,
}

impl RigidParticle {
    /// The collider index fits a packed color.
    pub open spec fn wf(self) -> bool {
        self.collider_index < MAX_COLLIDERS
    }
}

} // verus!
