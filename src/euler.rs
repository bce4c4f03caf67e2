//! Orientation of a body in 3D space as Euler angles.
use vstd::prelude::*;

verus! {

/// Orientation in the Euler angle convention, each angle in radians. The
/// angle type is left open: the record only holds the three values.
pub struct Euler<T> {
    /// Rotation around the X axis, in radians.
    pub roll: T,
    /// Rotation around the Y axis, in radians.
    pub pitch: T,
    /// Rotation around the Z axis, in radians.
    pub yaw: T,
}

impl<T> Euler<T> {
    /// An orientation made of the three given angles, in radians, unchanged.
    pub fn from_radians(roll: T, pitch: T, yaw: T) -> (r: Self)
        ensures
            r.roll == roll,
            r.pitch == pitch,
            r.yaw == yaw,
    {
        Self { roll, pitch, yaw }
    }
}

} // verus!
