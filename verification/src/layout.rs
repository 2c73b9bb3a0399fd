use vstd::prelude::*;
use crate::error::ConfigError;

verus! {

/// Number of values that one grain takes in a buffer: x, y and z.
pub const STRIDE: u32 = 3;

/// Whether buffers of these lengths can hold the positions and velocities of
/// one set of grains: both of one length, and that a whole number of grains.
pub open spec fn well_shaped(positions: u32, velocities: u32) -> bool {
    positions == velocities && positions % STRIDE == 0
}

/// Number of grains held by a position buffer and a velocity buffer of the
/// given lengths; buffers that differ in length, or hold a part of a grain,
/// are refused.
pub fn grain_count(positions: u32, velocities: u32) -> (r: Result<u32, ConfigError>)
    ensures
        match r {
            Ok(count) => well_shaped(positions, velocities) && count * STRIDE == positions,
            Err(e) => e == ConfigError::BufferShape && !well_shaped(positions, velocities),
        },
{
    if positions == velocities && positions % STRIDE == 0 {
        Ok(positions / STRIDE)
    } else {
        Err(ConfigError::BufferShape)
    }
}

} // verus!
