use vstd::prelude::*;

verus! {

/// Why a simulation cannot be built from the values it was given.
#[derive(Clone, Copy, Debug, PartialEq, Eq, Structural)]
pub enum ConfigError {
    /// The number of height samples is not `width * height`.
    TerrainSize,
    /// The position and velocity buffers are not of one length, or that
    /// length is not a multiple of three.
    BufferShape,
}

} // verus!
