//! Integer core of a grain simulation over a heightfield terrain: the terrain
//! grid with its sampling and differencing stencils, the uniform spatial hash
//! grid that limits collision tests to nearby grains, and the shape that the
//! buffers of a simulation must have.

pub mod error;
pub mod grid;
pub mod layout;
pub mod terrain;
