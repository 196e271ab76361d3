//! Bit-packed totalistic cellular automata on 2D and 3D boolean grids.

pub mod bits;
pub mod lanes;
pub mod layout3;
pub mod layout2;
pub mod grid3;
pub mod grid2;
pub mod separable3;
pub mod separable2;
pub mod neighbors3;
pub mod moore3;
pub mod neighbors2;
pub mod moore2;
pub mod step3;
pub mod step2;
pub mod vector;
pub mod rule;
pub mod text;

pub use grid2::Grid2;
pub use grid3::Grid3;
pub use rule::{Rule2, Rule3, RuleBitset2, RuleBitset3};
pub use vector::{IVec2, IVec3, UVec2, UVec3};
