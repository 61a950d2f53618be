//! Pre-made types for hexagonal coordinate systems
//!
//! Made referencing the widely documented cube/axial/offset/doubled
//! hexagonal-grid constructions.

pub mod axial;
pub mod cube;
pub mod doubled;
pub mod offset;
pub mod util;

pub use axial::AxialCoords;
pub use cube::CubeCoords;
pub use doubled::DoubledCoords;
pub use offset::OffsetCoords;
