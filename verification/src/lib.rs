//! Paper-backup raster encoder: exact-arithmetic page geometry, a
//! generalized Hamming forward-error-correction code, and the bit-packing
//! pipeline that drives a monochrome page renderer.

pub mod fec;
pub mod geometry;
pub mod writer;

pub use fec::parity;
pub use fec::FecOrder;
pub use geometry::Settings;
pub use writer::OptarWriter;
