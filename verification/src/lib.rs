//! Verified core of an RF propagation and coverage engine: raster storage,
//! terrain source ordering and lookup, tile enumeration and grid sampling.
//! Everything here works on integers, indices and carried values; the
//! floating-point propagation and geodesy lives with the callers.

pub mod types;
pub mod source;
pub mod raster;
pub mod tiles;
pub mod grid;
pub mod coverage;
