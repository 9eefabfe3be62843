//! A frame-coherent cache of gradient ramp lookup tables.
//!
//! Every live ramp lies in one packed byte buffer that is uploaded to a
//! gradient texture. A ramp that is asked for again keeps its place, so a
//! scene whose gradients repeat from frame to frame generates and uploads
//! nothing. At the end of each frame the ramps that were not asked for are
//! dropped and the buffer is packed again without gaps.
//!
//! The executable code is in [`cache`]; [`model`] is its mathematical state,
//! and [`laws`] proves what holds over whole frames.

pub mod ramp;
pub mod store;
pub mod model;
pub mod cache;
pub mod laws;
