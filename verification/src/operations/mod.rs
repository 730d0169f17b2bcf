//! Operations on the processor's data, organized by category.

pub mod amplitude;
pub mod bin_swap;
pub mod convolution;
pub mod crossfade;
pub mod crossfade_weights;
pub mod filters;
pub mod mixing;
pub mod peaks;
pub mod phase;
pub mod spectral;
pub mod split;
pub mod threshold;
