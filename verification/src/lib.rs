//! Spectral audio processing over one whole-file FFT.
//!
//! The library keeps per-channel time samples and per-channel spectra in an
//! [`AudioProcessor`] and offers the structural side of the spectral effects:
//! which bins are kept, moved, swapped or split into parts. The sample and bin
//! types are generic; the numeric work on them is supplied by the caller.

mod error;
pub mod operations;
mod processor;
pub mod utils;

pub use error::AudioError;
pub use num_complex::Complex64;
pub use operations::crossfade::{BinAmplitude, FadeAmplitude, PartBinAmplitudes};
pub use processor::{AudioInfo, AudioProcessor, FFTDataInfo, TimeDataInfo};

use vstd::prelude::*;

verus! {

/// Version of the library.
pub const VERSION: &'static str = "0.1.0";

/// Initialize the library.
///
/// Nothing needs setting up on a native target; the function is kept so that
/// front ends have a single place to call before using the library.
pub fn init() {
}

} // verus!
