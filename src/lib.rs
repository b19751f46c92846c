//! Downsampling of PCM audio by block averaging, and the decode, resample,
//! encode pipeline around it.

pub mod application;
pub mod resample;
pub mod pipeline;
