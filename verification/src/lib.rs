//! Frame synchronisation and pixel decoding for a 2-bit-per-channel capture link.
//!
//! The link delivers an unstructured byte stream in which frames are separated
//! by a fixed four-byte marker. [`marker`] finds that marker, [`frame_catcher`]
//! cuts the stream into frames read by read, and [`stream`] proves that the
//! frames do not depend on how the stream was cut into reads. [`decoder`]
//! unpacks a frame into an RGBA8 pixel plane, and [`throughput`] keeps the
//! frame count from which the capture rate is computed.

pub mod decoder;
pub mod frame_catcher;
pub mod marker;
pub mod stream;
pub mod throughput;
