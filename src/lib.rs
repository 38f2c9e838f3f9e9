//! A lossless image codec: a fixed 14-byte header, a stream of one-, two-,
//! four- and five-byte pixel operations backed by a 64-slot colour cache, and
//! an 8-byte end marker.

pub mod qoi;
pub mod compare;
pub mod laws;
