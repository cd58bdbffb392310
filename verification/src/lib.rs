//! yip: data over Opus audio by parallel tone-position FSK.
//!
//! This crate holds the codec's integer logic: configuration arithmetic,
//! the wire header, packet framing with CRC32, bit packing of bytes into
//! tone symbols, the pilot, CRAM, differential and constellation schemes'
//! symbol handling, streaming frame scheduling, bitrate tiers and the `.yip`
//! file layout. Signal synthesis and analysis work on floating-point PCM and
//! live with the program around the library.

pub mod bits;
pub mod compress;
pub mod config;
pub mod constellation;
pub mod container;
pub mod cram;
pub mod differential;
pub mod framing;
pub mod modulation;
pub mod opus;
pub mod pilot;
pub mod quant;
pub mod stream;
pub mod tiers;
