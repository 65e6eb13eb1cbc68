//! A verified PNG decoder.
//!
//! The library turns a PNG byte stream into the raw, filter-reversed pixel
//! buffer: it validates the signature and the checksummed chunk layout,
//! concatenates the compressed image data, inflates it, undoes the per-scanline
//! filtering, and, for interlaced images, re-interleaves the seven passes into
//! the final pixel grid. Every stage except the inflate call itself is
//! verified against a specification of the format.

pub mod error;
pub mod header;
pub mod crc;
pub mod chunks;
pub mod inflate;
pub mod filter;
pub mod interlace;
pub mod decode;
