//! Core of a PNG decoder: chunk container parsing, header extraction, and
//! scanline unfiltering (None/Sub/Up/Average/Paeth), with zlib decompression
//! delegated to an external collaborator.

pub mod errors;
pub mod chunks;
pub mod unfilter;
pub mod pipeline;
