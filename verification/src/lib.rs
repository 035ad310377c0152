//! Least-significant-bit steganography for binary PPM ("P6") images.
//!
//! The crate has two components: a strict byte-exact parser for the PPM
//! header, which locates the offset where pixel data begins, and a codec
//! that embeds an ASCII message into the least-significant bits of the
//! pixel bytes and extracts it again.  Image-level helpers combine the two.

pub mod codec;
pub mod header;
pub mod image;
