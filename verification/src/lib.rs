//! Frame-level decompression for LZ4-framed data.
//!
//! A frame is a sequence of compressed blocks followed by a four-byte content
//! checksum. [`frame::FrameDecompressor`] decodes the blocks one at a time into a
//! caller-owned buffer, keeps a running XXH32 digest of everything it has
//! produced, and finally checks that digest against the trailer.
pub mod block;
pub mod frame;
pub mod hash;
pub mod whole_frame;
