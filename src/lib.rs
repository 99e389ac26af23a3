//! A lossless byte-stream codec that squeezes out the leading bits shared by
//! neighbouring bytes.
//!
//! Encoding runs `bytes -> blockizer -> merger -> packer`; decoding runs the
//! unpacker. Every stage is a pull stream that owns its upstream, and each
//! stage's `next` is proved to produce the next item of a mathematical model
//! of its whole output. `correctness` proves that decoding undoes encoding.

pub mod source;
pub mod bits;
pub mod compression_block_header;
pub mod bit_accumulator;
pub mod to_compression_blocks;
pub mod merge_blocks;
pub mod compress_blocks;
pub mod decompress_blocks;
pub mod pipeline;
pub mod correctness;
