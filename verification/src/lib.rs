//! Chunked gzip compression of one large byte stream.
//!
//! A source is cut into fixed-size chunks, every chunk is compressed on its
//! own as one gzip member, the members are put back in chunk order whatever
//! order the workers finished in, and the finished artifact replaces the one
//! at the destination while one backup generation guards the swap.

pub mod chunker;
pub mod codec;
pub mod compressor;
pub mod error;
pub mod pipeline;
pub mod rotator;
pub mod destination;
pub mod naming;
pub mod reassembler;
pub mod config;
