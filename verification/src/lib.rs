//! Decompression of standalone Quantum (`.Q`) archives: LZ77 sliding-window
//! matching combined with adaptive arithmetic coding over context-split
//! frequency models.

pub mod bitreader;
pub mod decoder;
pub mod entry;
pub mod errors;
pub mod model;
pub mod parser;
pub mod quantum;
pub mod tables;
pub mod window;
