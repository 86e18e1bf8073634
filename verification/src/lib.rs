//! Data compression codecs with a verified adaptive arithmetic coding engine.

pub mod arith;
pub mod binarith;
pub mod bitfile;
pub mod bits;
pub mod error;
pub mod huff;
pub mod lz77;
pub mod lzmg1;
pub mod lzmg2;
pub mod lzp;
pub mod lzp2;
pub mod lzss2;
pub mod lzw;
pub mod method;
pub mod range;
pub mod window;
pub mod witten_arith;
