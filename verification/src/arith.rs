//! An adaptive arithmetic coder for byte streams.
//!
//! The coder maps a byte stream to a bit stream with an adaptive model of
//! the byte frequencies.  Encoder and decoder keep the same model and the
//! same interval of code values at every step, which is all that makes the
//! stream decodable: nothing but the code bits is transmitted.

use vstd::prelude::*;
use crate::arith::decoder::{decoded, Decoder};
use crate::arith::encoder::{encoded, Encoder};
use crate::arith::model::initial_table;
use crate::error::Error;

pub mod decoder;
pub mod encoder;
pub mod interval;
pub mod model;
pub mod roundtrip;

verus! {

/// Compress the bytes of `input` with a fresh model and append the
/// compressed data to `output`.
pub fn compress(input: &[u8], output: Vec<u8>) -> (r: Result<Vec<u8>, Error>)
    ensures
        r matches Ok(out) && out@ == output@ + encoded(initial_table(), input@),
{
    let enc = Encoder::new();
    enc.compress(input, output)
}

/// Decompress the data in `input` with a fresh model and append the
/// decompressed bytes to `output`.
pub fn decompress(input: &[u8], output: Vec<u8>) -> (r: Result<Vec<u8>, Error>)
    ensures
        match decoded(initial_table(), input@) {
            Ok(s) => r matches Ok(out) && out@ == output@ + s,
            Err(e) => r matches Err(x) && x == e,
        },
        r matches Err(e) ==> e == Error::UnexpectedEof,
{
    let dec = Decoder::new();
    dec.decompress(input, output)
}

} // verus!
