//! Errors reported by the codecs.

use vstd::prelude::*;

verus! {

/// The ways in which processing a stream can fail.
#[derive(Debug, Clone, Copy, PartialEq, Eq, Structural)]
pub enum Error {
    /// The compressed stream ended before it was complete, or holds what
    /// cannot stand in a stream of its kind.
    UnexpectedEof,
    /// The underlying byte source or sink failed.  The codecs of this
    /// library work on buffers in memory and never report this themselves;
    /// it is there for callers that read and write the buffers.
    Io,
    /// A Huffman tree came out in a shape that cannot be coded: a symbol
    /// does not hang below the root, or its code is too long.
    CodeTooLong,
}

impl Error {
    /// A short description of the error.
    pub fn description(&self) -> (s: &'static str)
        ensures
            s@ == match *self {
                Error::UnexpectedEof => "unexpected end of file"@,
                Error::Io => "input/output error"@,
                Error::CodeTooLong => "code too long"@,
            },
    {
        match *self {
            Error::UnexpectedEof => "unexpected end of file",
            Error::Io => "input/output error",
            Error::CodeTooLong => "code too long",
        }
    }
}

} // verus!
