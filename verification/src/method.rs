//! The choice among the compression methods.

use vstd::prelude::*;
use crate::arith;
use crate::binarith;
use crate::error::Error;
use crate::huff;
use crate::lz77;
use crate::lzmg2;
use crate::lzp;
use crate::lzss2;
use crate::lzw;
use crate::witten_arith;

verus! {

/// A compression method.
#[derive(Debug, Clone, Copy, PartialEq, Eq, Structural)]
pub enum Method {
    /// The adaptive arithmetic coder for bytes.
    Arith,
    /// The arithmetic coder after Witten, Neal and Cleary.
    WittenArith,
    /// The LZW compressor.
    Lzw,
    /// The LZ77 compressor.
    Lz77,
    /// The LZSS compressor behind an adaptive Huffman coder.
    Lzss,
    /// The LZ77 compressor over a sliding window.
    Lzmg2,
    /// The static Huffman coder.
    Huff,
    /// The block coder in the format of an LZP compressor.
    Lzp,
    /// The binary arithmetic coder with a model of order 16.
    BinArith,
}

/// The name by which a method is chosen, in ASCII.
pub open spec fn name_of(method: Method) -> Seq<u8> {
    match method {
        Method::Arith => seq![97u8, 114, 105, 116, 104],
        Method::WittenArith => seq![119u8, 97, 114, 105, 116, 104],
        Method::Lzw => seq![108u8, 122, 119],
        Method::Lz77 => seq![108u8, 122, 55, 55],
        Method::Lzss => seq![108u8, 122, 115, 115],
        Method::Lzmg2 => seq![108u8, 122, 109, 103, 50],
        Method::Huff => seq![104u8, 117, 102, 102],
        Method::Lzp => seq![108u8, 122, 112],
        Method::BinArith => seq![98u8, 105, 110, 97, 114, 105, 116, 104],
    }
}

/// The method that has the name `name`, where there is one.
pub open spec fn method_named(name: Seq<u8>) -> Option<Method> {
    if name == name_of(Method::Arith) {
        Some(Method::Arith)
    } else if name == name_of(Method::WittenArith) {
        Some(Method::WittenArith)
    } else if name == name_of(Method::Lzw) {
        Some(Method::Lzw)
    } else if name == name_of(Method::Lz77) {
        Some(Method::Lz77)
    } else if name == name_of(Method::Lzss) {
        Some(Method::Lzss)
    } else if name == name_of(Method::Lzmg2) {
        Some(Method::Lzmg2)
    } else if name == name_of(Method::Huff) {
        Some(Method::Huff)
    } else if name == name_of(Method::Lzp) {
        Some(Method::Lzp)
    } else if name == name_of(Method::BinArith) {
        Some(Method::BinArith)
    } else {
        None
    }
}

/// Every method is found again under its name: no two methods have the
/// same name.
pub proof fn lemma_names_differ(method: Method, other: Method)
    ensures
        method_named(name_of(method)) == Some(method),
        name_of(method) == name_of(other) ==> method == other,
{
    lemma_name_marks(method);
    lemma_name_marks(other);
    lemma_name_marks(Method::Arith);
    lemma_name_marks(Method::WittenArith);
    lemma_name_marks(Method::Lzw);
    lemma_name_marks(Method::Lz77);
    lemma_name_marks(Method::Lzss);
    lemma_name_marks(Method::Lzmg2);
    lemma_name_marks(Method::Huff);
    lemma_name_marks(Method::Lzp);
    lemma_name_marks(Method::BinArith);
}

/// What tells the name of a method from the others: its length, its first
/// letter and its third.
pub open spec fn name_marks(method: Method) -> (nat, u8, u8) {
    match method {
        Method::Arith => (5, 97, 105),
        Method::WittenArith => (6, 119, 114),
        Method::Lzw => (3, 108, 119),
        Method::Lz77 => (4, 108, 55),
        Method::Lzss => (4, 108, 115),
        Method::Lzmg2 => (5, 108, 109),
        Method::Huff => (4, 104, 102),
        Method::Lzp => (3, 108, 112),
        Method::BinArith => (8, 98, 110),
    }
}

/// The name of a method has its marks.
pub proof fn lemma_name_marks(method: Method)
    ensures
        name_marks(method) == (name_of(method).len(), name_of(method)[0], name_of(method)[2]),
{
}

/// Whether `name` is the name of `method`.
fn is_name(name: &[u8], method: Method) -> (r: bool)
    ensures
        r == (name@ == name_of(method)),
{
    let word = method.name();
    if name.len() != word.len() {
        return false;
    }
    let mut i: usize = 0;
    while i < name.len()
        invariant
            i <= name@.len(),
            name@.len() == word@.len(),
            word@ == name_of(method),
            forall|j: int| 0 <= j < i ==> name@[j] == word@[j],
        decreases name@.len() - i,
    {
        if name[i] != word[i] {
            return false;
        }
        i += 1;
    }
    proof {
        assert(name@ =~= word@);
    }
    true
}

impl Method {
    /// The name by which the method is chosen, in ASCII.
    pub fn name(&self) -> (name: Vec<u8>)
        ensures
            name@ == name_of(*self),
    {
        let name = match self {
            Method::Arith => vec![97u8, 114, 105, 116, 104],
            Method::WittenArith => vec![119u8, 97, 114, 105, 116, 104],
            Method::Lzw => vec![108u8, 122, 119],
            Method::Lz77 => vec![108u8, 122, 55, 55],
            Method::Lzss => vec![108u8, 122, 115, 115],
            Method::Lzmg2 => vec![108u8, 122, 109, 103, 50],
            Method::Huff => vec![104u8, 117, 102, 102],
            Method::Lzp => vec![108u8, 122, 112],
            Method::BinArith => vec![98u8, 105, 110, 97, 114, 105, 116, 104],
        };
        proof {
            assert(name@ =~= name_of(*self));
        }
        name
    }

    /// The method that has the name `name`, where there is one.
    pub fn from_name(name: &[u8]) -> (r: Option<Method>)
        ensures
            r == method_named(name@),
    {
        if is_name(name, Method::Arith) {
            Some(Method::Arith)
        } else if is_name(name, Method::WittenArith) {
            Some(Method::WittenArith)
        } else if is_name(name, Method::Lzw) {
            Some(Method::Lzw)
        } else if is_name(name, Method::Lz77) {
            Some(Method::Lz77)
        } else if is_name(name, Method::Lzss) {
            Some(Method::Lzss)
        } else if is_name(name, Method::Lzmg2) {
            Some(Method::Lzmg2)
        } else if is_name(name, Method::Huff) {
            Some(Method::Huff)
        } else if is_name(name, Method::Lzp) {
            Some(Method::Lzp)
        } else if is_name(name, Method::BinArith) {
            Some(Method::BinArith)
        } else {
            None
        }
    }

    /// Compress `input` with the method and append the compressed data to
    /// `output`: what the function `compress` of the method's module does.
    pub fn compress(&self, input: &[u8], output: Vec<u8>) -> (r: Result<Vec<u8>, Error>)
        ensures
            *self == Method::Arith ==> (r matches Ok(out) && out@ == output@ + arith::encoder::encoded(
                arith::model::initial_table(),
                input@,
            )),
            *self == Method::WittenArith ==> (r matches Ok(out) && out@ == witten_arith::ended(
                witten_arith::written(witten_arith::encoder_start(output@), input@),
            ).out.bytes),
            *self == Method::Lzw ==> (r matches Ok(out) && out@ == output@ + crate::bits::pack_bits(
                lzw::ended(lzw::taken_in(lzw::compress_start(), input@)),
            )),
            *self == Method::Lz77 ==> (r matches Ok(out) && out@ == lz77::flushed(
                lz77::written(
                    lz77::WriterView {
                        out: output@,
                        window: Seq::new(lz77::WINDOW_SIZE as nat, |i: int| 0u8),
                        hashtab: Seq::new(lz77::HASHTAB_SIZE as nat, |i: int| 0usize),
                        position: 0,
                        look_ahead: 0,
                    },
                    input@,
                ),
            ).out),
            *self == Method::Lzp ==> (r matches Ok(out) && out@ == lzp::block_written(
                lzp::chunks_written(
                    lzp::WriterView {
                        out: output@,
                        block: Seq::empty(),
                        flags: 0,
                        items: Seq::empty(),
                    },
                    input@,
                ),
            ).out),
            *self == Method::BinArith ==> (r matches Ok(out) && out@ == binarith::written_to(
                output@,
                input@,
            )),
            *self == Method::Lzmg2 ==> (r matches Ok(out) && out@.len() > output@.len()
                && out@.take(output@.len() as int) == output@ && lzmg2::decodes_to(
                out@.skip(output@.len() as int),
                input@,
            )),
            r matches Err(e) ==> (*self == Method::Lzss || *self == Method::Huff) && e
                == Error::CodeTooLong,
    {
        match self {
            Method::Arith => arith::compress(input, output),
            Method::WittenArith => witten_arith::compress(input, output),
            Method::Lzw => lzw::compress(input, output),
            Method::Lz77 => lz77::compress(input, output),
            Method::Lzss => lzss2::compress(input, output),
            Method::Lzmg2 => lzmg2::compress(input, output),
            Method::Huff => huff::compress(input, output),
            Method::Lzp => lzp::compress(input, output),
            Method::BinArith => binarith::compress(input, output),
        }
    }

    /// Decompress `input` with the method and append the decompressed bytes
    /// to `output`: what the function `decompress` of the method's module
    /// does.
    pub fn decompress(&self, input: &[u8], output: Vec<u8>) -> (r: Result<Vec<u8>, Error>)
        ensures
            *self == Method::Arith ==> match arith::decoder::decoded(
                arith::model::initial_table(),
                input@,
            ) {
                Ok(s) => r matches Ok(out) && out@ == output@ + s,
                Err(e) => r matches Err(x) && x == e,
            },
            *self == Method::WittenArith ==> match witten_arith::decoded_from(
                witten_arith::decoder_start(input@),
            ) {
                Ok(s) => r matches Ok(out) && out@ == output@ + s,
                Err(e) => r matches Err(x) && x == e,
            },
            *self == Method::Lzw ==> match lzw::decoded(
                lzw::decompress_start(),
                crate::bitfile::BitSource { bits: crate::bits::bytes_to_bits(input@), extra: 0 },
            ) {
                Ok(s) => r matches Ok(out) && out@ == output@ + s,
                Err(e) => r matches Err(x) && x == e,
            },
            *self == Method::Lz77 ==> (if input@.len() % 3 == 0 {
                r matches Ok(out) && out@ == output@ + lz77::decoded(
                    Seq::new(lz77::WINDOW_SIZE as nat, |i: int| 0u8),
                    0,
                    input@,
                )
            } else {
                r matches Err(e) && e == Error::UnexpectedEof
            }),
            *self == Method::Lzmg2 ==> (if lzmg2::broken(Seq::empty(), input@, 0, 0) {
                r matches Err(e) && e == Error::UnexpectedEof
            } else {
                r matches Ok(out) && out@ == output@ + lzmg2::expanded(Seq::empty(), input@, 0, 0)
            }),
            *self == Method::Lzp ==> (if lzp::broken(input@, false, 0, 0) {
                r matches Err(e) && e == Error::UnexpectedEof
            } else {
                r matches Ok(out) && out@ == output@ + lzp::parsed(input@, false, 0, 0)
            }),
            *self == Method::BinArith ==> match r {
                Ok(out) => !binarith::primed_starved(input@) && exists|k: nat|
                    !binarith::reads_fail(binarith::reader_start(input@), k)
                        && #[trigger] binarith::reads_state(binarith::reader_start(input@), k).eof
                        && out@ == output@ + binarith::reads_out(
                        binarith::reader_start(input@),
                        k,
                    ),
                Err(e) => binarith::primed_starved(input@) || exists|k: nat| #[trigger]
                    binarith::reads_fail(binarith::reader_start(input@), k),
            },
            (*self == Method::Huff || *self == Method::Lzss) ==> (r matches Ok(out) ==> out@.len()
                >= output@.len() && out@.take(output@.len() as int) == output@),
            r matches Err(e) ==> e == Error::UnexpectedEof || ((*self == Method::Lzss) && e
                == Error::CodeTooLong),
    {
        match self {
            Method::Arith => arith::decompress(input, output),
            Method::WittenArith => witten_arith::decompress(input, output),
            Method::Lzw => lzw::decompress(input, output),
            Method::Lz77 => lz77::decompress(input, output),
            Method::Lzss => lzss2::decompress(input, output),
            Method::Lzmg2 => lzmg2::decompress(input, output),
            Method::Huff => huff::decompress(input, output),
            Method::Lzp => lzp::decompress(input, output),
            Method::BinArith => binarith::decompress(input, output),
        }
    }
}

/// What a command line asks for.
#[derive(Debug, Clone, Copy, PartialEq, Eq, Structural)]
pub enum Action {
    /// Print how the tool is used.
    Usage,
    /// List what a compressed file holds.
    Inspect(Method),
    /// Compress and decompress a file and compare the result with it.
    Test(Method),
    /// Do so with every method.
    Compare,
    /// Compress a file.
    Compress(Method),
    /// Decompress a file.
    Decompress(Method),
}

/// The options of a command line: which of the flags are set, whether an
/// input and an output file are named, and the method that is named.  The
/// method is `None` where the name that was given is the name of none.
#[derive(Debug, Clone, Copy, PartialEq, Eq, Structural)]
pub struct Flags {
    pub examine: bool,
    pub test: bool,
    pub compare: bool,
    pub compress: bool,
    pub decompress: bool,
    pub has_input: bool,
    pub has_output: bool,
    pub method: Option<Method>,
}

/// What the options ask for.  To examine goes before to test, that before
/// to compare, and that before to compress or to decompress, of which
/// exactly one must be asked for.  Whatever is asked for needs an input
/// file, and all but to compare need a method.
pub open spec fn chosen(flags: Flags) -> Action {
    if flags.examine {
        match flags.method {
            Some(m) => if flags.has_input {
                Action::Inspect(m)
            } else {
                Action::Usage
            },
            None => Action::Usage,
        }
    } else if flags.test {
        match flags.method {
            Some(m) => if flags.has_input {
                Action::Test(m)
            } else {
                Action::Usage
            },
            None => Action::Usage,
        }
    } else if flags.compare {
        if flags.has_input {
            Action::Compare
        } else {
            Action::Usage
        }
    } else if flags.has_input && flags.has_output {
        match flags.method {
            Some(m) => if flags.compress && !flags.decompress {
                Action::Compress(m)
            } else if !flags.compress && flags.decompress {
                Action::Decompress(m)
            } else {
                Action::Usage
            },
            None => Action::Usage,
        }
    } else {
        Action::Usage
    }
}

/// The method that a command line names: `Arith` where it names none.
pub fn method_or_default(name: Option<&[u8]>) -> (r: Option<Method>)
    ensures
        r == match name {
            Some(n) => method_named(n@),
            None => Some(Method::Arith),
        },
{
    match name {
        Some(n) => Method::from_name(n),
        None => Some(Method::Arith),
    }
}

/// Decide what the options ask for.
pub fn decide(flags: &Flags) -> (r: Action)
    ensures
        r == chosen(*flags),
{
    if flags.examine {
        match flags.method {
            Some(m) => {
                if flags.has_input {
                    Action::Inspect(m)
                } else {
                    Action::Usage
                }
            },
            None => Action::Usage,
        }
    } else if flags.test {
        match flags.method {
            Some(m) => {
                if flags.has_input {
                    Action::Test(m)
                } else {
                    Action::Usage
                }
            },
            None => Action::Usage,
        }
    } else if flags.compare {
        if flags.has_input {
            Action::Compare
        } else {
            Action::Usage
        }
    } else if flags.has_input && flags.has_output {
        match flags.method {
            Some(m) => {
                if flags.compress && !flags.decompress {
                    Action::Compress(m)
                } else if !flags.compress && flags.decompress {
                    Action::Decompress(m)
                } else {
                    Action::Usage
                }
            },
            None => Action::Usage,
        }
    } else {
        Action::Usage
    }
}

} // verus!
