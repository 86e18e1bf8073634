//! A simple LZW compressor.
//!
//! The compressed stream is a sequence of codes of 9 to 16 bits, most
//! significant bit first.  The codes below 256 stand for the byte values,
//! code 256 ends the stream, and the codes from 257 on stand for the strings
//! that compressor and decompressor enter into their dictionaries in step.
//!
//! The compressor keeps its dictionary as a tree: for every code the bytes
//! by which the string of the code goes on to another string of the
//! dictionary, each with the code of that string.

use vstd::prelude::*;
use crate::arith::decoder::after;
use crate::bitfile::{BitReader, BitSource, BitWriter};
use crate::bits::{bits_value, lemma_bits_value_bound, pack_bits, value_bits};
use crate::error::Error;

verus! {

/// The code that ends a stream.
pub const EOF: u64 = 256;

/// The largest code.
pub const MAX_CODE: u64 = 65535;

/// The length of the first codes.
pub const FIRST_CODE_LEN: usize = 9;

/// The length of the longest codes.
pub const MAX_CODE_LEN: usize = 16;

/// The first code that stands for a string of the dictionary.
pub const FIRST_CODE: u64 = 257;

/// The number of codes.
pub const CODES: usize = 65536;

/// What compressor and decompressor share: the largest code, the length of
/// the codes at present, and the next code to be given to a string.
pub struct SharedState {
    pub max_code: u64,
    pub code_len: usize,
    pub next_code: u64,
}

impl SharedState {
    /// The state is in order.
    pub open spec fn wf(&self) -> bool {
        &&& self.max_code == MAX_CODE
        &&& FIRST_CODE_LEN <= self.code_len <= MAX_CODE_LEN
        &&& FIRST_CODE <= self.next_code <= MAX_CODE + 1
    }

    /// The state at the start of a stream.
    pub fn new() -> (st: SharedState)
        ensures
            st.wf(),
            st.code_len == FIRST_CODE_LEN,
            st.next_code == FIRST_CODE,
    {
        SharedState { max_code: MAX_CODE, code_len: FIRST_CODE_LEN, next_code: FIRST_CODE }
    }
}

/// The code to which `byte` leads among the first `n` entries of `list`.
pub open spec fn found(list: Seq<(u8, u64)>, byte: u8, n: nat) -> Option<u64>
    decreases n,
{
    if n == 0 {
        None
    } else {
        match found(list, byte, (n - 1) as nat) {
            Some(code) => Some(code),
            None => if list[n - 1].0 == byte {
                Some(list[n - 1].1)
            } else {
                None
            },
        }
    }
}

/// The code of the string that is the string of `code` followed by `byte`,
/// where the dictionary holds it.
pub open spec fn child(children: Seq<Seq<(u8, u64)>>, code: u64, byte: u8) -> Option<u64> {
    found(children[code as int], byte, children[code as int].len())
}

/// The dictionary of the compressor is in order: it has an entry for every
/// code, and leads to codes below `next` only.
pub open spec fn children_ok(children: Seq<Seq<(u8, u64)>>, next: u64) -> bool {
    &&& children.len() == CODES
    &&& forall|k: int, i: int|
        0 <= k < CODES && 0 <= i < children[k].len() ==> (#[trigger] children[k][i]).1 < next
}

/// What is found among the entries of a list is an entry of the list.
pub proof fn lemma_found(list: Seq<(u8, u64)>, byte: u8, n: nat)
    requires
        n <= list.len(),
    ensures
        found(list, byte, n) matches Some(code) ==> exists|i: int|
            0 <= i < n && (#[trigger] list[i]).1 == code,
    decreases n,
{
    if n > 0 {
        lemma_found(list, byte, (n - 1) as nat);
        match found(list, byte, (n - 1) as nat) {
            Some(code) => {},
            None => {
                if list[n - 1].0 == byte {
                    assert(list[n - 1].1 == list[n - 1].1);
                }
            },
        }
    }
}

/// The dictionary of the compressor.
pub struct CompressState {
    children: Vec<Vec<(u8, u64)>>,
}

impl CompressState {
    /// The dictionary as a tree: for every code the bytes by which its
    /// string goes on, each with the code of the longer string.
    pub closed spec fn view(&self) -> Seq<Seq<(u8, u64)>> {
        Seq::new(self.children@.len(), |k: int| self.children@[k]@)
    }

    /// The dictionary at the start of a stream: the strings of one byte.
    pub fn new() -> (st: CompressState)
        ensures
            st@ == Seq::new(CODES as nat, |k: int| Seq::<(u8, u64)>::empty()),
            children_ok(st@, FIRST_CODE),
    {
        let mut children: Vec<Vec<(u8, u64)>> = Vec::new();
        let mut i: usize = 0;
        while i < CODES
            invariant
                i <= CODES,
                children@.len() == i,
                forall|k: int| 0 <= k < i ==> (#[trigger] children@[k])@.len() == 0,
            decreases CODES - i,
        {
            children.push(Vec::new());
            i += 1;
        }
        let st = CompressState { children };
        assert(st@ =~= Seq::new(CODES as nat, |k: int| Seq::<(u8, u64)>::empty())) by {
            assert forall|k: int| 0 <= k < CODES implies #[trigger] st@[k]
                == Seq::<(u8, u64)>::empty() by {
                assert(st.children@[k]@.len() == 0);
                assert(st.children@[k]@ =~= Seq::<(u8, u64)>::empty());
            }
        }
        st
    }

    /// Look up the code of the string of `code` followed by `byte`.
    pub fn get(&self, code: u64, byte: u8) -> (r: Option<u64>)
        requires
            self@.len() == CODES,
            code < CODES,
        ensures
            r == child(self@, code, byte),
    {
        let list = &self.children[code as usize];
        let mut i: usize = 0;
        while i < list.len()
            invariant
                i <= list@.len(),
                list@ == self@[code as int],
                found(list@, byte, i as nat) is None,
            decreases list@.len() - i,
        {
            if list[i].0 == byte {
                let r = list[i].1;
                proof {
                    lemma_found_stays(list@, byte, (i + 1) as nat, list@.len());
                }
                return Some(r);
            }
            i += 1;
        }
        None
    }

    /// Enter the string of `code` followed by `byte` under the code `next`.
    pub fn insert(&mut self, code: u64, byte: u8, next: u64)
        requires
            old(self)@.len() == CODES,
            code < CODES,
        ensures
            final(self)@ == old(self)@.update(
                code as int,
                old(self)@[code as int].push((byte, next)),
            ),
    {
        let mut list: Vec<(u8, u64)> = Vec::new();
        let at = code as usize;
        let mut i: usize = 0;
        while i < self.children[at].len()
            invariant
                at == code,
                at < self.children@.len(),
                self.children == old(self).children,
                i <= self.children@[at as int]@.len(),
                list@ == self.children@[at as int]@.take(i as int),
            decreases self.children@[at as int]@.len() - i,
        {
            let entry = self.children[at][i];
            list.push(entry);
            proof {
                assert(self.children@[at as int]@.take(i + 1) =~= self.children@[at as int]@.take(
                    i as int,
                ).push(entry));
            }
            i += 1;
        }
        proof {
            assert(self.children@[at as int]@.take(i as int) =~= self.children@[at as int]@);
        }
        list.push((byte, next));
        self.children.set(at, list);
        proof {
            assert(self@ =~= old(self)@.update(
                code as int,
                old(self)@[code as int].push((byte, next)),
            ));
        }
    }
}

/// Once a byte is found among the entries of a list, more entries change
/// nothing.
pub proof fn lemma_found_stays(list: Seq<(u8, u64)>, byte: u8, n: nat, m: nat)
    requires
        n <= m,
        found(list, byte, n) is Some,
    ensures
        found(list, byte, m) == found(list, byte, n),
    decreases m,
{
    if n < m {
        lemma_found_stays(list, byte, n, (m - 1) as nat);
    }
}

/// The state of a compression: the dictionary, the next code and the length
/// of the codes, the code of the string that is being matched, and the bits
/// written.
pub struct CompressView {
    pub children: Seq<Seq<(u8, u64)>>,
    pub next_code: u64,
    pub code_len: usize,
    pub current: Option<u64>,
    pub out: Seq<bool>,
}

/// The compression is in order.
pub open spec fn compress_ok(v: CompressView) -> bool {
    &&& children_ok(v.children, v.next_code)
    &&& FIRST_CODE_LEN <= v.code_len <= MAX_CODE_LEN
    &&& FIRST_CODE <= v.next_code <= MAX_CODE + 1
    &&& v.current matches Some(code) ==> code < CODES
}

/// The length of the codes after a string was entered, where `next` is the
/// next code.
pub open spec fn grown(code_len: usize, next: u64) -> usize {
    if next < MAX_CODE && next >= (1u64 << code_len) {
        (code_len + 1) as usize
    } else {
        code_len
    }
}

/// The state after the byte `c` was taken in.  Where the string that is
/// being matched, followed by `c`, is in the dictionary, it is matched on;
/// else it is entered, the code of the string matched so far is written,
/// and the matching starts anew with `c`.
pub open spec fn accepted(v: CompressView, c: u8) -> CompressView {
    match v.current {
        None => CompressView { current: Some(c as u64), ..v },
        Some(code) => match child(v.children, code, c) {
            Some(longer) => CompressView { current: Some(longer), ..v },
            None => CompressView {
                children: if v.next_code <= MAX_CODE {
                    v.children.update(code as int, v.children[code as int].push((c, v.next_code)))
                } else {
                    v.children
                },
                next_code: if v.next_code <= MAX_CODE {
                    (v.next_code + 1) as u64
                } else {
                    v.next_code
                },
                code_len: grown(
                    v.code_len,
                    if v.next_code <= MAX_CODE {
                        (v.next_code + 1) as u64
                    } else {
                        v.next_code
                    },
                ),
                current: Some(c as u64),
                out: v.out + value_bits(code, v.code_len as nat),
            },
        },
    }
}

/// The state after the bytes of `input` were taken in.
pub open spec fn taken_in(v: CompressView, input: Seq<u8>) -> CompressView
    decreases input.len(),
{
    if input.len() == 0 {
        v
    } else {
        accepted(taken_in(v, input.drop_last()), input.last())
    }
}

/// The bits of the stream after its end was written: the code of the string
/// that was being matched, and the code that ends the stream.
pub open spec fn ended(v: CompressView) -> Seq<bool> {
    match v.current {
        None => v.out + value_bits(EOF, v.code_len as nat),
        Some(code) => v.out + value_bits(code, v.code_len as nat) + value_bits(
            EOF,
            v.code_len as nat,
        ),
    }
}

/// The state in which a compression starts.
pub open spec fn compress_start() -> CompressView {
    CompressView {
        children: Seq::new(CODES as nat, |k: int| Seq::<(u8, u64)>::empty()),
        next_code: FIRST_CODE,
        code_len: FIRST_CODE_LEN,
        current: None,
        out: Seq::empty(),
    }
}

/// Taking in a byte keeps the compression in order.
pub proof fn lemma_accepted(v: CompressView, c: u8)
    requires
        compress_ok(v),
    ensures
        compress_ok(accepted(v, c)),
{
    let w = accepted(v, c);
    assert((1u64 << 16) == 65536) by (bit_vector);
    match v.current {
        None => {},
        Some(code) => {
            let list = v.children[code as int];
            match child(v.children, code, c) {
                Some(longer) => {
                    lemma_found(list, c, list.len());
                    let i = choose|i: int| 0 <= i < list.len() && (#[trigger] list[i]).1 == longer;
                    assert(v.children[code as int][i].1 < v.next_code);
                },
                None => {
                    assert forall|k: int, i: int|
                        0 <= k < CODES && 0 <= i < w.children[k].len() implies (
                    #[trigger] w.children[k][i]).1 < w.next_code by {
                        if v.next_code <= MAX_CODE && k == code && i == list.len() {
                        } else {
                            assert(v.children[k][i].1 < v.next_code);
                        }
                    }
                },
            }
        },
    }
}

/// Compress `input` and append the compressed data to `output`.
pub fn compress(input: &[u8], output: Vec<u8>) -> (r: Result<Vec<u8>, Error>)
    ensures
        r matches Ok(out) && out@ == output@ + pack_bits(ended(taken_in(compress_start(), input@))),
{
    let mut state = SharedState::new();
    let mut cstate = CompressState::new();

    let mut current: Option<u64> = None;

    let mut out = BitWriter::new(output);
    let ghost bits0 = out.bits();
    proof {
        assert(bits0 =~= crate::bits::bytes_to_bits(output@));
        assert(bits0 + Seq::<bool>::empty() =~= bits0);
    }

    let mut i: usize = 0;
    while i < input.len()
        invariant
            i <= input@.len(),
            out.wf(),
            state.wf(),
            bits0 == crate::bits::bytes_to_bits(output@),
            compress_ok(taken_in(compress_start(), input@.take(i as int))),
            taken_in(compress_start(), input@.take(i as int)) == (CompressView {
                children: cstate@,
                next_code: state.next_code,
                code_len: state.code_len,
                current: current,
                out: taken_in(compress_start(), input@.take(i as int)).out,
            }),
            out.bits() == bits0 + taken_in(compress_start(), input@.take(i as int)).out,
        decreases input@.len() - i,
    {
        let c = input[i];
        let ghost v = taken_in(compress_start(), input@.take(i as int));
        proof {
            assert(input@.take(i + 1).drop_last() =~= input@.take(i as int));
            lemma_accepted(v, c);
            assert((1u64 << 16) == 65536) by (bit_vector);
        }
        match current {
            None => {
                current = Some(c as u64);
            },
            Some(code) => {
                match cstate.get(code, c) {
                    Some(longer) => {
                        current = Some(longer);
                    },
                    None => {
                        if state.next_code <= state.max_code {
                            cstate.insert(code, c, state.next_code);
                            state.next_code += 1;
                        }
                        let _ = out.write_bits(code, state.code_len);
                        current = Some(c as u64);
                        if state.next_code < state.max_code && state.next_code >= (1u64
                            << state.code_len) {
                            state.code_len += 1;
                        }
                        proof {
                            assert(out.bits() =~= bits0 + accepted(v, c).out);
                        }
                    },
                }
            },
        }
        i += 1;
    }
    proof {
        assert(input@.take(i as int) =~= input@);
    }
    let ghost v = taken_in(compress_start(), input@);

    match current {
        Some(code) => {
            let _ = out.write_bits(code, state.code_len);
        },
        None => {},
    }

    let _ = out.write_bits(EOF, state.code_len);
    proof {
        assert(out.bits() =~= bits0 + ended(v));
        crate::arith::encoder::lemma_pack_appended(output@, ended(v));
    }
    let _ = out.flush();
    Ok(out.to_inner())
}

/// The dictionary of the decompressor: for every code the string that it
/// stands for, where it has one.
pub struct DecompressState {
    dict: Vec<Option<Vec<u8>>>,
}

/// The state of a decompression: the dictionary, the next code and the
/// length of the codes, and the string of the code before.
pub struct DecompressView {
    pub dict: Seq<Option<Seq<u8>>>,
    pub next_code: u64,
    pub code_len: usize,
    pub previous: Seq<u8>,
}

/// The decompression is in order.
pub open spec fn decompress_ok(v: DecompressView) -> bool {
    &&& v.dict.len() == CODES
    &&& forall|k: int|
        0 <= k < CODES ==> (#[trigger] v.dict[k] matches Some(s) ==> s.len() > 0)
    &&& FIRST_CODE_LEN <= v.code_len <= MAX_CODE_LEN
    &&& FIRST_CODE <= v.next_code <= MAX_CODE + 1
}

/// The string that `code` stands for: that of the dictionary, or, for a
/// code that the dictionary does not hold, the string of the code before
/// followed by its own first byte.  There is none where such a code comes
/// first.
pub open spec fn string_of(v: DecompressView, code: u64) -> Option<Seq<u8>> {
    match v.dict[code as int] {
        Some(s) => Some(s),
        None => if v.previous.len() > 0 {
            Some(v.previous.push(v.previous[0]))
        } else {
            None
        },
    }
}

/// The dictionary after `code` was read, whose string is `s`.
pub open spec fn dict_after(v: DecompressView, code: u64, s: Seq<u8>) -> Seq<Option<Seq<u8>>> {
    if v.previous.len() > 0 && v.next_code <= MAX_CODE {
        v.dict.update(code as int, Some(s)).update(
            v.next_code as int,
            Some(v.previous.push(s[0])),
        )
    } else {
        v.dict.update(code as int, Some(s))
    }
}

/// The next code after a code was read.
pub open spec fn next_after(v: DecompressView) -> u64 {
    if v.previous.len() > 0 && v.next_code <= MAX_CODE {
        (v.next_code + 1) as u64
    } else {
        v.next_code
    }
}

/// The length of the codes after a code was read, where `next` is the next
/// code.
pub open spec fn grown_ahead(code_len: usize, next: u64) -> usize {
    if next < MAX_CODE && next + 1 >= (1u64 << code_len) {
        (code_len + 1) as usize
    } else {
        code_len
    }
}

/// The state after `code` was read, whose string is `s`.
pub open spec fn stepped(v: DecompressView, code: u64, s: Seq<u8>) -> DecompressView {
    DecompressView {
        dict: dict_after(v, code, s),
        next_code: next_after(v),
        code_len: grown_ahead(v.code_len, next_after(v)),
        previous: s,
    }
}

/// The bytes that the codes of `src` stand for, up to the code that ends
/// the stream; or the failure where the bits end before that code, or a
/// code comes first that the dictionary does not hold.
pub open spec fn decoded(v: DecompressView, src: BitSource) -> Result<Seq<u8>, Error>
    decreases src.remaining(),
{
    if src.remaining() < v.code_len || v.code_len == 0 {
        Err(Error::UnexpectedEof)
    } else if bits_value(src.take(v.code_len as nat)) == EOF {
        Ok(Seq::empty())
    } else {
        match string_of(v, bits_value(src.take(v.code_len as nat)) as u64) {
            None => Err(Error::UnexpectedEof),
            Some(s) => {
                proof {
                    src.lemma_take_one_more(v.code_len as nat);
                }
                after(
                    s,
                    decoded(
                        stepped(v, bits_value(src.take(v.code_len as nat)) as u64, s),
                        src.skip(v.code_len as nat),
                    ),
                )
            },
        }
    }
}

/// The state in which a decompression starts.
pub open spec fn decompress_start() -> DecompressView {
    DecompressView {
        dict: Seq::new(
            CODES as nat,
            |k: int| if k < 256 { Some(seq![k as u8]) } else { None::<Seq<u8>> },
        ),
        next_code: FIRST_CODE,
        code_len: FIRST_CODE_LEN,
        previous: Seq::empty(),
    }
}

/// Reading a code keeps the decompression in order.
pub proof fn lemma_stepped(v: DecompressView, code: u64, s: Seq<u8>)
    requires
        decompress_ok(v),
        code < CODES,
        string_of(v, code) == Some(s),
    ensures
        s.len() > 0,
        decompress_ok(stepped(v, code, s)),
{
    assert((1u64 << 16) == 65536) by (bit_vector);
    assert(v.dict[code as int] matches Some(t) ==> t.len() > 0);
    let w = stepped(v, code, s);
    assert forall|k: int| 0 <= k < CODES implies (#[trigger] w.dict[k] matches Some(t)
        ==> t.len() > 0) by {
        assert(v.dict[k] matches Some(t) ==> t.len() > 0);
    }
}

/// A copy of the bytes of `s`.
fn copy_of(s: &Vec<u8>) -> (r: Vec<u8>)
    ensures
        r@ == s@,
{
    let mut r: Vec<u8> = Vec::new();
    let mut i: usize = 0;
    while i < s.len()
        invariant
            i <= s@.len(),
            r@ == s@.take(i as int),
        decreases s@.len() - i,
    {
        r.push(s[i]);
        proof {
            assert(s@.take(i + 1) =~= s@.take(i as int).push(s@[i as int]));
        }
        i += 1;
    }
    proof {
        assert(s@.take(i as int) =~= s@);
    }
    r
}

impl DecompressState {
    /// The dictionary: for every code the string that it stands for.
    pub closed spec fn view(&self) -> Seq<Option<Seq<u8>>> {
        Seq::new(
            self.dict@.len(),
            |k: int|
                match self.dict@[k] {
                    Some(s) => Some(s@),
                    None => None,
                },
        )
    }

    /// The dictionary at the start of a stream: the strings of one byte.
    pub fn new() -> (st: DecompressState)
        ensures
            st@ == decompress_start().dict,
    {
        let mut dict: Vec<Option<Vec<u8>>> = Vec::new();
        let mut i: usize = 0;
        while i < CODES
            invariant
                i <= CODES,
                dict@.len() == i,
                forall|k: int|
                    0 <= k < i ==> (if k < 256 {
                        #[trigger] dict@[k] matches Some(s) && s@ == seq![k as u8]
                    } else {
                        dict@[k] is None
                    }),
            decreases CODES - i,
        {
            if i < 256 {
                let mut s: Vec<u8> = Vec::new();
                s.push(i as u8);
                proof {
                    assert(s@ =~= seq![i as u8]);
                }
                dict.push(Some(s));
            } else {
                dict.push(None);
            }
            i += 1;
        }
        let st = DecompressState { dict };
        proof {
            assert(st@ =~= decompress_start().dict);
        }
        st
    }

    /// The string that `code` stands for, where the dictionary holds it.
    pub fn get(&self, code: u64) -> (r: Option<Vec<u8>>)
        requires
            self@.len() == CODES,
            code < CODES,
        ensures
            match self@[code as int] {
                Some(s) => r matches Some(t) && t@ == s,
                None => r is None,
            },
    {
        match &self.dict[code as usize] {
            Some(s) => Some(copy_of(s)),
            None => None,
        }
    }

    /// Let `code` stand for the string `s`.
    pub fn insert(&mut self, code: u64, s: Vec<u8>)
        requires
            old(self)@.len() == CODES,
            code < CODES,
        ensures
            final(self)@ == old(self)@.update(code as int, Some(s@)),
    {
        self.dict.set(code as usize, Some(s));
        proof {
            assert(self@ =~= old(self)@.update(code as int, Some(s@)));
        }
    }
}

/// One code of a stream with the string that it stands for.
pub struct Entry {
    pub code: u64,
    pub string: Vec<u8>,
}

/// The strings of `entries` in a row.
pub open spec fn joined(entries: Seq<Entry>) -> Seq<u8>
    decreases entries.len(),
{
    if entries.len() == 0 {
        Seq::empty()
    } else {
        joined(entries.drop_last()) + entries.last().string@
    }
}

/// Read the codes of `input` up to the code that ends the stream, and
/// append the string of each to `output`.  Where `list` is set, returns the
/// codes with their strings; else returns no entries.
fn expand(input: &[u8], output: &mut Vec<u8>, list: bool) -> (r: Result<Vec<Entry>, Error>)
    ensures
        match decoded(
            decompress_start(),
            BitSource { bits: crate::bits::bytes_to_bits(input@), extra: 0 },
        ) {
            Ok(s) => r matches Ok(entries) && final(output)@ == old(output)@ + s && (list
                ==> joined(entries@) == s) && (!list ==> entries@.len() == 0),
            Err(e) => r matches Err(x) && x == e,
        },
        r matches Err(e) ==> e == Error::UnexpectedEof,
{
    let mut state = SharedState::new();
    let mut dstate = DecompressState::new();
    let mut entries: Vec<Entry> = Vec::new();

    let mut previous_string: Vec<u8> = Vec::new();

    let mut inp = BitReader::new(input);
    let ghost goal = decoded(decompress_start(), inp@);
    let ghost mut done: Seq<u8> = Seq::empty();
    proof {
        assert(old(output)@ + done =~= old(output)@);
        assert(decompress_ok(decompress_start()));
    }

    loop
        invariant
            inp.wf(),
            state.wf(),
            output@ == old(output)@ + done,
            list ==> joined(entries@) == done,
            !list ==> entries@.len() == 0,
            goal == decoded(
                decompress_start(),
                BitSource { bits: crate::bits::bytes_to_bits(input@), extra: 0 },
            ),
            decompress_ok(
                DecompressView {
                    dict: dstate@,
                    next_code: state.next_code,
                    code_len: state.code_len,
                    previous: previous_string@,
                },
            ),
            goal == after(
                done,
                decoded(
                    DecompressView {
                        dict: dstate@,
                        next_code: state.next_code,
                        code_len: state.code_len,
                        previous: previous_string@,
                    },
                    inp@,
                ),
            ),
        decreases inp@.remaining(),
    {
        let ghost v = DecompressView {
            dict: dstate@,
            next_code: state.next_code,
            code_len: state.code_len,
            previous: previous_string@,
        };
        let ghost src = inp@;
        proof {
            src.lemma_take_one_more(state.code_len as nat);
            lemma_bits_value_bound(src.take(state.code_len as nat));
            vstd::arithmetic::power2::lemma2_to64();
            if state.code_len < 16 {
                vstd::arithmetic::power2::lemma_pow2_strictly_increases(
                    state.code_len as nat,
                    16,
                );
            }
        }
        let code = match inp.read_bits(state.code_len) {
            Ok(code) => code,
            Err(e) => {
                return Err(e);
            },
        };
        if code == EOF {
            proof {
                assert(done + Seq::<u8>::empty() =~= done);
            }
            return Ok(entries);
        }
        let str_code = match dstate.get(code) {
            Some(s) => s,
            None => {
                if previous_string.len() == 0 {
                    return Err(Error::UnexpectedEof);
                }
                let mut s = copy_of(&previous_string);
                s.push(previous_string[0]);
                s
            },
        };
        proof {
            lemma_stepped(v, code, str_code@);
        }
        dstate.insert(code, copy_of(&str_code));

        let mut k: usize = 0;
        let ghost before = output@;
        while k < str_code.len()
            invariant
                k <= str_code@.len(),
                output@ == before + str_code@.take(k as int),
            decreases str_code@.len() - k,
        {
            output.push(str_code[k]);
            proof {
                assert(str_code@.take(k + 1) =~= str_code@.take(k as int).push(
                    str_code@[k as int],
                ));
            }
            k += 1;
        }
        proof {
            assert(str_code@.take(k as int) =~= str_code@);
        }
        if list {
            let ghost listed = entries@;
            entries.push(Entry { code: code, string: copy_of(&str_code) });
            proof {
                assert(entries@.drop_last() =~= listed);
            }
        }

        if previous_string.len() > 0 && state.next_code <= state.max_code {
            let mut ns = copy_of(&previous_string);
            ns.push(str_code[0]);
            dstate.insert(state.next_code, ns);
            state.next_code += 1;
        }
        previous_string = str_code;

        proof {
            assert((1u64 << 16) == 65536) by (bit_vector);
        }
        if state.next_code < state.max_code && state.next_code + 1 >= (1u64 << state.code_len) {
            state.code_len += 1;
        }
        proof {
            let next = decoded(
                DecompressView {
                    dict: dstate@,
                    next_code: state.next_code,
                    code_len: state.code_len,
                    previous: previous_string@,
                },
                inp@,
            );
            let s = previous_string@;
            assert(after(done, after(s, next)) == after(done + s, next)) by {
                if let Ok(t) = next {
                    assert(done + (s + t) =~= (done + s) + t);
                }
            }
            done = done + s;
            assert(output@ =~= old(output)@ + done);
        }
    }
}

/// Decompress the data in `input` and append the decompressed bytes to
/// `output`.  Fails where the data ends before the code that ends the
/// stream, or starts with a code that stands for no string.
pub fn decompress(input: &[u8], output: Vec<u8>) -> (r: Result<Vec<u8>, Error>)
    ensures
        match decoded(
            decompress_start(),
            BitSource { bits: crate::bits::bytes_to_bits(input@), extra: 0 },
        ) {
            Ok(s) => r matches Ok(out) && out@ == output@ + s,
            Err(e) => r matches Err(x) && x == e,
        },
        r matches Err(e) ==> e == Error::UnexpectedEof,
{
    let mut out = output;
    match expand(input, &mut out, false) {
        Ok(_) => Ok(out),
        Err(e) => Err(e),
    }
}

/// List the codes of the stream in `input`, each with the string that it
/// stands for.  Fails where `decompress` fails.
pub fn inspect(input: &[u8]) -> (r: Result<Vec<Entry>, Error>)
    ensures
        match decoded(
            decompress_start(),
            BitSource { bits: crate::bits::bytes_to_bits(input@), extra: 0 },
        ) {
            Ok(s) => r matches Ok(entries) && joined(entries@) == s,
            Err(e) => r matches Err(x) && x == e,
        },
        r matches Err(e) ==> e == Error::UnexpectedEof,
{
    let mut out: Vec<u8> = Vec::new();
    expand(input, &mut out, true)
}

} // verus!
