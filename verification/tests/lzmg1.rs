use campross::error::Error;
use campross::lzmg1::{compress, decompress, Compressor, Decompressor};

fn sample_text(len: usize) -> Vec<u8> {
    let words: [&[u8]; 8] = [
        b"hash_table ", b"literals ", b"look_ahead\n", b"    self.delete_string(cp);\n",
        b"token ", b"match; ", b"// window ", b"4096 ",
    ];
    let mut out = Vec::new();
    let mut x: u32 = 8675309;
    while out.len() < len {
        x = x.wrapping_mul(1664525).wrapping_add(1013904223);
        out.extend_from_slice(words[((x >> 16) % 8) as usize]);
    }
    out.truncate(len);
    out
}

#[test]
fn lzmg1_compress_empty() {
    assert_eq!(Ok(vec![]), compress(b"", vec![]));
    assert_eq!(Ok(vec![]), decompress(b"", vec![]));
}

#[test]
fn lzmg1_literals_only() {
    // Three literals and no match.
    assert_eq!(Ok(vec![0x30, b'a', b'b', b'c']), compress(b"abc", vec![]));
    assert_eq!(Ok(b"abc".to_vec()), decompress(&[0x30, b'a', b'b', b'c'], vec![]));
    // Twenty literals: the count goes on after the token.
    let input = b"abcdefghijklmnopqrst";
    let mut expected = vec![0xf0, 20];
    expected.extend_from_slice(input);
    assert_eq!(Ok(expected.clone()), compress(&input[..], vec![]));
    assert_eq!(Ok(input.to_vec()), decompress(&expected[..], vec![]));
}

#[test]
fn lzmg1_runs_with_matches_are_expanded() {
    // Four literals, then a match of six bytes at position 0 of the window.
    assert_eq!(
        Ok(b"abcdabcdab".to_vec()),
        decompress(&[0x46, b'a', b'b', b'c', b'd', 0], vec![])
    );
    // A match of 20 bytes at position 1: the length goes on after the
    // literals.
    assert_eq!(
        Ok(b"xyyyyyyyyyyyyyyyyyyyyy".to_vec()),
        decompress(&[0x2f, b'x', b'y', 20, 1], vec![])
    );
}

#[test]
fn lzmg1_compressor_and_decompressor_by_hand() {
    let input = sample_text(3000);
    let mut compressor = Compressor::new(&input[..], vec![1, 2]);
    assert_eq!(Ok(()), compressor.process());
    let compressed = compressor.finish();
    assert_eq!(&[1u8, 2][..], &compressed[..2]);
    let mut decompressor = Decompressor::new(&compressed[2..], vec![3]);
    let _ = decompressor.process();
    let out = decompressor.finish();
    assert_eq!(3, out[0]);
    assert_eq!(input.len() + 1, out.len());
}

#[test]
fn lzmg1_broken_streams_are_errors() {
    // A literal is missing.
    assert_eq!(Err(Error::UnexpectedEof), decompress(&[0x30, b'a', b'b'], vec![]));
    // The count of the literals ends within its bytes.
    assert_eq!(Err(Error::UnexpectedEof), decompress(&[0xf0, 255], vec![]));
    // The length of the match ends within its bytes.
    assert_eq!(Err(Error::UnexpectedEof), decompress(&[0x0f, 255], vec![]));
}

#[test]
fn lzmg1_compress_decompress() {
    let input = sample_text(11000);
    let result = compress(&input[..], vec![]).unwrap();

    let dec_result = decompress(&result[..], vec![]).unwrap();
    assert_eq!(&input[..], &dec_result[..]);
}
