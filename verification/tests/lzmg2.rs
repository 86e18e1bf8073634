use campross::error::Error;
use campross::lzmg2::{compress, decompress, CompressWriter, DecompressReader};

fn sample_text(len: usize) -> Vec<u8> {
    let words: [&[u8]; 8] = [
        b"sliding ", b"window ", b"advance\n", b"    emit_match(ofs, len);\n", b"token ",
        b"hash; ", b"// look ahead ", b"8209 ",
    ];
    let mut out = Vec::new();
    let mut x: u32 = 31337;
    while out.len() < len {
        x = x.wrapping_mul(1664525).wrapping_add(1013904223);
        out.extend_from_slice(words[((x >> 16) % 8) as usize]);
    }
    out.truncate(len);
    out
}

#[test]
fn lzmg2_compress_empty() {
    let mut cw = CompressWriter::new(vec![]);
    let input = b"";
    let expected = [0u8];

    cw.write(&input[..]).unwrap();
    cw.flush().unwrap();
    let compressed = cw.to_inner();

    assert_eq!(&expected[..], &compressed[..]);
}

#[test]
fn lzmg2_compress_a() {
    let mut cw = CompressWriter::new(vec![]);
    let input = b"a";
    let expected = [128u8, 97];

    cw.write(&input[..]).unwrap();
    cw.flush().unwrap();
    let compressed = cw.to_inner();

    assert_eq!(&expected[..], &compressed[..]);
}

#[test]
fn lzmg2_decompress_empty() {
    let compressed = [];
    let mut cr = DecompressReader::new(&compressed[..]);
    let expected: [u8; 0] = [];

    let mut decompressed = Vec::new();
    let nread = cr.read_to_end(&mut decompressed).unwrap();

    assert_eq!(0, nread);
    assert_eq!(&expected[..], &decompressed[..]);
}

#[test]
fn lzmg2_decompress_a() {
    let compressed = [128u8, 97];
    let mut cr = DecompressReader::new(&compressed[..]);
    let expected = b"a";

    let mut decompressed = Vec::new();
    let nread = cr.read_to_end(&mut decompressed).unwrap();

    assert_eq!(1, nread);
    assert_eq!(&expected[..], &decompressed[..]);
}

#[test]
fn lzmg2_compress_decompress() {
    let input = sample_text(12500);
    let mut cw = CompressWriter::new(vec![]);
    cw.write(&input[..]).unwrap();
    cw.flush().unwrap();
    let compressed = cw.to_inner();

    let mut cr = DecompressReader::new(&compressed[..]);
    let mut decompressed = Vec::new();
    let nread = cr.read_to_end(&mut decompressed).unwrap();

    assert_eq!(input.len(), nread);
    assert_eq!(&input[..], &decompressed[..]);
}

#[test]
fn lzmg2_run_is_a_literal_and_a_match() {
    // One literal, then a match of eight bytes one byte back.
    let compressed = compress(b"aaaaaaaaa", vec![]).unwrap();
    assert_eq!(vec![128u8, 97, 97, 0], compressed);
    assert_eq!(Ok(b"aaaaaaaaa".to_vec()), decompress(&compressed[..], vec![]));
}

#[test]
fn lzmg2_match_lengths_and_offsets() {
    // "ab", then a match of seven bytes two bytes back.
    assert_eq!(Ok(b"ababababa".to_vec()), decompress(&[0b1100_0000, b'a', b'b', 0x52, 0], vec![]));
    // An offset of zero copies zero bytes.
    assert_eq!(Ok(vec![b'a', 0, 0]), decompress(&[0b1000_0000, b'a', 0x00, 0], vec![]));
}

#[test]
fn lzmg2_round_trip_across_slides_of_the_window() {
    let input = sample_text(70000);
    let compressed = compress(&input[..], vec![5]).unwrap();
    assert_eq!(5, compressed[0]);
    assert!(compressed.len() < input.len());
    let decompressed = decompress(&compressed[1..], vec![]).unwrap();
    assert_eq!(input, decompressed);
}

#[test]
fn lzmg2_broken_streams_are_errors() {
    // A literal is missing.
    assert_eq!(Err(Error::UnexpectedEof), decompress(&[128u8], vec![]));
    // The second byte of a match is missing.
    assert_eq!(Err(Error::UnexpectedEof), decompress(&[128u8, 97, 81], vec![]));
    // A match starts before the data.
    assert_eq!(Err(Error::UnexpectedEof), decompress(&[0u8, 0x02, 0], vec![]));
    let mut cr = DecompressReader::new(&[0b1000_0000u8, b'a', 0x05, 0]);
    let mut out = Vec::new();
    assert_eq!(Err(Error::UnexpectedEof), cr.read_to_end(&mut out));
    assert_eq!(b"a".to_vec(), out);
}
