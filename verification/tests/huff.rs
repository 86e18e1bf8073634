use campross::error::Error;
use campross::huff::{compress, decompress, CompressWriter, DecompressReader};

fn sample_text(len: usize) -> Vec<u8> {
    let words: [&[u8]; 8] = [
        b"weight ", b"child0 ", b"parent\n", b"    self.tree[i].active = true;\n", b"block ",
        b"root; ", b"// codes ", b"0x1fff ",
    ];
    let mut out = Vec::new();
    let mut x: u32 = 14142;
    while out.len() < len {
        x = x.wrapping_mul(1664525).wrapping_add(1013904223);
        out.extend_from_slice(words[((x >> 16) % 8) as usize]);
    }
    out.truncate(len);
    out
}

const LOREM: &[u8] = b"Lorem ipsum dolor sit amet, consetetur sadipscing elitr, sed diam nonumy eirmod tempor invidunt ut labore et dolore magna aliquyam erat, sed diam voluptua. At vero eos et accusam et justo duo dolores et ea rebum. Stet clita kasd gubergren, no sea takimata sanctus est Lorem ipsum dolor sit amet. Lorem ipsum dolor sit amet, consetetur sadipscing elitr, sed diam nonumy eirmod tempor invidunt ut labore et dolore magna aliquyam erat, sed diam voluptua. At vero eos et accusam et justo duo dolores et ea rebum. Stet clita kasd gubergren, no sea takimata sanctus est Lorem ipsum dolor sit amet.";

const LOREM_CODE: [u8; 385] = [
    32, 32, 0, 99, 44, 46, 0, 8, 0, 0, 0, 6, 65, 65, 0, 2, 76, 76, 0, 4, 83, 83, 0, 2, 97, 121,
    0, 44, 0, 6, 0, 12, 0, 26, 0, 56, 0, 0, 0, 8, 0, 0, 0, 30, 0, 2, 0, 4, 0, 18, 0, 32, 0, 20,
    0, 42, 0, 10, 0, 2, 0, 32, 0, 36, 0, 50, 0, 30, 0, 6, 0, 0, 0, 0, 0, 4, 0, 207, 166, 11,
    207, 8, 69, 229, 82, 166, 240, 123, 237, 70, 185, 241, 169, 192, 209, 168, 222, 44, 143, 8,
    196, 230, 239, 18, 61, 103, 60, 2, 228, 118, 190, 117, 52, 87, 188, 27, 45, 23, 208, 184,
    83, 115, 158, 99, 36, 158, 244, 223, 43, 203, 76, 56, 222, 85, 42, 97, 214, 221, 157, 251,
    145, 191, 163, 219, 94, 26, 245, 207, 0, 185, 29, 175, 205, 82, 76, 53, 47, 39, 124, 223,
    152, 53, 113, 81, 198, 251, 199, 20, 139, 94, 55, 191, 36, 109, 114, 74, 229, 82, 166, 17,
    198, 241, 125, 134, 84, 92, 157, 247, 70, 252, 100, 123, 125, 229, 193, 119, 83, 40, 103,
    88, 77, 207, 58, 240, 47, 237, 188, 53, 189, 191, 23, 60, 117, 35, 136, 223, 159, 76, 23,
    158, 16, 139, 202, 165, 77, 224, 247, 218, 141, 201, 243, 233, 130, 243, 194, 17, 121, 84,
    169, 188, 30, 251, 81, 174, 124, 106, 112, 52, 106, 55, 139, 35, 194, 49, 57, 187, 196,
    143, 89, 207, 0, 185, 29, 175, 157, 77, 21, 239, 6, 203, 69, 244, 46, 20, 220, 231, 152,
    201, 39, 189, 55, 202, 242, 211, 14, 55, 149, 74, 152, 117, 183, 103, 126, 228, 111, 232,
    246, 215, 134, 189, 115, 192, 46, 71, 107, 243, 84, 147, 13, 75, 201, 223, 55, 230, 13, 92,
    84, 113, 190, 241, 197, 34, 215, 141, 239, 201, 27, 92, 146, 185, 84, 169, 132, 113, 188,
    95, 97, 149, 23, 39, 125, 209, 191, 25, 30, 223, 121, 112, 93, 212, 202, 25, 214, 19, 115,
    206, 188, 11, 251, 111, 13, 111, 111, 197, 207, 29, 72, 226, 55, 231, 211, 5, 231, 132, 34,
    242, 169, 83, 120, 61, 246, 163, 114, 103, 64,
];

#[test]
fn huff_compress_empty() {
    let input = b"";
    let mut cw = CompressWriter::new(vec![]);
    cw.write(&input[..]).unwrap();
    cw.flush().unwrap();
    let compressed = cw.to_inner();
    let expected = [255, 255, 0, 0, 0, 128];
    assert_eq!(&expected[..], &compressed[..]);
}

#[test]
fn huff_compress_a() {
    let input = b"a";
    let mut cw = CompressWriter::new(vec![]);
    cw.write(&input[..]).unwrap();
    cw.flush().unwrap();
    let compressed = cw.to_inner();
    let expected = [97, 97, 0, 1, 0, 128];
    assert_eq!(&expected[..], &compressed[..]);
}

#[test]
fn huff_compress_aaa() {
    let input = b"aaaaaaaaa";
    let mut cw = CompressWriter::new(vec![]);
    cw.write(&input[..]).unwrap();
    cw.flush().unwrap();
    let compressed = cw.to_inner();
    let expected = [97, 97, 0, 9, 0, 255, 160];
    assert_eq!(&expected[..], &compressed[..]);
}

#[test]
fn compress_lorem() {
    let mut cw = CompressWriter::new(vec![]);
    cw.write(LOREM).unwrap();
    cw.flush().unwrap();
    let compressed = cw.to_inner();
    assert_eq!(&LOREM_CODE[..], &compressed[..]);
}

#[test]
fn huff_decompress_empty() {
    let input = [255, 255, 0, 0, 0, 128];
    let mut cr = DecompressReader::new(&input[..]);
    let mut decompressed = Vec::new();
    let _ = cr.read_to_end(&mut decompressed).unwrap();
    let expected = b"";
    assert_eq!(&expected[..], &decompressed[..]);
}

#[test]
fn huff_decompress_a() {
    let input = [97, 97, 0, 1, 0, 128];
    let mut cr = DecompressReader::new(&input[..]);
    let mut decompressed = Vec::new();
    let _ = cr.read_to_end(&mut decompressed).unwrap();
    let expected = b"a";
    assert_eq!(&expected[..], &decompressed[..]);
}

#[test]
fn huff_decompress_aaa() {
    let input = [97, 97, 0, 9, 0, 255, 160];
    let mut cr = DecompressReader::new(&input[..]);
    let mut decompressed = Vec::new();
    let _ = cr.read_to_end(&mut decompressed).unwrap();
    let expected = b"aaaaaaaaa";
    assert_eq!(&expected[..], &decompressed[..]);
}

#[test]
fn decompress_lorem() {
    let mut cr = DecompressReader::new(&LOREM_CODE[..]);
    let mut decompressed = Vec::new();
    let _ = cr.read_to_end(&mut decompressed).unwrap();
    assert_eq!(LOREM, &decompressed[..]);
}

#[test]
fn huff_compress_decompress() {
    let input = sample_text(18000);
    let mut cw = CompressWriter::new(vec![]);
    cw.write(&input[..]).unwrap();
    cw.flush().unwrap();
    let compressed = cw.to_inner();

    let mut cr = DecompressReader::new(&compressed[..]);
    let mut decompressed = Vec::new();
    let _ = cr.read_to_end(&mut decompressed).unwrap();

    assert_eq!(&input[..], &decompressed[..]);
}

#[test]
fn huff_round_trip_over_several_blocks() {
    let mut input = sample_text(150000);
    // A block of few byte values with large frequencies, which are scaled
    // down.
    input.extend(std::iter::repeat(b'q').take(40000));
    let compressed = compress(&input[..], vec![8]).unwrap();
    assert_eq!(8, compressed[0]);
    assert!(compressed.len() < input.len());
    let decompressed = decompress(&compressed[1..], vec![9]).unwrap();
    assert_eq!(9, decompressed[0]);
    assert_eq!(&input[..], &decompressed[1..]);
}

#[test]
fn huff_round_trip_of_all_byte_values() {
    let mut input = Vec::new();
    for round in 0..300u32 {
        for b in 0..=255u8 {
            if (b as u32 + round) % 7 != 0 {
                input.push(b);
            }
        }
    }
    let compressed = compress(&input[..], vec![]).unwrap();
    assert_eq!(Ok(input), decompress(&compressed[..], vec![]));
}

#[test]
fn huff_writes_in_pieces_like_at_once() {
    let input = sample_text(70000);
    let mut cw = CompressWriter::new(vec![]);
    for piece in input.chunks(999) {
        assert_eq!(Ok(piece.len()), cw.write(piece));
    }
    cw.flush().unwrap();
    assert_eq!(compress(&input[..], vec![]).unwrap(), cw.to_inner());
}

#[test]
fn huff_truncated_stream_is_an_error() {
    assert_eq!(Err(Error::UnexpectedEof), decompress(&LOREM_CODE[..200], vec![]));
    assert_eq!(Err(Error::UnexpectedEof), decompress(&LOREM_CODE[..20], vec![]));
    assert_eq!(Err(Error::UnexpectedEof), decompress(&[], vec![]));
    assert_eq!(Err(Error::UnexpectedEof), decompress(&[97, 97, 0, 9, 0], vec![]));
}

#[test]
fn huff_reader_at_the_end_reads_nothing() {
    let input = [97, 97, 0, 1, 0, 128];
    let mut cr = DecompressReader::new(&input[..]);
    let mut out = Vec::new();
    assert_eq!(Ok(1), cr.read_to_end(&mut out));
    assert_eq!(Ok(0), cr.read_to_end(&mut out));
    assert_eq!(b"a".to_vec(), out);
}

#[test]
fn error_descriptions() {
    assert_eq!("unexpected end of file", Error::UnexpectedEof.description());
    assert_eq!("input/output error", Error::Io.description());
    assert_eq!("code too long", Error::CodeTooLong.description());
}
