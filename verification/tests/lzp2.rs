use campross::error::Error;
use campross::lzp2::{compress, decompress, Reader, Writer};

fn sample_text(len: usize) -> Vec<u8> {
    let words: [&[u8]; 8] = [
        b"window ", b"hashtab ", b"context\n", b"    self.emit_match(len);\n", b"look ahead ",
        b"flags; ", b"// groups ", b"4096 ",
    ];
    let mut out = Vec::new();
    let mut x: u32 = 11235;
    while out.len() < len {
        x = x.wrapping_mul(1664525).wrapping_add(1013904223);
        out.extend_from_slice(words[((x >> 16) % 8) as usize]);
    }
    out.truncate(len);
    out
}

fn cmp_test(input: &[u8], expected_output: &[u8]) {
    let mut cw = Writer::new(vec![]);

    cw.write(&input[..]).unwrap();
    cw.flush().unwrap();
    let compressed = cw.to_inner();

    assert_eq!(&expected_output[..], &compressed[..]);
}

#[test]
fn lzp2_compress_empty() {
    cmp_test(b"", &[0]);
}

#[test]
fn lzp2_compress_a() {
    cmp_test(b"a", &[192, 12, 40]);
}

#[test]
fn lzp2_compress_aaa() {
    cmp_test(b"aaaaaaaaa", &[192, 12, 32, 58]);
}

#[test]
fn lzp2_compress_abc() {
    cmp_test(
        b"abcdefgabcdefgabcabcabcdefg",
        &[
            255, 12, 35, 22, 199, 178, 108, 181, 154, 179, 208, 154, 121, 64, 167, 1, 34, 0,
        ],
    );
}

fn decmp_test(compressed: &[u8], expected_output: &[u8]) {
    let mut cr = Reader::new(compressed);

    let mut decompressed = Vec::new();
    let nread = cr.read_to_end(&mut decompressed).unwrap();

    assert_eq!(expected_output.len(), nread);
    assert_eq!(&expected_output[..], &decompressed[..]);
}

#[test]
fn lzp2_decompress_empty() {
    decmp_test(&[0], &[]);
}

#[test]
fn lzp2_decompress_a() {
    decmp_test(&[192, 12, 40], b"a");
}

#[test]
fn lzp2_decompress_aaa() {
    decmp_test(&[192, 12, 32, 58], b"aaaaaaaaa");
}

#[test]
fn lzp2_decompress_abc() {
    decmp_test(
        &[
            255, 12, 35, 22, 199, 178, 108, 181, 154, 179, 208, 154, 121, 64, 167, 1, 34, 0,
        ],
        b"abcdefgabcdefgabcabcabcdefg",
    );
}

fn roundtrip(input: &[u8]) {
    let mut cw = Writer::new(vec![]);
    cw.write(&input[..]).unwrap();
    cw.flush().unwrap();
    let compressed = cw.to_inner();

    let mut cr = Reader::new(&compressed[..]);
    let mut decompressed = Vec::new();
    let nread = cr.read_to_end(&mut decompressed).unwrap();

    assert_eq!(input.len(), nread);
    assert_eq!(&input[..], &decompressed[..]);
}

#[test]
fn lzp2_compress_decompress() {
    let input = sample_text(13000);
    roundtrip(&input[..]);
}

#[test]
fn lzp2_free_functions_round_trip() {
    let mut input = sample_text(40000);
    input.extend(std::iter::repeat(b'x').take(5000));
    let compressed = compress(&input[..], vec![4]).unwrap();
    assert_eq!(4, compressed[0]);
    assert!(compressed.len() < input.len());
    let decompressed = decompress(&compressed[1..], vec![5]).unwrap();
    assert_eq!(5, decompressed[0]);
    assert_eq!(&input[..], &decompressed[1..]);
}

#[test]
fn lzp2_writes_in_pieces_like_at_once() {
    let input = sample_text(5000);
    let mut cw = Writer::new(vec![]);
    for piece in input.chunks(13) {
        assert_eq!(Ok(piece.len()), cw.write(piece));
    }
    cw.flush().unwrap();
    assert_eq!(compress(&input[..], vec![]).unwrap(), cw.to_inner());
}

#[test]
fn lzp2_truncated_stream_is_an_error() {
    let input = sample_text(3000);
    let compressed = compress(&input[..], vec![]).unwrap();
    assert_eq!(Err(Error::UnexpectedEof), decompress(&compressed[..compressed.len() / 2], vec![]));
    assert_eq!(Err(Error::UnexpectedEof), decompress(&[], vec![]));
}
