use campross::error::Error;
use campross::lz77::{compress, decompress, mod_window, Reader, Writer};

fn sample_text(len: usize) -> Vec<u8> {
    let words: [&[u8]; 8] = [
        b"window ", b"hashtab ", b"position\n", b"    let ofs = ", b"match_len ", b"lit; ",
        b"// look ahead ", b"4096 ",
    ];
    let mut out = Vec::new();
    let mut x: u32 = 4242;
    while out.len() < len {
        x = x.wrapping_mul(1664525).wrapping_add(1013904223);
        out.extend_from_slice(words[((x >> 16) % 8) as usize]);
    }
    out.truncate(len);
    out
}

fn cmp_test(input: &[u8], expected_output: &[u8]) {
    let mut cw = Writer::new(vec![]);

    cw.write(&input[..]).unwrap();
    cw.flush().unwrap();
    let compressed = cw.to_inner();

    assert_eq!(&expected_output[..], &compressed[..]);
}

#[test]
fn lz77_compress_empty() {
    cmp_test(b"", &[]);
}

#[test]
fn lz77_compress_a() {
    cmp_test(b"a", &[0, 0, b'a']);
}

#[test]
fn lz77_compress_aaa() {
    cmp_test(b"aaaaaaaaa", &[0, 0, 97, 48, 1, 97]);
}

#[test]
fn lz77_compress_abc() {
    cmp_test(
        b"abcdefgabcdefgabcabcabcdefg",
        &[
            0, 0, 97, 0, 0, 98, 0, 0, 99, 0, 0, 100, 0, 0, 101, 0, 0, 102, 0, 0, 103, 96, 7, 97, 0,
            0, 98, 0, 0, 99, 32, 13, 103,
        ],
    );
}

fn decmp_test(compressed: &[u8], expected_output: &[u8]) {
    let mut cr = Reader::new(compressed);

    let mut decompressed = Vec::new();
    let nread = cr.read_to_end(&mut decompressed).unwrap();

    assert_eq!(expected_output.len(), nread);
    assert_eq!(&expected_output[..], &decompressed[..]);
}

#[test]
fn lz77_decompress_empty() {
    decmp_test(&[], &[]);
}

#[test]
fn lz77_decompress_a() {
    decmp_test(&[0, 0, b'a'], b"a");
}

#[test]
fn lz77_decompress_aaa() {
    decmp_test(&[0, 0, 97, 48, 1, 97], b"aaaaaaaaa");
}

#[test]
fn lz77_decompress_abc() {
    decmp_test(
        &[
            0, 0, 97, 0, 0, 98, 0, 0, 99, 0, 0, 100, 0, 0, 101, 0, 0, 102, 0, 0, 103, 96, 7, 97, 0,
            0, 98, 0, 0, 99, 32, 13, 103,
        ],
        b"abcdefgabcdefgabcabcabcdefg",
    );
}

fn roundtrip(input: &[u8]) {
    let mut cw = Writer::new(vec![]);
    cw.write(&input[..]).unwrap();
    cw.flush().unwrap();
    let compressed = cw.to_inner();

    let mut cr = Reader::new(&compressed[..]);
    let mut decompressed = Vec::new();
    let nread = cr.read_to_end(&mut decompressed).unwrap();

    assert_eq!(input.len(), nread);
    assert_eq!(&input[..], &decompressed[..]);
}

#[test]
fn lz77_compress_decompress() {
    let input = sample_text(11000);
    roundtrip(&input[..]);
}

#[test]
fn lz77_free_functions_round_trip() {
    let input = sample_text(5000);
    let compressed = compress(&input[..], vec![7]).unwrap();
    assert_eq!(7, compressed[0]);
    assert!(compressed.len() < input.len());
    let decompressed = decompress(&compressed[1..], vec![]).unwrap();
    assert_eq!(input, decompressed);
}

#[test]
fn lz77_writes_in_pieces_like_at_once() {
    let input = sample_text(3000);
    let mut cw = Writer::new(vec![]);
    for piece in input.chunks(7) {
        assert_eq!(Ok(piece.len()), cw.write(piece));
    }
    cw.flush().unwrap();
    assert_eq!(compress(&input[..], vec![]).unwrap(), cw.to_inner());
}

#[test]
fn lz77_broken_token_is_an_error() {
    assert_eq!(Err(Error::UnexpectedEof), decompress(&[0, 0, 97, 48], vec![]));
    assert_eq!(Err(Error::UnexpectedEof), decompress(&[0, 0], vec![]));
    let mut cr = Reader::new(&[0, 0, 97, 48, 1]);
    let mut out = Vec::new();
    assert_eq!(Err(Error::UnexpectedEof), cr.read_to_end(&mut out));
    assert_eq!(b"a".to_vec(), out);
}

#[test]
fn lz77_positions_wrap_at_the_window() {
    assert_eq!(0, mod_window(0));
    assert_eq!(4095, mod_window(4095));
    assert_eq!(0, mod_window(4096));
    assert_eq!(17, mod_window(4096 + 17));
}
