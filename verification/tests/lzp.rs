use campross::error::Error;
use campross::lzp::{compress, decompress, Reader, Writer};

fn sample_text(len: usize) -> Vec<u8> {
    let words: [&[u8]; 8] = [
        b"block ", b"literal ", b"flags\n", b"    out_count += 1;\n", b"token ", b"eof; ",
        b"// groups ", b"16384 ",
    ];
    let mut out = Vec::new();
    let mut x: u32 = 777;
    while out.len() < len {
        x = x.wrapping_mul(1664525).wrapping_add(1013904223);
        out.extend_from_slice(words[((x >> 16) % 8) as usize]);
    }
    out.truncate(len);
    out
}

fn cmp_test(input: &[u8], expected_output: &[u8]) {
    let mut cw = Writer::new(vec![]);

    cw.write(&input[..]).unwrap();
    cw.flush().unwrap();
    let compressed = cw.to_inner();

    assert_eq!(&expected_output[..], &compressed[..]);
}

#[test]
fn lzp_compress_empty() {
    cmp_test(b"", &[0, 0, 0, 0]);
}

#[test]
fn lzp_compress_a() {
    cmp_test(b"a", &[1, 0, 0, 0, 128, b'a']);
}

#[test]
fn lzp_compress_aaa() {
    cmp_test(
        b"aaaaaaaaa",
        &[9, 0, 0, 0, 255, b'a', b'a', b'a', b'a', b'a', b'a', b'a', b'a', 128, b'a'],
    );
}

fn decmp_test(compressed: &[u8], expected_output: &[u8]) {
    let mut cr = Reader::new(compressed);

    let mut decompressed = Vec::new();
    let nread = cr.read_to_end(&mut decompressed).unwrap();

    assert_eq!(expected_output.len(), nread);
    assert_eq!(&expected_output[..], &decompressed[..]);
}

#[test]
fn lzp_decompress_empty() {
    decmp_test(&[0, 0, 0, 0], &[]);
}

#[test]
fn lzp_decompress_a() {
    decmp_test(&[1, 0, 0, 0, 128, b'a'], b"a");
}

#[test]
fn lzp_decompress_aaa() {
    decmp_test(
        &[9, 0, 0, 0, 255, b'a', b'a', b'a', b'a', b'a', b'a', b'a', b'a', 128, b'a'],
        b"aaaaaaaaa",
    );
}

fn roundtrip(input: &[u8]) {
    let mut cw = Writer::new(vec![]);
    cw.write(&input[..]).unwrap();
    cw.flush().unwrap();
    let compressed = cw.to_inner();

    let mut cr = Reader::new(&compressed[..]);
    let mut decompressed = Vec::new();
    let nread = cr.read_to_end(&mut decompressed).unwrap();

    assert_eq!(input.len(), nread);
    assert_eq!(&input[..], &decompressed[..]);
}

#[test]
fn lzp_compress_decompress() {
    let input = sample_text(10000);
    roundtrip(&input[..]);
}

#[test]
fn lzp_free_functions_round_trip_over_several_blocks() {
    let input = sample_text(100000);
    let compressed = compress(&input[..], vec![]).unwrap();
    // Six blocks of 16384 bytes and one of 1696, each with its length and
    // one byte of flags for every eight literals.
    assert_eq!(100000 + 7 * 4 + 6 * 2048 + 212, compressed.len());
    assert_eq!(&[0u8, 64, 0, 0, 255][..], &compressed[..5]);
    let decompressed = decompress(&compressed[..], vec![]).unwrap();
    assert_eq!(input, decompressed);
}

#[test]
fn lzp_match_in_the_stream_is_an_error() {
    let mut cw = Writer::new(vec![]);
    cw.emit_match(5).unwrap();
    cw.flush().unwrap();
    // The match is coded with a zero flag and its length; the empty last
    // block follows the group that was open.
    let compressed = cw.to_inner();
    assert_eq!(vec![0, 0, 0, 0, 0, 5], compressed);
    assert_eq!(Err(Error::UnexpectedEof), decompress(&compressed[..], vec![]));
}

#[test]
fn lzp_broken_streams_are_errors() {
    assert_eq!(Err(Error::UnexpectedEof), decompress(&[1, 0], vec![]));
    assert_eq!(Err(Error::UnexpectedEof), decompress(&[2, 0, 0, 0, 192, b'a'], vec![]));
    assert_eq!(Ok(vec![]), decompress(&[], vec![]));
    assert_eq!(Ok(vec![]), decompress(&[5, 0, 0, 0], vec![]));
}
