use campross::error::Error;
use campross::lzw::{compress, decompress, inspect};

fn sample_text(len: usize) -> Vec<u8> {
    let words: [&[u8]; 8] = [
        b"dictionary ", b"code_len ", b"next_code\n", b"    current_string.push(c);\n",
        b"string ", b"EOF; ", b"// codes ", b"65535 ",
    ];
    let mut out = Vec::new();
    let mut x: u32 = 161803;
    while out.len() < len {
        x = x.wrapping_mul(1664525).wrapping_add(1013904223);
        out.extend_from_slice(words[((x >> 16) % 8) as usize]);
    }
    out.truncate(len);
    out
}

#[test]
fn lzw_compress_empty() {
    let input = b"";
    let expected = [128, 0];
    let compressed = compress(&input[..], vec![]).unwrap();
    assert_eq!(&expected[..], &compressed[..]);
}

#[test]
fn lzw_compress_a() {
    let input = b"A";
    let expected = [32, 192, 0];
    let compressed = compress(&input[..], vec![]).unwrap();
    assert_eq!(&expected[..], &compressed[..]);
}

#[test]
fn lzw_compress_aaa() {
    let input = b"AAAAAAAAAAAAAAAAAAAAAAAAAAAAAAAAAAAAAAAAAA";
    let expected = [32, 192, 96, 80, 56, 36, 22, 13, 7, 130, 192, 0];
    let compressed = compress(&input[..], vec![]).unwrap();
    assert_eq!(&expected[..], &compressed[..]);
}

#[test]
fn lzw_decompress_empty() {
    let input = [128, 0];
    let expected = b"";
    let decompressed = decompress(&input[..], vec![]).unwrap();
    assert_eq!(&expected[..], &decompressed[..]);
}

#[test]
fn lzw_decompress_a() {
    let input = [32, 192, 0];
    let expected = b"A";
    let decompressed = decompress(&input[..], vec![]).unwrap();
    assert_eq!(&expected[..], &decompressed[..]);
}

#[test]
fn lzw_decompress_aaa() {
    let input = [32, 192, 96, 80, 56, 36, 22, 13, 7, 130, 192, 0];
    let expected = b"AAAAAAAAAAAAAAAAAAAAAAAAAAAAAAAAAAAAAAAAAA";
    let decompressed = decompress(&input[..], vec![]).unwrap();
    assert_eq!(&expected[..], &decompressed[..]);
}

#[test]
fn lzw_compress_decompress() {
    let plain = sample_text(9000);

    let compressed = compress(&plain[..], vec![]).unwrap();

    let decompressed = decompress(&compressed[..], vec![]).unwrap();
    assert_eq!(plain.len(), decompressed.len());
    assert_eq!(&plain[..], &decompressed[..]);
}

#[test]
fn lzw_round_trip_past_the_last_code() {
    // Enough different strings to use up all codes, so that the
    // dictionaries stop growing and the codes stay at sixteen bits.
    let mut plain = Vec::new();
    let mut x: u32 = 2463534242;
    for _ in 0..300000 {
        x ^= x << 13;
        x ^= x >> 17;
        x ^= x << 5;
        plain.push((x >> 9) as u8 & 0x3f);
    }
    let compressed = compress(&plain[..], vec![1]).unwrap();
    assert_eq!(1, compressed[0]);
    let decompressed = decompress(&compressed[1..], vec![2]).unwrap();
    assert_eq!(2, decompressed[0]);
    assert_eq!(&plain[..], &decompressed[1..]);
}

#[test]
fn lzw_inspect_lists_the_codes() {
    let input = [32, 192, 96, 80, 56, 36, 22, 13, 7, 130, 192, 0];
    let entries = inspect(&input[..]).unwrap();
    let codes: Vec<u64> = entries.iter().map(|e| e.code).collect();
    assert_eq!(vec![65, 257, 258, 259, 260, 261, 262, 263, 261], codes);
    assert_eq!(b"A".to_vec(), entries[0].string);
    assert_eq!(b"AA".to_vec(), entries[1].string);
    assert_eq!(b"AAAAAAAA".to_vec(), entries[7].string);
    let all: Vec<u8> = entries.iter().flat_map(|e| e.string.clone()).collect();
    assert_eq!(vec![b'A'; 42], all);
}

#[test]
fn lzw_broken_streams_are_errors() {
    // The stream ends before the code that ends it.
    assert_eq!(Err(Error::UnexpectedEof), decompress(&[32, 192], vec![]));
    assert_eq!(Err(Error::UnexpectedEof), decompress(&[], vec![]));
    // The first code stands for no string: 257 in nine bits.
    assert_eq!(Err(Error::UnexpectedEof), decompress(&[128, 192, 0], vec![]));
    assert!(matches!(inspect(&[32, 192]), Err(Error::UnexpectedEof)));
}
