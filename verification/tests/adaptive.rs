use campross::error::Error;
use campross::huff::adaptive::{compress, decompress, Reader, Tree, Writer};

fn sample_text(len: usize) -> Vec<u8> {
    let words: [&[u8]; 8] = [
        b"next_free_node ", b"lightest ", b"escape\n", b"    self.swap_nodes(i, j);\n", b"leaf ",
        b"weight; ", b"// rebuild ", b"0x8000 ",
    ];
    let mut out = Vec::new();
    let mut x: u32 = 57721;
    while out.len() < len {
        x = x.wrapping_mul(1664525).wrapping_add(1013904223);
        out.extend_from_slice(words[((x >> 16) % 8) as usize]);
    }
    out.truncate(len);
    out
}

#[test]
fn adaptive_compress_empty() {
    let input = b"";
    let mut e = Writer::new(vec![]);
    e.write(input).unwrap();
    e.flush().unwrap();
    let compressed = e.into_inner();
    let expected = vec![0];
    assert_eq!(expected, compressed);
}

#[test]
fn adaptive_decompress_empty() {
    let input = vec![0];
    let mut e = Reader::new(&input[..]);
    let mut decompressed = Vec::new();
    e.read_to_end(&mut decompressed).unwrap();
    let expected = b"";
    assert_eq!(&expected[..], &decompressed[..]);
}

#[test]
fn adaptive_compress_a() {
    let input = b"a";
    let mut e = Writer::new(vec![]);
    e.write(input).unwrap();
    e.flush().unwrap();
    let compressed = e.into_inner();
    let expected = vec![176, 192];
    assert_eq!(expected, compressed);
}

#[test]
fn adaptive_decompress_a() {
    let input = vec![176, 192];
    let mut e = Reader::new(&input[..]);
    let mut decompressed = Vec::new();
    e.read_to_end(&mut decompressed).unwrap();
    let expected = b"a";
    assert_eq!(&expected[..], &decompressed[..]);
}

#[test]
fn adaptive_compress_aaa() {
    let input = b"aaaaaaaaa";
    let mut e = Writer::new(vec![]);
    e.write(input).unwrap();
    e.flush().unwrap();
    let compressed = e.into_inner();
    let expected = vec![176, 176, 48];
    assert_eq!(expected, compressed);
}

#[test]
fn adaptive_decompress_aaa() {
    let input = vec![176, 176, 48];
    let mut e = Reader::new(&input[..]);
    let mut decompressed = Vec::new();
    e.read_to_end(&mut decompressed).unwrap();
    let expected = b"aaaaaaaaa";
    assert_eq!(&expected[..], &decompressed[..]);
}

#[test]
fn adaptive_compress_decompress() {
    let input = sample_text(15000);
    let mut cw = Writer::new(vec![]);
    cw.write(&input[..]).unwrap();
    cw.flush().unwrap();
    let compressed = cw.into_inner();

    let mut cr = Reader::new(&compressed[..]);
    let mut decompressed = Vec::new();
    let _ = cr.read_to_end(&mut decompressed).unwrap();

    assert_eq!(&input[..], &decompressed[..]);
}

#[test]
fn adaptive_round_trip_across_the_halving_of_the_weights() {
    // More than 32768 symbols, so that the tree is built anew, and all
    // byte values, so that the table of the nodes gets full.
    let mut input = sample_text(60000);
    for round in 0..40u32 {
        for b in 0..=255u8 {
            if (b as u32 * 7 + round) % 5 != 0 {
                input.push(b);
            }
        }
    }
    input.extend(std::iter::repeat(b'e').take(50000));
    let compressed = compress(&input[..], vec![6]).unwrap();
    assert_eq!(6, compressed[0]);
    assert!(compressed.len() < input.len());
    let decompressed = decompress(&compressed[1..], vec![7]).unwrap();
    assert_eq!(7, decompressed[0]);
    assert_eq!(&input[..], &decompressed[1..]);
}

#[test]
fn adaptive_reader_gives_bytes_one_by_one() {
    let input = vec![176, 176, 48];
    let mut r = Reader::new(&input[..]);
    for _ in 0..9 {
        assert_eq!(Ok(Some(b'a')), r.read_byte());
    }
    assert_eq!(Ok(None), r.read_byte());
    assert_eq!(Ok(None), r.read_byte());
}

#[test]
fn adaptive_truncated_stream_is_an_error() {
    let input = sample_text(3000);
    let compressed = compress(&input[..], vec![]).unwrap();
    assert_eq!(Err(Error::UnexpectedEof), decompress(&compressed[..compressed.len() / 2], vec![]));
    assert_eq!(Err(Error::UnexpectedEof), decompress(&[], vec![]));
}

#[test]
fn adaptive_tree_takes_every_symbol_once() {
    let mut tree = Tree::new();
    assert_eq!(3, tree.next_free_node);
    for sym in 0..256 {
        assert_eq!(Ok(()), tree.add_new_node(sym));
        assert_eq!(Ok(()), tree.update_model(sym));
    }
    assert_eq!(515, tree.next_free_node);
    // The table is full.
    assert_eq!(Err(Error::CodeTooLong), tree.add_new_node(0));
    for round in 0..40000 {
        assert_eq!(Ok(()), tree.update_model(round % 256));
    }
}
