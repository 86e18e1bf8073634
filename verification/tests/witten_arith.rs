use campross::error::Error;
use campross::witten_arith::{compress, decompress, Decoder, Encoder, Model};

fn sample_text(len: usize) -> Vec<u8> {
    let words: [&[u8]; 8] = [
        b"frequency ", b"cum_freq ", b"symbol\n", b"    self.low = 2 * self.low;\n", b"model ",
        b"bits_to_follow; ", b"// halve ", b"16383 ",
    ];
    let mut out = Vec::new();
    let mut x: u32 = 271828;
    while out.len() < len {
        x = x.wrapping_mul(1664525).wrapping_add(1013904223);
        out.extend_from_slice(words[((x >> 16) % 8) as usize]);
    }
    out.truncate(len);
    out
}

#[test]
fn witten_arith_compress_empty() {
    let input = [];
    let compressed = compress(&input[..], vec![]).unwrap();
    let expected = [128, 0];
    assert_eq!(&expected[..], &compressed[..]);
}

#[test]
fn witten_arith_decompress_empty() {
    let input = [128, 0];
    let decompressed = decompress(&input[..], vec![]).unwrap();
    let expected: [u8; 0] = [];
    assert_eq!(&expected[..], &decompressed[..]);
}

#[test]
fn witten_arith_codes_of_short_inputs() {
    assert_eq!(vec![121, 195, 1], compress(b"a", vec![]).unwrap());
    assert_eq!(
        vec![249, 3, 254, 0, 255, 255, 223, 97],
        compress(b"aaaaaaaaa", vec![]).unwrap()
    );
    assert_eq!(Ok(b"a".to_vec()), decompress(&[121, 195, 1], vec![]));
    assert_eq!(
        Ok(b"aaaaaaaaa".to_vec()),
        decompress(&[249, 3, 254, 0, 255, 255, 223, 97], vec![])
    );
}

#[test]
fn witten_arith_compress_decompress() {
    let plain = sample_text(14000);
    let compressed = compress(&plain[..], vec![]).unwrap();
    let decompressed = decompress(&compressed[..], vec![]).unwrap();

    assert_eq!(&plain[..], &decompressed[..]);
}

#[test]
fn witten_arith_round_trip_across_the_halving_of_the_model() {
    let mut plain = sample_text(30000);
    plain.extend(std::iter::repeat(b'z').take(30000));
    let compressed = compress(&plain[..], vec![3]).unwrap();
    assert_eq!(3, compressed[0]);
    assert!(compressed.len() < plain.len() / 2);
    let decompressed = decompress(&compressed[1..], vec![4]).unwrap();
    assert_eq!(4, decompressed[0]);
    assert_eq!(&plain[..], &decompressed[1..]);
}

#[test]
fn witten_arith_encoder_in_pieces() {
    let mut enc = Encoder::new(vec![]);
    assert_eq!(Ok(4), enc.write(b"aaaa"));
    assert_eq!(Ok(5), enc.write(b"aaaaa"));
    enc.flush().unwrap();
    assert_eq!(vec![249, 3, 254, 0, 255, 255, 223, 97], enc.into_inner());
}

#[test]
fn witten_arith_decoder_gives_the_places_of_the_symbols() {
    let input = [121, 195, 1];
    let mut dec = Decoder::new(&input[..]).unwrap();
    // In a fresh model byte b stands at place b + 1.
    assert_eq!(Ok(98), dec.decode_symbol());
    // The model was not updated, so the end of the stream is at its place.
    assert_eq!(Ok(257), dec.decode_symbol());
}

#[test]
fn witten_arith_truncated_stream_is_an_error() {
    let plain = sample_text(2000);
    let compressed = compress(&plain[..], vec![]).unwrap();
    // The bytes of ones that are read after the input spell symbols until
    // they are used up.
    assert_eq!(Err(Error::UnexpectedEof), decompress(&compressed[..100], vec![]));
}

#[test]
fn witten_arith_model_moves_a_symbol_to_the_front_of_its_run() {
    let mut m = Model::new();
    // Place 98 holds 'a'; all places have frequency one, so 'a' moves to
    // place one and takes frequency two there.
    m.update(98);
    let mut enc_a = Encoder::new(vec![]);
    enc_a.write(b"a").unwrap();
    enc_a.write(b"a").unwrap();
    enc_a.flush().unwrap();
    let coded = enc_a.into_inner();
    assert_eq!(Ok(b"aa".to_vec()), decompress(&coded[..], vec![]));
}
