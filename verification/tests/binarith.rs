use campross::binarith::{compress, decompress, Decoder, Encoder, Reader, Writer};
use campross::error::Error;

fn sample_text(len: usize) -> Vec<u8> {
    let words: [&[u8]; 8] = [
        b"encoder ", b"decoder ", b"range\n", b"    low = 2 * low;\n", b"pending ", b"bit; ",
        b"// counts ", b"0x0800 ",
    ];
    let mut out = Vec::new();
    let mut x: u32 = 99991;
    while out.len() < len {
        x = x.wrapping_mul(1664525).wrapping_add(1013904223);
        out.extend_from_slice(words[((x >> 16) % 8) as usize]);
    }
    out.truncate(len);
    out
}

#[test]
fn encode_0() {
    let mut e = Encoder::new(vec![]);
    e.encode(1, 1, 1).unwrap();
    e.encode(0, 1, 1).unwrap();
    e.encode(1, 1, 1).unwrap();
    e.finish().unwrap();

    let o = e.into_inner();

    assert_eq!(vec![80, 0, 0, 0, 0, 0, 0, 0, 0], o);
}

#[test]
fn decode_0() {
    let data = vec![80, 0, 0, 0, 0, 0, 0, 0, 0];
    let mut d = Decoder::new(&data[..]).unwrap();

    let b = d.decode(1, 1).unwrap();
    assert_eq!(1, b);

    let b = d.decode(1, 1).unwrap();
    assert_eq!(0, b);

    let b = d.decode(1, 1).unwrap();
    assert_eq!(1, b);
}

#[test]
fn binarith_encode_1() {
    let mut e = Encoder::new(vec![]);
    e.encode(0, 2, 1).unwrap();
    e.encode(1, 2, 1).unwrap();
    e.encode(0, 2, 1).unwrap();
    e.finish().unwrap();

    let o = e.into_inner();

    assert_eq!(vec![56, 227, 142, 56, 227, 142, 56, 240], o);
}

#[test]
fn binarith_decode_1() {
    let data = vec![56, 227, 142, 56, 227, 142, 56, 240];
    let mut d = Decoder::new(&data[..]).unwrap();

    let b = d.decode(2, 1).unwrap();
    assert_eq!(0, b);

    let b = d.decode(2, 1).unwrap();
    assert_eq!(1, b);

    let b = d.decode(2, 1).unwrap();
    assert_eq!(0, b);
}

#[test]
fn encode_2() {
    let mut e = Encoder::new(vec![]);
    e.encode(1, 2, 1).unwrap();
    e.encode(1, 2, 1).unwrap();
    e.encode(1, 2, 1).unwrap();
    e.encode(1, 2, 1).unwrap();
    e.finish().unwrap();

    let o = e.into_inner();

    assert_eq!(vec![126, 107, 116, 240, 50, 145, 97, 251, 0], o);
}

#[test]
fn decode_2() {
    let data = vec![126, 107, 116, 240, 50, 145, 97, 251, 0];
    let mut d = Decoder::new(&data[..]).unwrap();

    let b = d.decode(2, 1).unwrap();
    assert_eq!(1, b);

    let b = d.decode(2, 1).unwrap();
    assert_eq!(1, b);

    let b = d.decode(2, 1).unwrap();
    assert_eq!(1, b);

    let b = d.decode(2, 1).unwrap();
    assert_eq!(1, b);
}

const CODE_3: [u8; 62] = [
    90, 45, 46, 155, 20, 36, 173, 47, 2, 136, 56, 106, 76, 39, 34, 243, 174, 18, 176, 28, 87, 111,
    96, 65, 73, 122, 245, 55, 159, 169, 154, 174, 176, 116, 65, 55, 69, 35, 211, 175, 220, 114, 61,
    99, 156, 183, 80, 147, 85, 36, 104, 238, 220, 92, 218, 235, 230, 177, 71, 199, 217, 64,
];

#[test]
fn encode_3() {
    let mut e = Encoder::new(vec![]);
    for _ in 0..100 {
        e.encode(1, 1, 7).unwrap();
        e.encode(1, 1, 7).unwrap();
        e.encode(0, 1, 7).unwrap();
        e.encode(1, 1, 7).unwrap();
        e.encode(1, 1, 7).unwrap();
        e.encode(1, 1, 7).unwrap();
        e.encode(1, 1, 7).unwrap();
        e.encode(1, 1, 7).unwrap();
    }
    e.finish().unwrap();

    let o = e.into_inner();
    assert_eq!(CODE_3.to_vec(), o);
}

#[test]
fn decode_3() {
    let mut d = Decoder::new(&CODE_3[..]).unwrap();

    for _ in 0..100 {
        let b = d.decode(1, 7).unwrap();
        assert_eq!(1, b);
        let b = d.decode(1, 7).unwrap();
        assert_eq!(1, b);
        let b = d.decode(1, 7).unwrap();
        assert_eq!(0, b);
        let b = d.decode(1, 7).unwrap();
        assert_eq!(1, b);
        let b = d.decode(1, 7).unwrap();
        assert_eq!(1, b);
        let b = d.decode(1, 7).unwrap();
        assert_eq!(1, b);
        let b = d.decode(1, 7).unwrap();
        assert_eq!(1, b);
        let b = d.decode(1, 7).unwrap();
        assert_eq!(1, b);
    }
}

#[test]
fn encode_decode() {
    let plain = sample_text(12000);
    let mut e = Encoder::new(vec![]);

    for b in plain.iter() {
        e.encode_byte(*b).unwrap();
    }
    e.finish().unwrap();

    let o = e.into_inner();

    let mut d = Decoder::new(&o[..]).unwrap();
    for b in plain.iter() {
        let decoded = d.decode_byte().unwrap();
        assert_eq!(*b, decoded);
    }
}

#[test]
fn binarith_compress_empty() {
    let input = b"";
    let mut c = Writer::new(vec![]);
    c.write(input).unwrap();
    c.flush().unwrap();
    let compressed = c.into_inner();
    let expected = [126, 187, 144, 121, 169, 210, 96, 96, 0];
    assert_eq!(&expected[..], &compressed[..]);
}

#[test]
fn binarith_decompress_empty() {
    let input = [126, 187, 144, 121, 169, 210, 96, 96, 0];
    let mut d = Reader::new(&input[..]).unwrap();
    let mut decompressed = Vec::new();
    d.read_to_end(&mut decompressed).unwrap();
    let expected: &[u8] = &[];

    assert_eq!(&expected[..], &decompressed[..]);
}

#[test]
fn binarith_compress_aaa() {
    let input = b"aaaaaaaaa";
    let mut c = Writer::new(vec![]);
    c.write(input).unwrap();
    c.flush().unwrap();
    let compressed = c.into_inner();
    let expected = [53, 66, 117, 134, 245, 8, 246, 61, 63, 160, 94, 186, 160, 0];
    assert_eq!(&expected[..], &compressed[..]);
}

#[test]
fn binarith_decompress_aaa() {
    let input = [53, 66, 117, 134, 245, 8, 246, 61, 63, 160, 94, 186, 160, 0];
    let mut d = Reader::new(&input[..]).unwrap();
    let mut decompressed = Vec::new();
    let expected = b"aaaaaaaaa";
    d.read_to_end(&mut decompressed).unwrap();

    assert_eq!(&expected[..], &decompressed[..]);
}

#[test]
fn binarith_compress_decompress() {
    let plain = sample_text(12000);

    let mut c = Writer::new(vec![]);
    c.write(&plain[..]).unwrap();
    c.flush().unwrap();
    let compressed = c.into_inner();

    let mut d = Reader::new(&compressed[..]).unwrap();
    let mut decompressed = Vec::new();
    d.read_to_end(&mut decompressed).unwrap();

    assert_eq!(&plain[..], &decompressed[..]);
}

#[test]
fn binarith_free_functions_round_trip() {
    let plain = sample_text(3000);
    let compressed = compress(&plain[..], vec![0xee]).unwrap();
    assert_eq!(0xee, compressed[0]);
    let decompressed = decompress(&compressed[1..], vec![1, 2]).unwrap();
    assert_eq!(&[1u8, 2][..], &decompressed[..2]);
    assert_eq!(&plain[..], &decompressed[2..]);
}

#[test]
fn binarith_short_input_is_an_error() {
    assert!(matches!(Decoder::new(&[1, 2, 3, 4, 5, 6, 7]), Err(Error::UnexpectedEof)));
    assert!(matches!(Reader::new(&[]), Err(Error::UnexpectedEof)));
    assert_eq!(Err(Error::UnexpectedEof), decompress(&[1, 2, 3], vec![]));
}

#[test]
fn binarith_truncated_stream_is_an_error() {
    let plain = sample_text(3000);
    let compressed = compress(&plain[..], vec![]).unwrap();
    let cut = &compressed[..compressed.len() / 2];
    assert_eq!(Err(Error::UnexpectedEof), decompress(cut, vec![]));
}

#[test]
fn binarith_read_in_pieces() {
    let input = [53, 66, 117, 134, 245, 8, 246, 61, 63, 160, 94, 186, 160, 0];
    let mut d = Reader::new(&input[..]).unwrap();
    let mut out = Vec::new();
    assert_eq!(Ok(4), d.read(&mut out, 4));
    assert_eq!(b"aaaa".to_vec(), out);
    assert_eq!(Ok(5), d.read(&mut out, 100));
    assert_eq!(b"aaaaaaaaa".to_vec(), out);
    assert_eq!(Ok(0), d.read(&mut out, 100));
}

#[test]
fn binarith_encoder_appends_to_its_buffer() {
    let mut e = Encoder::new(vec![9, 9]);
    e.encode(1, 1, 1).unwrap();
    e.encode(0, 1, 1).unwrap();
    e.encode(1, 1, 1).unwrap();
    e.finish().unwrap();
    assert_eq!(vec![9, 9, 80, 0, 0, 0, 0, 0, 0, 0, 0], e.into_inner());
}
