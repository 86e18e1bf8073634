use campross::arith::decoder::Decoder;
use campross::arith::encoder::Encoder;
use campross::arith::model::{Prob, State};
use campross::arith::{compress, decompress};
use campross::error::Error;

const BANANA: &[u8] = b"The banana goat in the banana boat can hand bananas to the banana man.";

const BANANA_CODE: [u8; 57] = [
    84, 20, 127, 73, 221, 155, 247, 51, 8, 76, 67, 84, 214, 189, 168, 202, 126, 193, 88, 87, 234,
    14, 7, 135, 177, 86, 184, 223, 223, 100, 13, 248, 114, 125, 96, 36, 120, 126, 103, 24, 23, 28,
    212, 225, 61, 76, 219, 4, 45, 243, 220, 172, 147, 235, 59, 193, 128,
];

const BANANA_PRELOADED: [u8; 45] = [
    77, 112, 63, 170, 109, 243, 149, 47, 92, 146, 19, 121, 134, 77, 28, 86, 255, 177, 88, 240, 33,
    30, 78, 175, 172, 218, 16, 109, 0, 191, 105, 183, 38, 185, 17, 45, 93, 100, 84, 239, 217, 198,
    246, 13, 184,
];

#[test]
fn get_prob() {
    let mut st = State::new();
    assert_eq!(Prob { low: 0, high: 1, total: 257 }, st.get_prob_and_update(0));
    assert_eq!(Prob { low: 0, high: 2, total: 258 }, st.get_prob_and_update(0));
    assert_eq!(Prob { low: 0, high: 3, total: 259 }, st.get_prob_and_update(0));
    st.downscale();
    assert_eq!(Prob { low: 0, high: 2, total: 258 }, st.get_prob_and_update(0));
}

#[test]
fn get_sym() {
    let mut st = State::new();
    st.get_prob_and_update(0);
    st.get_prob_and_update(0);
    st.get_prob_and_update(0);
    st.get_prob_and_update(0);
    let (_, sym) = st.get_symbol_and_update(1);
    assert_eq!(0, sym);
    for _ in 0..1000 {
        st.get_prob_and_update(127);
    }
    let (_, sym) = st.get_symbol_and_update(131);
    assert_eq!(126, sym);
    let (_, sym) = st.get_symbol_and_update(133);
    assert_eq!(127, sym);
    let (_, sym) = st.get_symbol_and_update(1134);
    assert_eq!(127, sym);
    let (_, sym) = st.get_symbol_and_update(1136);
    assert_eq!(128, sym);
}

#[test]
fn compress0() {
    let compressed = compress(BANANA, vec![]).unwrap();
    assert_eq!(&BANANA_CODE[..], &compressed[..]);
}

#[test]
fn compress_short() {
    let input = b"A";
    let compressed = compress(&input[..], vec![]).unwrap();

    let expected = [65, 189, 128];

    assert_eq!(&expected[..], &compressed[..]);
}

#[test]
fn arith_compress_empty() {
    let input = b"";
    let compressed = compress(&input[..], vec![]).unwrap();

    let expected = [255, 64];

    assert_eq!(&expected[..], &compressed[..]);
}

#[test]
fn decompress0() {
    let decompressed = decompress(&BANANA_CODE[..], vec![]).unwrap();
    assert_eq!(BANANA, &decompressed[..]);
}

#[test]
fn decompress_short() {
    let input = [65, 189, 128];
    let expected = b"A";

    let decompressed = decompress(&input[..], vec![]).unwrap();

    assert_eq!(&expected[..], &decompressed[..]);
}

#[test]
fn arith_decompress_empty() {
    let input = [255, 64];
    let expected = b"";

    let decompressed = decompress(&input[..], vec![]).unwrap();

    assert_eq!(&expected[..], &decompressed[..]);
}

fn calc_counts(bytes: &[u8]) -> Vec<(u8, u64)> {
    let mut counts = [0u64; 256];
    for b in bytes {
        counts[*b as usize] += 1;
    }
    let mut ret = Vec::new();
    for (k, v) in counts.iter().enumerate() {
        if *v > 0 {
            ret.push((k as u8, *v));
        }
    }
    ret
}

#[test]
fn compress_preloaded() {
    let counts = calc_counts(BANANA);

    let mut enc = Encoder::new();
    enc.preload(&counts);
    let compressed = enc.compress(BANANA, vec![]).unwrap();

    assert_eq!(&BANANA_PRELOADED[..], &compressed[..]);
}

#[test]
fn decompress_preloaded() {
    let counts = calc_counts(BANANA);
    let mut dec = Decoder::new();
    dec.preload(&counts);
    let decompressed = dec.decompress(&BANANA_PRELOADED[..], vec![]).unwrap();

    assert_eq!(BANANA, &decompressed[..]);
}

fn sample_text(len: usize) -> Vec<u8> {
    let words: [&[u8]; 8] = [
        b"interval ", b"model ", b"symbol\n", b"renormalize ", b"  low ", b"high; ", b"// bits ",
        b"0x3fff ",
    ];
    let mut out = Vec::new();
    let mut x: u32 = 12345;
    while out.len() < len {
        x = x.wrapping_mul(1103515245).wrapping_add(12345);
        out.extend_from_slice(words[((x >> 16) % 8) as usize]);
    }
    out.truncate(len);
    out
}

fn noise(len: usize) -> Vec<u8> {
    let mut out = Vec::new();
    let mut x: u32 = 2463534242;
    for _ in 0..len {
        x ^= x << 13;
        x ^= x >> 17;
        x ^= x << 5;
        out.push((x >> 11) as u8);
    }
    out
}

#[test]
fn arith_compress_decompress() {
    let plain = sample_text(16000);

    let compressed = compress(&plain[..], vec![]).unwrap();
    assert!(compressed.len() < plain.len());

    let decompressed = decompress(&compressed[..], vec![]).unwrap();
    assert_eq!(&plain[..], &decompressed[..]);
}

#[test]
fn round_trip_of_noise_crosses_the_rescale_limit() {
    let plain = noise(40000);
    let compressed = compress(&plain[..], vec![]).unwrap();
    let decompressed = decompress(&compressed[..], vec![]).unwrap();
    assert_eq!(plain, decompressed);
}

#[test]
fn round_trip_of_every_short_run() {
    for b in [0u8, 1, 65, 127, 128, 254, 255] {
        for n in 0..40 {
            let plain = vec![b; n];
            let compressed = compress(&plain[..], vec![]).unwrap();
            let decompressed = decompress(&compressed[..], vec![]).unwrap();
            assert_eq!(plain, decompressed);
        }
    }
}

#[test]
fn round_trip_of_a_long_run() {
    let plain = vec![b'a'; 100000];
    let compressed = compress(&plain[..], vec![]).unwrap();
    let decompressed = decompress(&compressed[..], vec![]).unwrap();
    assert_eq!(plain, decompressed);
}

#[test]
fn encoding_is_repeatable() {
    let plain = sample_text(3000);
    let first = compress(&plain[..], vec![]).unwrap();
    let second = compress(&plain[..], vec![]).unwrap();
    assert_eq!(first, second);
}

#[test]
fn compress_appends_to_the_output() {
    let compressed = compress(b"A", vec![1, 2, 3]).unwrap();
    assert_eq!(vec![1, 2, 3, 65, 189, 128], compressed);
    let decompressed = decompress(&[65, 189, 128], vec![9]).unwrap();
    assert_eq!(vec![9, b'A'], decompressed);
}

#[test]
fn table_stays_in_order_under_updates() {
    let mut st = State::new();
    for round in 0..40000u32 {
        let sym = ((round * 7) % 257) as u16;
        let p = st.get_prob_and_update(sym);
        assert!(p.low < p.high);
        assert!(p.high <= p.total);
        assert!(p.total < 0x3fff);
        assert!(st.get_count() < 0x3fff);
    }
}

#[test]
fn update_at_the_limit_halves_the_counts() {
    let mut st = State::new();
    // 257 + 16125 = 16382 = MAX_FREQ - 1.
    for _ in 0..16125 {
        st.update(5);
    }
    assert_eq!(16382, st.get_count());
    let p = st.get_prob_and_update(5);
    assert_eq!(Prob { low: 5, high: 16131, total: 16382 }, p);
    // Symbol 5 had 16127 occurrences, now 8063; the other 256 keep one each.
    assert_eq!(8063 + 256, st.get_count());
    let p = st.get_prob_and_update(5);
    assert_eq!(Prob { low: 5, high: 5 + 8063, total: 8319 }, p);
}

#[test]
fn downscale_keeps_every_symbol() {
    let mut st = State::new();
    st.update(10);
    st.update(10);
    st.update(10);
    st.update(10);
    st.update(11);
    st.update(12);
    st.update(12);
    st.downscale();
    assert_eq!(Prob { low: 10, high: 12, total: 258 }, st.get_prob_and_update(10));
    assert_eq!(Prob { low: 13, high: 14, total: 259 }, st.get_prob_and_update(11));
    assert_eq!(Prob { low: 15, high: 16, total: 260 }, st.get_prob_and_update(12));
    assert_eq!(Prob { low: 17, high: 18, total: 261 }, st.get_prob_and_update(13));
}

#[test]
fn preload_equals_replayed_updates() {
    let counts = [(b'x', 3u64), (b'a', 20000), (b'x', 2), (b'q', 0)];
    let mut seeded = State::new();
    seeded.preload(&counts);
    let mut replayed = State::new();
    for &(s, c) in counts.iter() {
        for _ in 0..c {
            replayed.update(s as u16);
        }
    }
    for sym in 0..=256u16 {
        assert_eq!(seeded.get_prob_and_update(sym), replayed.get_prob_and_update(sym));
    }

    let mut enc = Encoder::new();
    enc.preload(&counts);
    let with_preload = enc.compress(BANANA, vec![]).unwrap();
    let mut dec = Decoder::new();
    dec.preload(&counts);
    assert_eq!(BANANA, &dec.decompress(&with_preload[..], vec![]).unwrap()[..]);
    assert_ne!(BANANA_CODE.to_vec(), with_preload);
}

#[test]
fn truncated_stream_is_an_error() {
    let compressed = compress(&sample_text(2000)[..], vec![]).unwrap();
    let cut = &compressed[..compressed.len() - 12];
    assert_eq!(Err(Error::UnexpectedEof), decompress(cut, vec![]));
}

#[test]
fn empty_input_decodes_to_an_error() {
    // No data at all: the padding spells the first symbol again and again
    // until it is used up.
    assert_eq!(Err(Error::UnexpectedEof), decompress(&[], vec![]));
}

#[test]
fn symbol_lookup_finds_the_range_that_holds_the_value() {
    let mut st = State::new();
    let (p, sym) = st.get_symbol_and_update(256);
    assert_eq!(256, sym);
    assert_eq!(Prob { low: 256, high: 257, total: 257 }, p);
    let (p, sym) = st.get_symbol_and_update(0);
    assert_eq!(0, sym);
    assert_eq!(Prob { low: 0, high: 1, total: 258 }, p);
    let (p, sym) = st.get_symbol_and_update(1);
    assert_eq!(0, sym);
    assert_eq!(Prob { low: 0, high: 2, total: 259 }, p);
}

#[test]
fn counts_of_the_model() {
    let mut st = State::new();
    assert_eq!(vec![1u64; 257], st.counts());
    st.update(65);
    st.update(65);
    st.update(256);
    let counts = st.counts();
    assert_eq!(3, counts[65]);
    assert_eq!(2, counts[256]);
    assert_eq!(1, counts[0]);
    assert_eq!(260, counts.iter().sum::<u64>());
    let mut enc = Encoder::new();
    enc.preload(&[(b'x', 7)]);
    assert_eq!(8, enc.counts()[b'x' as usize]);
    let mut dec = Decoder::new();
    dec.preload(&[(b'x', 7)]);
    assert_eq!(enc.counts(), dec.counts());
}

#[test]
fn stream_cut_where_only_zero_bits_follow_still_decodes() {
    // The last byte of this stream holds zero bits only, which the decoder
    // reads past the end of its input anyway.
    assert_eq!(Ok(vec![128, 127, 0]), compress(&[128], vec![]));
    assert_eq!(Ok(vec![128]), decompress(&[128, 127], vec![]));
    // A cut that changes the bits is not always found either: the bits that
    // are left can spell other symbols and the end of a stream.
    assert_eq!(Ok(vec![255, 255, 255]), decompress(&[255], vec![]));
}

#[test]
fn preload_in_pieces_equals_preload_at_once() {
    let mut at_once = State::new();
    at_once.preload(&[(b'a', 9000), (b'b', 9000), (b'a', 5)]);
    let mut in_pieces = State::new();
    in_pieces.preload(&[(b'a', 9000)]);
    in_pieces.preload(&[]);
    in_pieces.preload(&[(b'b', 9000), (b'a', 5)]);
    assert_eq!(at_once.counts(), in_pieces.counts());
}
