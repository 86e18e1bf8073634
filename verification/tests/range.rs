use campross::range::{RangeCoder, RangeDecoder};

// Symbols:   0,1,2,3
// Freq:      1,1,1,1
// Cum. Freq: 0,1,2,3,4
const CUM_FREQ: [u32; 5] = [0, 1, 2, 3, 4];

#[test]
fn range_coder_writes_bytes() {
    let mut rc = RangeCoder::new(vec![]);

    rc.encode(0, &CUM_FREQ);
    rc.encode(1, &CUM_FREQ);
    rc.encode(0, &CUM_FREQ);
    rc.encode(2, &CUM_FREQ);
    rc.encode(3, &CUM_FREQ);
    rc.finish();

    let coded = rc.to_inner();
    assert_eq!(vec![2, 191], coded);
}

#[test]
fn range_coder_appends_to_its_buffer() {
    let mut rc = RangeCoder::new(vec![9, 8, 7]);
    let table = [0u32, 2, 3, 4, 5];
    for s in [0u32, 1, 0, 2, 3, 0, 0, 1, 2, 3, 3, 0] {
        rc.encode(s, &table);
    }
    rc.finish();
    assert_eq!(vec![9, 8, 7, 1, 2, 23], rc.to_inner());
}

#[test]
fn range_decoder_reads_ones_past_the_end() {
    let data = [0x12u8, 0x34];
    let mut rd = RangeDecoder::new(&data[..]);
    // The first four bytes are read at the start; the data has two.
    assert_eq!(0xff, rd.next());
    assert_eq!(0xff, rd.next());
    let data = [1u8, 2, 3, 4, 5, 6];
    let mut rd = RangeDecoder::new(&data[..]);
    assert_eq!(5, rd.next());
    assert_eq!(6, rd.next());
    assert_eq!(0xff, rd.next());
}

#[test]
fn range_decoder_gives_symbols_of_the_table() {
    let data = [0x01u8, 0x2f];
    let mut rd = RangeDecoder::new(&data[..]);
    let found: Vec<u32> = (0..5).map(|_| rd.decode(&CUM_FREQ)).collect();
    assert_eq!(vec![0, 0, 0, 1, 0], found);

    let data = [0xffu8, 0xff, 0xff, 0xff, 0x80, 0x00];
    let mut rd = RangeDecoder::new(&data[..]);
    for _ in 0..20 {
        let s = rd.decode(&[0, 10, 11, 500]);
        assert!(s < 3);
    }
}
