use campross::bitfile::{BitReader, BitWriter};
use campross::error::Error;

#[test]
fn write_bit() {
    let out = vec![];
    let mut bf = BitWriter::new(out);
    bf.write_bit(true).unwrap();
    bf.write_bit(false).unwrap();
    bf.write_bit(true).unwrap();
    bf.write_bit(true).unwrap();
    bf.write_bit(false).unwrap();
    bf.flush().unwrap();
    let o = bf.to_inner();
    assert_eq!(vec![0b1011_0000], o);
}

#[test]
fn write_bits() {
    let out = vec![];
    let mut bf = BitWriter::new(out);
    bf.write_bits(0b1011, 4).unwrap();
    bf.write_bits(0b000, 3).unwrap();
    bf.write_bits(0b0010, 4).unwrap();
    bf.write_bits(0b11111, 5).unwrap();
    bf.write_bits(0b11, 2).unwrap();
    bf.write_bits(0b11_0010_1010, 10).unwrap();
    bf.flush().unwrap();
    let o = bf.to_inner();
    assert_eq!(vec![0b1011_0000, 0b0101_1111, 0b1111_0010, 0b1010_0000], o);
}

#[test]
fn read_bit() {
    let c = vec![0b1111_0001, 0b0101_1100, 0b0000_0000];
    let mut bf = BitReader::new(&c[..]);
    let b = bf.read_bit().unwrap();
    assert_eq!(true, b);
    let b = bf.read_bit().unwrap();
    assert_eq!(true, b);
    let b = bf.read_bit().unwrap();
    assert_eq!(true, b);
    let b = bf.read_bit().unwrap();
    assert_eq!(true, b);
    let b = bf.read_bit().unwrap();
    assert_eq!(false, b);
    let b = bf.read_bit().unwrap();
    assert_eq!(false, b);
    let b = bf.read_bit().unwrap();
    assert_eq!(false, b);
    let b = bf.read_bit().unwrap();
    assert_eq!(true, b);
    let b = bf.read_bit().unwrap();
    assert_eq!(false, b);
    let b = bf.read_bit().unwrap();
    assert_eq!(true, b);
}

#[test]
fn read_bits() {
    let c = vec![0b1111_0001, 0b0101_1100, 0b0000_0001];
    let mut bf = BitReader::new(&c[..]);
    let b = bf.read_bits(5).unwrap();
    assert_eq!(0b11110, b);
    let b = bf.read_bits(2).unwrap();
    assert_eq!(0b00, b);
    let b = bf.read_bits(4).unwrap();
    assert_eq!(0b1010, b);
    let b = bf.read_bits(12).unwrap();
    assert_eq!(0b1110_0000_0000, b);
    let b = bf.read_bits(1).unwrap();
    assert_eq!(0b1, b);
}

#[test]
fn read_past_end_uses_extra_bits_then_fails() {
    let c = vec![0b1000_0000];
    let mut bf = BitReader::new_with_extra(&c[..], 3);
    assert_eq!(Ok(0b1000_0000), bf.read_bits(8));
    assert_eq!(Ok(false), bf.read_bit());
    assert_eq!(Ok(0), bf.read_bits(2));
    assert_eq!(Err(Error::UnexpectedEof), bf.read_bit());
    assert_eq!(Err(Error::UnexpectedEof), bf.read_bits(1));
}

#[test]
fn read_without_extra_bits_fails_at_end() {
    let c: Vec<u8> = vec![];
    let mut bf = BitReader::new(&c[..]);
    assert_eq!(Err(Error::UnexpectedEof), bf.read_bit());
}

#[test]
fn read_bits_fails_when_too_few_are_left() {
    let c = vec![0xff];
    let mut bf = BitReader::new_with_extra(&c[..], 2);
    assert_eq!(Err(Error::UnexpectedEof), bf.read_bits(11));
    assert_eq!(Err(Error::UnexpectedEof), bf.read_bit());
}

#[test]
fn read_bits_of_a_full_word() {
    let c = vec![0x01, 0x23, 0x45, 0x67, 0x89, 0xab, 0xcd, 0xef];
    let mut bf = BitReader::new(&c[..]);
    assert_eq!(Ok(0x0123_4567_89ab_cdef), bf.read_bits(64));
}

#[test]
fn write_bits_of_a_full_word() {
    let mut bf = BitWriter::new(vec![]);
    bf.write_bits(0x0123_4567_89ab_cdef, 64).unwrap();
    bf.write_bits(0xffff, 0).unwrap();
    bf.flush().unwrap();
    assert_eq!(vec![0x01, 0x23, 0x45, 0x67, 0x89, 0xab, 0xcd, 0xef], bf.to_inner());
}

#[test]
fn writer_appends_to_its_buffer() {
    let mut bf = BitWriter::new(vec![7, 8]);
    assert_eq!(Ok(2), bf.write(&[0xa5, 0x5a]));
    assert_eq!(vec![7, 8, 0xa5, 0x5a], bf.to_inner());
}

#[test]
fn flush_keeps_the_unfinished_byte() {
    let mut bf = BitWriter::new(vec![]);
    bf.write_bits(0b101, 3).unwrap();
    bf.do_flush().unwrap();
    bf.write_bits(0b11111, 5).unwrap();
    assert_eq!(vec![0b1010_0000, 0b1011_1111], bf.to_inner());
}

#[test]
fn flush_of_whole_bytes_writes_nothing() {
    let mut bf = BitWriter::new(vec![]);
    bf.write_bits(0xab, 8).unwrap();
    bf.do_flush().unwrap();
    assert_eq!(vec![0xab], bf.to_inner());
}

#[test]
fn written_bits_are_read_back() {
    let mut bf = BitWriter::new(vec![]);
    bf.write_bits(0x5, 3).unwrap();
    bf.write_bits(0x1234, 13).unwrap();
    bf.write_bits(0x0, 1).unwrap();
    bf.write_bits(0xdead_beef, 32).unwrap();
    bf.flush().unwrap();
    let bytes = bf.to_inner();
    let mut br = BitReader::new(&bytes[..]);
    assert_eq!(Ok(0x5), br.read_bits(3));
    assert_eq!(Ok(0x1234), br.read_bits(13));
    assert_eq!(Ok(0x0), br.read_bits(1));
    assert_eq!(Ok(0xdead_beef), br.read_bits(32));
}

#[test]
fn read_bytes_across_byte_borders() {
    let c = vec![0b1010_0101, 0b1100_0011, 0b1111_0000];
    let mut bf = BitReader::new(&c[..]);
    assert_eq!(Ok(true), bf.read_bit());
    let mut out = vec![9];
    assert_eq!(Ok(2), bf.read(&mut out, 2));
    assert_eq!(vec![9, 0b0100_1011, 0b1000_0111], out);
    assert_eq!(Err(Error::UnexpectedEof), bf.read(&mut out, 1));
    let mut bf = BitReader::new_with_extra(&c[..], 8);
    let mut out = vec![];
    assert_eq!(Ok(4), bf.read(&mut out, 4));
    assert_eq!(vec![0b1010_0101, 0b1100_0011, 0b1111_0000, 0], out);
    assert_eq!(Ok(0), bf.read(&mut out, 0));
}
