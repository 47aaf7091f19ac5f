use unquantum::bitreader::BitReader;

#[test]
fn msb_first_order() {
    let mut r = BitReader::new(vec![0b1011_0000, 0x00]);
    assert_eq!(r.read_bits(1), 1);
    assert_eq!(r.read_bits(2), 0b01);
    assert_eq!(r.read_bits(5), 0b10000);
}

#[test]
fn sixteen_bit_word() {
    let mut r = BitReader::new(vec![0xAB, 0xCD]);
    assert_eq!(r.read_bits(16), 0xABCD);
}

#[test]
fn big_endian_word_pairs() {
    let mut r = BitReader::new(vec![0x12, 0x34, 0x56, 0x78]);
    assert_eq!(r.read_bits(8), 0x12);
    assert_eq!(r.read_bits(8), 0x34);
    assert_eq!(r.read_bits(16), 0x5678);
}

#[test]
fn read_many_spans_fills() {
    let mut r = BitReader::new(vec![0xFF, 0xFF, 0xFF, 0x00]);
    assert_eq!(r.read_many_bits(19), 0x7FFFF);
    assert_eq!(r.read_many_bits(5), 0b11111);
}

#[test]
fn read_many_mixed_values() {
    // Bits: 1010 1010 0101 0101 1111 0000 ...
    let mut r = BitReader::new(vec![0xAA, 0x55, 0xF0, 0x00]);
    assert_eq!(r.read_many_bits(12), 0xAA5);
    assert_eq!(r.read_many_bits(12), 0x5F0);
}

#[test]
fn zero_bits_is_zero() {
    let mut r = BitReader::new(vec![0xFF]);
    assert_eq!(r.read_bits(0), 0);
    assert_eq!(r.read_many_bits(0), 0);
}

#[test]
fn past_end_reads_zeros() {
    let mut r = BitReader::new(Vec::new());
    assert_eq!(r.read_bits(16), 0);
    assert_eq!(r.read_many_bits(19), 0);
}

#[test]
fn tail_padded_with_zeros() {
    let mut r = BitReader::new(vec![0xFF]);
    assert_eq!(r.read_bits(8), 0xFF);
    assert_eq!(r.read_bits(16), 0);
    assert_eq!(r.read_many_bits(19), 0);
}

#[test]
fn peek_does_not_consume() {
    let mut r = BitReader::new(vec![0xC0, 0x00]);
    r.ensure_bits(2);
    assert_eq!(r.peek_bits(2), 0b11);
    assert_eq!(r.peek_bits(2), 0b11);
    r.remove_bits(2);
    r.ensure_bits(2);
    assert_eq!(r.peek_bits(2), 0b00);
}
