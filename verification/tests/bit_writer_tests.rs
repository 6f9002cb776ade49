use lzss::bit_writer::BitWriter;

#[test]
fn check() {
    println!("{:?}", (0b00010101u8 << 1) | (true as u8));
}

#[test]
fn bits_group_most_significant_first() {
    // 1, 0101, 10101011, zero-padded: 0xAD 0x58
    let mut w = BitWriter::new();
    w.write_bit(true);
    w.write_few(0b0101, 4);
    w.write_few(0xAB, 8);
    let flushed = w.end_flush();
    assert_eq!(flushed, 2);
    assert_eq!(w.into_bytes(), vec![0xAD, 0x58]);
}

#[test]
fn write_few_ignores_high_bits() {
    let mut a = BitWriter::new();
    a.write_few(0xFFFF_FF05, 4);
    a.end_flush();
    let mut b = BitWriter::new();
    b.write_few(0x05, 4);
    b.end_flush();
    assert_eq!(a.into_bytes(), b.into_bytes());
}

#[test]
fn end_flush_on_byte_boundary_adds_nothing() {
    let mut w = BitWriter::new();
    w.write_few(0xA5, 8);
    let flushed = w.end_flush();
    assert_eq!(flushed, 1);
    assert_eq!(w.into_bytes(), vec![0xA5]);
}

#[test]
fn end_flush_of_empty_writer_emits_nothing() {
    let mut w = BitWriter::new();
    let flushed = w.end_flush();
    assert_eq!(flushed, 0);
    assert_eq!(w.into_bytes(), Vec::<u8>::new());
}
