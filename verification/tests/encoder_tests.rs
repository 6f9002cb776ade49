use lzss::bit_writer::BitWriter;
use lzss::encoder::{ConfigError, LzssOptions};
use lzss::source::ByteSource;
use lzss::LzssError;

fn run_encode(opts: &LzssOptions, input: Vec<u8>) -> (usize, usize, Vec<u8>) {
    let mut source = ByteSource::new(input);
    let mut destination = BitWriter::new();
    let (read, written) = opts.encode(&mut source, &mut destination).unwrap();
    (read, written, destination.into_bytes())
}

fn default_options() -> LzssOptions {
    LzssOptions::new(8, 8, 256, 256, false)
}

#[test]
fn single_byte_stream() {
    // seed literal alone: bits 0 01000001, zero-padded to two bytes
    let (read, written, out) = run_encode(&default_options(), vec![0x41]);
    assert_eq!(read, 1);
    assert_eq!(written, 2);
    assert_eq!(out, vec![0x20, 0x80]);
}

#[test]
fn two_distinct_bytes() {
    // two literals: 18 bits, three bytes after padding
    let (read, written, out) = run_encode(&default_options(), vec![0x41, 0x42]);
    assert_eq!(read, 2);
    assert_eq!(written, 3);
    assert_eq!(out, vec![0x20, 0x90, 0x80]);
}

#[test]
fn two_identical_bytes() {
    // a length-one pair would cost 17 bits against a 9-bit literal, so the
    // encoder emits a second literal
    let (read, written, out) = run_encode(&default_options(), vec![0x41, 0x41]);
    assert_eq!(read, 2);
    assert_eq!(written, 3);
    assert_eq!(out, vec![0x20, 0x90, 0x40]);
}

#[test]
fn highly_repetitive_input_extending() {
    // sixteen identical bytes: seed literal, then one pair of length 15
    let opts = LzssOptions::new(8, 8, 256, 256, true);
    let (read, written, out) = run_encode(&opts, vec![0x41; 16]);
    assert_eq!(read, 16);
    assert_eq!(written, 4);
    assert_eq!(out, vec![0x20, 0xC0, 0x03, 0xC0]);
}

#[test]
fn highly_repetitive_input_within_dictionary() {
    // with a 256-byte dictionary full of the seed the same pair fits
    // without extending
    let (read, written, out) = run_encode(&default_options(), vec![0x41; 16]);
    assert_eq!(read, 16);
    assert_eq!(written, 4);
    assert_eq!(out, vec![0x20, 0xC0, 0x03, 0xC0]);
}

#[test]
fn pair_disabled_by_economics() {
    // a pair costs 33 bits here, so a four-byte repetition must still come
    // out as literals: nine bytes become nine 9-bit symbols, eleven bytes
    let opts = LzssOptions::new(16, 16, 1 << 16, 1 << 16, false);
    let input: Vec<u8> = b"abcd abcd".to_vec();
    let (read, written, _) = run_encode(&opts, input);
    assert_eq!(read, 9);
    assert_eq!(written, 11);
}

#[test]
fn lookahead_exhausted_mid_stream() {
    // input one byte longer than dictionary plus look-ahead: the encoder
    // terminates once the final byte is consumed
    let input: Vec<u8> = (0..513u32).map(|i| (i % 251) as u8).collect();
    let (read, _, _) = run_encode(&default_options(), input);
    assert_eq!(read, 513);
}

#[test]
fn encode_is_deterministic() {
    let input: Vec<u8> = (0..300u32).map(|i| ((i * 7 + 13) % 256) as u8).collect();
    let first = run_encode(&default_options(), input.clone());
    let second = run_encode(&default_options(), input);
    assert_eq!(first, second);
}

#[test]
fn bytes_read_and_written_are_bounded() {
    // literal-only worst case: at most nine bits per input byte
    let input: Vec<u8> = (0..1000u32).map(|i| ((i * 31 + 7) % 256) as u8).collect();
    let n = input.len();
    let (read, written, _) = run_encode(&default_options(), input);
    assert_eq!(read, n);
    assert!(8 * written <= 9 * n + 7);
}

#[test]
fn empty_input_is_refused() {
    let opts = default_options();
    let mut source = ByteSource::new(Vec::new());
    let mut destination = BitWriter::new();
    let r = opts.encode(&mut source, &mut destination);
    assert_eq!(r, Err(LzssError::UnexpectedEndOfInput));
    assert_eq!(destination.into_bytes(), Vec::<u8>::new());
}

#[test]
fn validated_rejects_each_bound() {
    assert_eq!(
        LzssOptions::validated(0, 8, None, None, false),
        Err(ConfigError::DictionaryBits)
    );
    assert_eq!(
        LzssOptions::validated(31, 8, None, None, false),
        Err(ConfigError::DictionaryBits)
    );
    assert_eq!(
        LzssOptions::validated(8, 0, None, None, false),
        Err(ConfigError::MaxMatchBits)
    );
    assert_eq!(
        LzssOptions::validated(8, 8, Some(0), None, false),
        Err(ConfigError::DictionarySize)
    );
    assert_eq!(
        LzssOptions::validated(8, 8, Some(257), None, false),
        Err(ConfigError::DictionarySize)
    );
    assert_eq!(
        LzssOptions::validated(8, 8, None, Some(257), false),
        Err(ConfigError::MaxMatchSize)
    );
}

#[test]
fn validated_fills_defaults() {
    let opts = LzssOptions::validated(8, 10, None, Some(12), true).unwrap();
    assert_eq!(opts.dictionary_bits, 8);
    assert_eq!(opts.max_match_bits, 10);
    assert_eq!(opts.dictionary_size, 256);
    assert_eq!(opts.max_match_size, 12);
    assert!(opts.extend_into_input);
}

#[test]
fn smallest_configuration() {
    // one-bit fields, two-byte window: a run of three identical bytes
    // becomes the seed literal plus one cheap pair
    let opts = LzssOptions::new(1, 1, 2, 2, false);
    let (read, written, out) = run_encode(&opts, vec![7, 7, 7]);
    assert_eq!(read, 3);
    assert_eq!(written, 2);
    assert_eq!(out.len(), 2);
}

#[test]
fn capacities_below_their_wire_maximum() {
    let opts = LzssOptions::new(8, 8, 4, 4, false);
    let (read, _, _) = run_encode(&opts, b"abcabcabc".to_vec());
    assert_eq!(read, 9);
}
