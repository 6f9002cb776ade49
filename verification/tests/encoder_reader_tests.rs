use lzss::encoder_reader::EncoderReader;
use lzss::source::ByteSource;
use lzss::LzssError;

fn window_of(reader: &EncoderReader, len: usize) -> Vec<u8> {
    (0..len).map(|i| reader.get(i)).collect()
}

#[test]
fn construction_seeds_dictionary_and_fills_lookahead() {
    let mut source = ByteSource::new(vec![9, 1, 2, 3, 4, 5]);
    let reader = EncoderReader::new(&mut source, 4, 3).unwrap();
    assert_eq!(window_of(&reader, 7), vec![9, 9, 9, 9, 1, 2, 3]);
    assert_eq!(reader.missing(), 0);
}

#[test]
fn short_stream_leaves_lookahead_slots_missing() {
    let mut source = ByteSource::new(vec![9, 1]);
    let reader = EncoderReader::new(&mut source, 4, 3).unwrap();
    assert_eq!(reader.missing(), 2);
    // only the dictionary and the first look-ahead slot carry data
    assert_eq!(window_of(&reader, 5), vec![9, 9, 9, 9, 1]);
}

#[test]
fn empty_stream_is_refused() {
    let mut source = ByteSource::new(Vec::new());
    let r = EncoderReader::new(&mut source, 4, 3);
    assert_eq!(r.err(), Some(LzssError::UnexpectedEndOfInput));
}

#[test]
fn load_slides_and_refills() {
    let mut source = ByteSource::new(vec![9, 1, 2, 3, 4, 5]);
    let mut reader = EncoderReader::new(&mut source, 4, 3).unwrap();
    assert_eq!(reader.load(&mut source, 2), 2);
    assert_eq!(window_of(&reader, 7), vec![9, 9, 1, 2, 3, 4, 5]);
    assert_eq!(reader.missing(), 0);
}

#[test]
fn load_past_end_of_stream_grows_missing() {
    let mut source = ByteSource::new(vec![9, 1, 2, 3, 4, 5]);
    let mut reader = EncoderReader::new(&mut source, 4, 3).unwrap();
    assert_eq!(reader.load(&mut source, 2), 2);
    // the stream is dry now: sliding keeps the dictionary, nothing refills
    assert_eq!(reader.load(&mut source, 3), 0);
    assert_eq!(reader.missing(), 3);
    assert_eq!(window_of(&reader, 4), vec![2, 3, 4, 5]);
}
