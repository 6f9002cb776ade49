use lzss::encoder_reader::EncoderReader;
use lzss::utility::find_largest_subset;

#[test]
fn largest_subset_ok_test() {
    let a: &[u8] = &[1, 2, 3, 4, 5, 6, 7, 8, 9, 1, 2, 3, 4, 5, 6, 7, 8, 9, 10, 11];
    let b: &[u8] = &[7, 8, 9, 10];
    let mut window: Vec<u8> = a.to_vec();
    window.extend_from_slice(b);
    let reader = EncoderReader::from_window(window);
    let res = find_largest_subset(&reader, a.len(), b.len(), false);
    assert_eq!(res, (15usize, 4));
}

#[test]
fn largest_subset_no_common_test() {
    let a: &[u8] = &[1, 2, 3, 4, 5, 6, 7, 8, 9, 1, 2, 3, 4, 5, 6, 7, 8, 9, 10, 11];
    let b: &[u8] = &[12, 13, 14, 15];
    let mut window: Vec<u8> = a.to_vec();
    window.extend_from_slice(b);
    let reader = EncoderReader::from_window(window);
    let res = find_largest_subset(&reader, a.len(), b.len(), false);
    assert_eq!(res, (0, 0));
}

#[test]
fn largest_subset_prefers_longest_then_leftmost() {
    // two runs of equal length: the left one wins
    let window: Vec<u8> = vec![5, 6, 7, 0, 5, 6, 7, 0, /* look-ahead: */ 5, 6, 7];
    let reader = EncoderReader::from_window(window);
    let res = find_largest_subset(&reader, 8, 3, false);
    assert_eq!(res, (0, 3));
}

#[test]
fn largest_subset_extends_into_input() {
    // a run starting at the last dictionary slot may continue into the
    // look-ahead when extension is allowed, and is cut short otherwise
    let window: Vec<u8> = vec![9, 9, 7, /* look-ahead: */ 7, 7, 7, 7];
    let reader = EncoderReader::from_window(window.clone());
    assert_eq!(find_largest_subset(&reader, 3, 4, true), (2, 4));
    let reader = EncoderReader::from_window(window);
    assert_eq!(find_largest_subset(&reader, 3, 4, false), (2, 1));
}

#[test]
fn utility_largest_subset_ok_test() {
    let a: &[u8] = &[1, 2, 3, 4, 5, 6, 7, 8, 9, 1, 2, 3, 4, 5, 6, 7, 8, 9, 10, 11];
    let b: &[u8] = &[7, 8, 9, 10];
    let mut window: Vec<u8> = a.to_vec();
    window.extend_from_slice(b);
    let reader = EncoderReader::from_window(window);
    let res = find_largest_subset(&reader, a.len(), b.len(), false);
    assert_eq!(res, (15usize, 4));
}

#[test]
fn utility_largest_subset_no_common_test() {
    let a: &[u8] = &[1, 2, 3, 4, 5, 6, 7, 8, 9, 1, 2, 3, 4, 5, 6, 7, 8, 9, 10, 11];
    let b: &[u8] = &[12, 13, 14, 15];
    let mut window: Vec<u8> = a.to_vec();
    window.extend_from_slice(b);
    let reader = EncoderReader::from_window(window);
    let res = find_largest_subset(&reader, a.len(), b.len(), false);
    assert_eq!(res, (0, 0));
}
