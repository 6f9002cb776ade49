use lzss::comparator::{compare_bytes, CompareOutcome};

#[test]
fn identical_streams() {
    let a = vec![1u8, 2, 3, 4];
    let b = vec![1u8, 2, 3, 4];
    assert_eq!(compare_bytes(&a, &b), CompareOutcome::Identical { len: 4 });
}

#[test]
fn first_difference_is_reported() {
    let a = vec![1u8, 2, 3, 4];
    let b = vec![1u8, 2, 9, 9];
    assert_eq!(
        compare_bytes(&a, &b),
        CompareOutcome::DifferentContent { at: 2, left: 3, right: 9 }
    );
}

#[test]
fn size_difference_is_reported() {
    let a = vec![1u8, 2, 3];
    let b = vec![1u8, 2, 3, 4, 5];
    assert_eq!(compare_bytes(&a, &b), CompareOutcome::DifferentSize { left_len: 3, right_len: 5 });
}

#[test]
fn empty_streams_are_identical() {
    assert_eq!(
        compare_bytes(&Vec::new(), &Vec::new()),
        CompareOutcome::Identical { len: 0 }
    );
}
