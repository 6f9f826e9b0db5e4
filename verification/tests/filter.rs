use trajectory_core::error::InvalidArgument;
use trajectory_core::filter::filter;

#[test]
fn filter_keeps_marked_entries_in_order() {
    assert_eq!(filter(&[10, 20, 30, 40], &[true, false, true, true]), Ok(vec![10, 30, 40]));
    assert_eq!(filter(&[10u64, 20], &[false, false]), Ok(vec![]));
    assert_eq!(filter(&[1i64, 2, 3], &[true, true, true]), Ok(vec![1, 2, 3]));
}

#[test]
fn filter_of_nothing_is_nothing() {
    let none: [i64; 0] = [];
    assert_eq!(filter(&none, &[]), Ok(vec![]));
}

#[test]
fn filter_refuses_a_mask_of_another_length() {
    assert_eq!(filter(&[1, 2, 3], &[true, true]), Err(InvalidArgument::LengthMismatch));
    assert_eq!(filter(&[1], &[true, true]), Err(InvalidArgument::LengthMismatch));
}
