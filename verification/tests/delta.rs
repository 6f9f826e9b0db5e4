use trajectory_core::delta::{decode_i64, decode_u64, encode_i64, encode_u64};
use trajectory_core::error::InvalidArgument;

#[test]
fn encode_takes_first_differences() {
    assert_eq!(encode_i64(&[5, 7, 4, 4, -10]), Ok(vec![5, 2, -3, 0, -14]));
    assert_eq!(encode_u64(&[1000, 1000, 1500, 4000]), Ok(vec![1000, 0, 500, 2500]));
}

#[test]
fn decode_takes_running_sums() {
    assert_eq!(decode_i64(&[5, 2, -3, 0, -14]), Ok(vec![5, 7, 4, 4, -10]));
    assert_eq!(decode_u64(&[1000, 0, 500, 2500]), Ok(vec![1000, 1000, 1500, 4000]));
}

#[test]
fn delta_of_empty_and_single() {
    assert_eq!(encode_i64(&[]), Ok(vec![]));
    assert_eq!(decode_i64(&[]), Ok(vec![]));
    assert_eq!(encode_u64(&[]), Ok(vec![]));
    assert_eq!(decode_u64(&[]), Ok(vec![]));
    assert_eq!(encode_i64(&[-42]), Ok(vec![-42]));
    assert_eq!(decode_i64(&[-42]), Ok(vec![-42]));
    assert_eq!(encode_u64(&[u64::MAX]), Ok(vec![u64::MAX]));
    assert_eq!(decode_u64(&[u64::MAX]), Ok(vec![u64::MAX]));
}

#[test]
fn decode_inverts_encode() {
    let signed: Vec<i64> = vec![i64::MIN, -1, 0, 1, i64::MAX / 2, 17, 17, -300];
    let deltas = encode_i64(&signed).unwrap();
    assert_eq!(decode_i64(&deltas), Ok(signed));
    let unsigned: Vec<u64> = vec![0, 0, 3, 1_700_000_000, u64::MAX - 1, u64::MAX];
    let deltas = encode_u64(&unsigned).unwrap();
    assert_eq!(decode_u64(&deltas), Ok(unsigned));
}

#[test]
fn encode_inverts_decode() {
    let deltas: Vec<i64> = vec![i64::MAX, -5, i64::MIN, 9];
    let sums = decode_i64(&deltas).unwrap();
    assert_eq!(sums, vec![i64::MAX, i64::MAX - 5, -6, 3]);
    assert_eq!(encode_i64(&sums), Ok(deltas));
}

#[test]
fn signed_encode_refuses_a_difference_out_of_range() {
    assert_eq!(encode_i64(&[i64::MIN, i64::MAX]), Err(InvalidArgument::OutOfRange));
    assert_eq!(encode_i64(&[0, 1, i64::MAX, -2]), Err(InvalidArgument::OutOfRange));
    assert_eq!(encode_i64(&[0, 1, i64::MAX, -1]), Ok(vec![0, 1, i64::MAX - 1, i64::MIN]));
    assert_eq!(encode_i64(&[-1, i64::MAX]), Err(InvalidArgument::OutOfRange));
    assert_eq!(encode_i64(&[0, i64::MAX]), Ok(vec![0, i64::MAX]));
}

#[test]
fn unsigned_encode_refuses_a_decrease() {
    assert_eq!(encode_u64(&[5, 4]), Err(InvalidArgument::Decreasing));
    assert_eq!(encode_u64(&[0, 7, 7, 6, 100]), Err(InvalidArgument::Decreasing));
}

#[test]
fn decode_refuses_a_sum_out_of_range() {
    assert_eq!(decode_i64(&[i64::MAX, 1]), Err(InvalidArgument::OutOfRange));
    assert_eq!(decode_i64(&[i64::MIN, -1]), Err(InvalidArgument::OutOfRange));
    assert_eq!(decode_u64(&[u64::MAX, 0, 1]), Err(InvalidArgument::OutOfRange));
}
