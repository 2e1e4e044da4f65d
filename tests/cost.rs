use crlite_partition::cost::{cost, rank, META_SIZE};
use crlite_partition::error::PartitionError;

#[test]
fn meta_size_is_eighty_bytes() {
    assert_eq!(META_SIZE, 640);
}

#[test]
fn cost_with_nothing_revoked_is_metadata() {
    assert_eq!(cost(0, 10), Ok(META_SIZE));
    assert_eq!(cost(0, 1), Ok(META_SIZE));
    assert_eq!(cost(0, u64::MAX), Ok(META_SIZE));
}

#[test]
fn cost_with_everything_revoked_is_metadata() {
    assert_eq!(cost(10, 10), Ok(META_SIZE));
}

#[test]
fn cost_of_even_split_has_rank_zero() {
    // r' = 10, 2r' = n: 10*0 + 10 + 10 + 640
    assert_eq!(cost(10, 20), Ok(660));
}

#[test]
fn cost_of_one_in_ten() {
    // r' = 1, rank = floor(log2(9)) = 3: 3 + 1 + (9 >> 3) + 640
    assert_eq!(cost(1, 10), Ok(645));
}

#[test]
fn cost_is_symmetric() {
    assert_eq!(cost(9, 10), cost(1, 10));
    assert_eq!(cost(3, 17), cost(14, 17));
    assert_eq!(cost(0, 5), cost(5, 5));
}

#[test]
fn cost_at_ratio_exactly_four() {
    // (n - r) / r = 8 / 2 = 4: rank 2, 2*2 + 2 + (8 >> 2) + 640
    assert_eq!(cost(2, 10), Ok(648));
}

#[test]
fn cost_at_ratio_exactly_eight() {
    // (n - r) / r = 8: rank 3, 3 + 1 + (8 >> 3) + 640
    assert_eq!(cost(1, 9), Ok(645));
}

#[test]
fn cost_just_below_ratio_eight() {
    // (n - r) / r = 7: rank 2, 2 + 1 + (7 >> 2) + 640
    assert_eq!(cost(1, 8), Ok(644));
}

#[test]
fn rank_at_power_of_two_boundaries() {
    assert_eq!(rank(2, 10), 2);
    assert_eq!(rank(1, 9), 3);
    assert_eq!(rank(1, 8), 2);
    assert_eq!(rank(1, 5), 2);
    assert_eq!(rank(1, 4), 1);
    assert_eq!(rank(5, 10), 0);
    assert_eq!(rank(4, 9), 0);
}

#[test]
fn rank_of_widest_ratio() {
    assert_eq!(rank(1, u128::MAX), 127);
    assert_eq!(rank(1, u64::MAX as u128), 63);
}

#[test]
fn cost_never_below_metadata() {
    for n in 1..40u64 {
        for r in 0..=n {
            let c = cost(r, n).unwrap();
            assert!(c >= META_SIZE);
            assert!(c <= n + META_SIZE);
        }
    }
}

#[test]
fn cost_of_largest_sparse_segment() {
    // r' = 1, rank = 63: 63 + 1 + ((2^64 - 2) >> 63) + 640
    assert_eq!(cost(1, u64::MAX), Ok(705));
}

#[test]
fn cost_rejects_empty_segment() {
    assert_eq!(cost(0, 0), Err(PartitionError::InvalidRecord));
    assert_eq!(cost(5, 0), Err(PartitionError::InvalidRecord));
}

#[test]
fn cost_rejects_more_revoked_than_present() {
    assert_eq!(cost(11, 10), Err(PartitionError::InvalidRecord));
}

#[test]
fn cost_reports_overflow() {
    // rank 0, so the cost is n + 640, beyond u64
    assert_eq!(cost(u64::MAX / 2, u64::MAX), Err(PartitionError::Overflow));
    assert_eq!(cost(u64::MAX / 2 + 1, u64::MAX), Err(PartitionError::Overflow));
}
