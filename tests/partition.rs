use crlite_partition::error::PartitionError;
use crlite_partition::partition::{bits_to_bytes, optimal_segmentation, partition, PartitionRecord};

fn records(list: &[(u64, u64, u64)]) -> Vec<PartitionRecord> {
    list.iter().map(|&(t, n, r)| PartitionRecord::new(t, n, r)).collect()
}

#[test]
fn new_keeps_fields() {
    let rec = PartitionRecord::new(7, 20, 3);
    assert_eq!(rec.time, 7);
    assert_eq!(rec.n, 20);
    assert_eq!(rec.r, 3);
}

#[test]
fn single_record_gives_sentinel_only() {
    assert_eq!(partition(records(&[(100, 10, 0)])), Ok(vec![0]));
    assert_eq!(partition(records(&[(5, 1000, 333)])), Ok(vec![0]));
}

#[test]
fn merging_is_cheaper_for_two_small_records() {
    // split: 640 + 640; merged: cost(10, 20) = 660
    assert_eq!(partition(records(&[(100, 10, 0), (200, 10, 10)])), Ok(vec![0]));
}

#[test]
fn tie_goes_to_the_later_split() {
    // split: cost(0, 320) + cost(320, 320) = 1280; merged: cost(320, 640) = 1280
    let recs = records(&[(100, 320, 0), (200, 320, 320)]);
    let seg = optimal_segmentation(&recs).unwrap();
    assert_eq!(seg.starts, vec![0, 1]);
    assert_eq!(seg.cost, 1280);
    assert_eq!(seg.baseline, 1280);
    assert_eq!(partition(recs), Ok(vec![0, 200]));
}

#[test]
fn splitting_pays_off_for_large_opposite_records() {
    let recs = records(&[(1, 10000, 0), (2, 10000, 10000)]);
    let seg = optimal_segmentation(&recs).unwrap();
    assert_eq!(seg.starts, vec![0, 1]);
    assert_eq!(seg.cost, 1280);
    assert_eq!(seg.baseline, 20640);
    assert_eq!(partition(recs), Ok(vec![0, 2]));
}

#[test]
fn three_alternating_records_split_everywhere() {
    let recs = records(&[(1, 1000, 0), (2, 1000, 1000), (3, 1000, 0)]);
    let seg = optimal_segmentation(&recs).unwrap();
    assert_eq!(seg.starts, vec![0, 1, 2]);
    assert_eq!(seg.cost, 1920);
    // r' = 1000 of 3000, rank 1: 1000 + 1000 + 1000 + 640
    assert_eq!(seg.baseline, 3640);
    assert_eq!(partition(recs), Ok(vec![0, 2, 3]));
}

#[test]
fn partition_is_never_worse_than_one_segment() {
    let recs = records(&[(1, 50, 3), (2, 70, 1), (3, 5000, 4000), (4, 9, 9), (5, 800, 0)]);
    let seg = optimal_segmentation(&recs).unwrap();
    assert!(seg.cost <= seg.baseline);
    assert_eq!(seg.starts[0], 0);
    for w in seg.starts.windows(2) {
        assert!(w[0] < w[1]);
    }
}

#[test]
fn partition_is_deterministic() {
    let list = [(1, 50, 3), (2, 70, 1), (3, 5000, 4000), (4, 9, 9), (5, 800, 0)];
    let first = partition(records(&list));
    let second = partition(records(&list));
    assert_eq!(first, second);
    let out = first.unwrap();
    for w in out.windows(2) {
        assert!(w[0] < w[1]);
    }
}

#[test]
fn largest_counts_do_not_overflow() {
    let recs = records(&[(1, u64::MAX, 0), (2, u64::MAX, u64::MAX)]);
    let seg = optimal_segmentation(&recs).unwrap();
    assert_eq!(seg.cost, 1280);
    assert_eq!(seg.baseline, 2 * (u64::MAX as u128) + 640);
    assert_eq!(partition(recs), Ok(vec![0, 2]));
}

#[test]
fn empty_input_is_rejected() {
    assert_eq!(partition(Vec::new()), Err(PartitionError::EmptyInput));
    assert!(optimal_segmentation(&Vec::new()).is_err());
}

#[test]
fn record_without_certificates_is_rejected() {
    assert_eq!(
        partition(records(&[(1, 10, 0), (2, 0, 0)])),
        Err(PartitionError::InvalidRecord)
    );
}

#[test]
fn record_with_too_many_revoked_is_rejected() {
    assert_eq!(
        partition(records(&[(1, 10, 11)])),
        Err(PartitionError::InvalidRecord)
    );
}

#[test]
fn unordered_times_are_rejected() {
    assert_eq!(
        partition(records(&[(2, 10, 0), (1, 10, 0)])),
        Err(PartitionError::UnorderedTimes)
    );
    assert_eq!(
        partition(records(&[(2, 10, 0), (2, 10, 0)])),
        Err(PartitionError::UnorderedTimes)
    );
}

#[test]
fn invalid_record_is_reported_before_order() {
    assert_eq!(
        partition(records(&[(2, 10, 0), (1, 10, 20)])),
        Err(PartitionError::InvalidRecord)
    );
}

#[test]
fn bits_convert_to_whole_bytes() {
    assert_eq!(bits_to_bytes(1281), 160);
    assert_eq!(bits_to_bytes(7), 0);
}
