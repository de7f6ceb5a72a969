use hdrsample::{CreationError, Histogram, RecordError};

#[test]
fn creation_rejects_zero_low() {
    let r = Histogram::<u64>::new_with_bounds(0, 100, 3);
    assert_eq!(CreationError::LowIsZero, r.err().unwrap());
}

#[test]
fn creation_rejects_low_above_half_max() {
    let r = Histogram::<u64>::new_with_bounds(u64::MAX / 2 + 1, u64::MAX, 3);
    assert_eq!(CreationError::LowExceedsMax, r.err().unwrap());
}

#[test]
fn creation_rejects_high_below_twice_low() {
    let r = Histogram::<u64>::new_with_bounds(10, 19, 3);
    assert_eq!(CreationError::HighLessThanTwiceLow, r.err().unwrap());
    assert!(Histogram::<u64>::new_with_bounds(10, 20, 3).is_ok());
}

#[test]
fn creation_rejects_more_than_five_digits() {
    let r = Histogram::<u64>::new_with_bounds(1, 100, 6);
    assert_eq!(CreationError::SigFigExceedsMax, r.err().unwrap());
}

#[test]
fn creation_rejects_digits_beyond_low() {
    // unit magnitude 60 and 18 sub-bucket bits need 78 bits
    let r = Histogram::<u64>::new_with_bounds(1 << 60, 1 << 61, 5);
    assert_eq!(CreationError::CannotRepresentSigFigBeyondLow, r.err().unwrap());
}

#[test]
fn layout_of_full_range_three_digits() {
    let h = Histogram::<u64>::new_with_bounds(1, u64::MAX, 3).unwrap();
    assert_eq!(0, h.unit_magnitude());
    assert_eq!(0, h.unit_magnitude_mask());
    assert_eq!(2048, h.sub_bucket_count());
    assert_eq!(1024, h.sub_bucket_half_count());
    assert_eq!(10, h.sub_bucket_half_count_magnitude());
    assert_eq!(2047, h.sub_bucket_mask());
    assert_eq!(53, h.leading_zero_count_base());
    assert_eq!(54, h.bucket_count());
    assert_eq!(55 * 1024, h.counts().len());
    assert_eq!(0, h.max_value());
    assert_eq!(u64::MAX, h.min_non_zero_value());
    assert_eq!(0, h.total_count());
}

#[test]
fn layout_with_unit_magnitude() {
    let h = Histogram::<u32>::new_with_bounds(1000, 1_000_000, 2).unwrap();
    assert_eq!(9, h.unit_magnitude());
    assert_eq!(511, h.unit_magnitude_mask());
    assert_eq!(256, h.sub_bucket_count());
    assert_eq!(128, h.sub_bucket_half_count());
    assert_eq!(255 << 9, h.sub_bucket_mask());
    assert_eq!(47, h.leading_zero_count_base());
    assert_eq!(4, h.bucket_count());
    assert_eq!(640, h.counts().len());
}

#[test]
fn equivalents_in_bucket_zero_and_beyond() {
    let h = Histogram::<u64>::new_with_bounds(1, u64::MAX, 3).unwrap();
    assert_eq!(1, h.lowest_equivalent(1));
    assert_eq!(1, h.highest_equivalent(1));
    assert_eq!(2048, h.lowest_equivalent(2049));
    assert_eq!(2049, h.highest_equivalent(2048));
    assert_eq!(2, h.equivalent_range(2049));
    assert_eq!(10000, h.lowest_equivalent(10007));
    assert_eq!(10007, h.highest_equivalent(10000));
    assert_eq!(8, h.equivalent_range(10007));
    assert_eq!(10008, h.next_non_equivalent(10003));
    assert_eq!(0xffe0_0000_0000_0000, h.lowest_equivalent(u64::MAX));
    assert_eq!(u64::MAX, h.highest_equivalent(u64::MAX));
    assert_eq!(u64::MAX, h.next_non_equivalent(u64::MAX - 1));
    assert_eq!(u64::MAX - 1, h.highest_equivalent(u64::MAX - 1));
}

#[test]
fn equivalents_with_unit_magnitude() {
    let h = Histogram::<u32>::new_with_bounds(1000, 1_000_000, 2).unwrap();
    assert_eq!(0, h.lowest_equivalent(511));
    assert_eq!(511, h.highest_equivalent(0));
    assert_eq!(512, h.lowest_equivalent(1000));
    assert_eq!(1023, h.highest_equivalent(1000));
    assert_eq!(123392, h.lowest_equivalent(123456));
    assert_eq!(123903, h.highest_equivalent(123456));
    assert_eq!(999424, h.lowest_equivalent(1_000_000));
    assert_eq!(1003519, h.highest_equivalent(1_000_000));
}

#[test]
fn record_counts_in_slots() {
    let mut h = Histogram::<u64>::new_with_bounds(1, u64::MAX, 3).unwrap();
    h.record(10007).unwrap();
    h.record(10000).unwrap();
    h.record_n(5, 3).unwrap();
    h.record(0).unwrap();
    assert_eq!(2, h.counts()[4322]);
    assert_eq!(3, h.counts()[5]);
    assert_eq!(1, h.counts()[0]);
    assert_eq!(6, h.total_count());
    assert_eq!(6, h.count());
    assert_eq!(10007, h.max_value());
    assert_eq!(10007, h.max());
    assert_eq!(5, h.min_non_zero_value());
    assert_eq!(5, h.min_nz());
}

#[test]
fn record_beyond_range_is_refused() {
    let mut h = Histogram::<u64>::new_with_bounds(1, 2047, 3).unwrap();
    h.record(2047).unwrap();
    assert_eq!(RecordError::ValueOutOfRange, h.record(2048).unwrap_err());
    assert_eq!(RecordError::ValueOutOfRange, h.record_n(u64::MAX, 1).unwrap_err());
    assert_eq!(2047, h.max_value());
    assert_eq!(1, h.total_count());
}

#[test]
fn record_saturates_small_counters() {
    let mut h = Histogram::<u8>::new_with_bounds(1, 1000, 2).unwrap();
    h.record_n(5, 200).unwrap();
    h.record_n(5, 200).unwrap();
    assert_eq!(255, h.counts()[5]);
    assert_eq!(400, h.total_count());
    let mut g = Histogram::<u64>::new_with_bounds(1, 1000, 2).unwrap();
    g.record_n(7, u64::MAX).unwrap();
    g.record(7).unwrap();
    assert_eq!(u64::MAX, g.counts()[7]);
    assert_eq!(u64::MAX, g.total_count());
}

#[test]
fn max_and_min_before_recording() {
    let h = Histogram::<u16>::new_with_bounds(1000, 1_000_000, 2).unwrap();
    assert_eq!(0, h.max());
    assert_eq!(u64::MAX, h.min_nz());
}
