use vstd::prelude::*;
use vstd::arithmetic::power2::{pow2, lemma_pow2_unfold, lemma_pow2_pos};

use crate::bucketing::{
    bucket_from, bucket_of, highest_equivalent_of, index_of_value, layout_ok, lemma_bucket_by_leading_zeros,
    lemma_bucket_from_char, lemma_equivalents_same_slot, lemma_index_monotone, lemma_index_roundtrip,
    lemma_pow2_shl, lemma_sub_bucket_bounds, log2_ceil, log2_floor,
    lowest_equivalent_of, pow10, sub_bucket_mask_of, sub_bucket_of, value_at_index,
};
use crate::counter::Counter;

verus! {

/// What a histogram is, as values: its parameters, the layout they give, the counts of its
/// slots, and the statistics kept while recording.
pub struct HistogramView {
    /// The smallest value that can be told apart from 0.
    pub low: u64,
    /// The largest value that can be recorded.
    pub high: u64,
    /// The number of significant decimal digits kept.
    pub sigfig: nat,
    /// `floor(log2(low))`: the width of bucket 0's sub-buckets is `2^unit_magnitude`.
    pub unit_magnitude: nat,
    /// Each bucket spans `2^sub_bucket_count_magnitude` sub-buckets.
    pub sub_bucket_count_magnitude: nat,
    /// The number of buckets.
    pub bucket_count: nat,
    /// The count of each slot.
    pub counts: Seq<nat>,
    /// The largest value recorded (0 before any).
    pub max_value: u64,
    /// The smallest non-zero value recorded (`u64::MAX` before any).
    pub min_non_zero_value: u64,
    /// The number of values recorded, held at `u64::MAX`.
    pub total_count: u64,
}

/// The largest representable value, which also stands for "no value recorded yet" as the
/// minimum.
pub const INITIAL_MIN: u64 = 0xffff_ffff_ffff_ffffu64;

/// The maximum before any value is recorded.
pub const INITIAL_MAX: u64 = 0u64;

/// The unit magnitude for a lowest discernible value.
pub open spec fn unit_magnitude_for(low: u64) -> nat {
    log2_floor(low as nat)
}

/// The sub-bucket count magnitude for a number of significant digits: enough sub-buckets to
/// tell apart `2 * 10^sigfig` values.
pub open spec fn sub_bucket_count_magnitude_for(sigfig: nat) -> nat {
    log2_ceil(2 * pow10(sigfig))
}

/// The number of buckets needed to hold every value up to `high`.
pub open spec fn bucket_count_for(u: nat, s: nat, high: u64) -> nat {
    bucket_of(u, s, high) + 1
}

/// The number of slots of `bucket_count` buckets: bucket 0 uses all its sub-buckets, the others
/// their upper half.
pub open spec fn counts_len_for(bucket_count: nat, s: nat) -> nat {
    (bucket_count + 1) * pow2((s - 1) as nat)
}

/// Why a histogram cannot be made with the given parameters.
#[derive(Debug, Clone, Copy, PartialEq, Eq)]
pub enum CreationError {
    /// The lowest discernible value is 0.
    LowIsZero,
    /// The lowest discernible value exceeds `u64::MAX / 2`.
    LowExceedsMax,
    /// The highest trackable value is less than twice the lowest discernible value.
    HighLessThanTwiceLow,
    /// More than 5 significant digits were asked for.
    SigFigExceedsMax,
    /// The sub-buckets that the digits need, at the unit of the lowest value, exceed 63 bits.
    CannotRepresentSigFigBeyondLow,
}

/// The error `new_with_bounds` gives for its parameters, if any.
pub open spec fn creation_error(low: u64, high: u64, sigfig: nat) -> Option<CreationError> {
    if low < 1 {
        Some(CreationError::LowIsZero)
    } else if low > u64::MAX / 2 {
        Some(CreationError::LowExceedsMax)
    } else if high < 2 * low {
        Some(CreationError::HighLessThanTwiceLow)
    } else if sigfig > 5 {
        Some(CreationError::SigFigExceedsMax)
    } else if unit_magnitude_for(low) + sub_bucket_count_magnitude_for(sigfig) > 63 {
        Some(CreationError::CannotRepresentSigFigBeyondLow)
    } else {
        None
    }
}

/// The empty histogram with the given (valid) parameters.
pub open spec fn empty_histogram(low: u64, high: u64, sigfig: nat) -> HistogramView {
    let u = unit_magnitude_for(low);
    let s = sub_bucket_count_magnitude_for(sigfig);
    let b = bucket_count_for(u, s, high);
    HistogramView {
        low,
        high,
        sigfig,
        unit_magnitude: u,
        sub_bucket_count_magnitude: s,
        bucket_count: b,
        counts: Seq::new(counts_len_for(b, s), |i: int| 0nat),
        max_value: INITIAL_MAX,
        min_non_zero_value: INITIAL_MIN,
        total_count: 0,
    }
}

impl HistogramView {
    /// The index of the slot that counts `v`.
    pub open spec fn index_of(self, v: u64) -> nat {
        index_of_value(self.unit_magnitude, self.sub_bucket_count_magnitude, v)
    }

    /// The parameters are valid and the layout is the one they give.
    pub open spec fn layout_wf(self) -> bool {
        &&& creation_error(self.low, self.high, self.sigfig) is None
        &&& self.unit_magnitude == unit_magnitude_for(self.low)
        &&& self.sub_bucket_count_magnitude == sub_bucket_count_magnitude_for(self.sigfig)
        &&& self.bucket_count == bucket_count_for(
            self.unit_magnitude,
            self.sub_bucket_count_magnitude,
            self.high,
        )
        &&& self.counts.len() == counts_len_for(self.bucket_count, self.sub_bucket_count_magnitude)
    }

    /// A well-formed histogram: a valid layout, the largest value's slot among the counts, and
    /// no count above that slot.
    pub open spec fn wf(self) -> bool {
        &&& self.layout_wf()
        &&& self.index_of(self.max_value) < self.counts.len()
        &&& forall|i: int|
            self.index_of(self.max_value) < i < self.counts.len() ==> #[trigger] self.counts[i]
                == 0
    }

    /// Both histograms have the same parameters and layout.
    pub open spec fn same_layout(self, other: HistogramView) -> bool {
        &&& self.low == other.low
        &&& self.high == other.high
        &&& self.sigfig == other.sigfig
        &&& self.unit_magnitude == other.unit_magnitude
        &&& self.sub_bucket_count_magnitude == other.sub_bucket_count_magnitude
        &&& self.bucket_count == other.bucket_count
    }
}

/// Facts about valid parameters: the magnitudes are in range and the layout holds every
/// bucket's values in a `u64`.
pub proof fn lemma_valid_params(low: u64, high: u64, sigfig: nat)
    requires
        creation_error(low, high, sigfig) is None,
    ensures
        ({
            let u = unit_magnitude_for(low);
            let s = sub_bucket_count_magnitude_for(sigfig);
            &&& layout_ok(u, s)
            &&& u <= 62
            &&& s == (if sigfig == 0 {
                1nat
            } else if sigfig == 1 {
                5nat
            } else if sigfig == 2 {
                8nat
            } else if sigfig == 3 {
                11nat
            } else if sigfig == 4 {
                15nat
            } else {
                18nat
            })
            &&& 1 <= bucket_count_for(u, s, high)
            &&& bucket_count_for(u, s, high) + u + s <= 65
            &&& counts_len_for(bucket_count_for(u, s, high), s) <= 65 * 0x20000
        }),
{
    let u = unit_magnitude_for(low);
    let s = sub_bucket_count_magnitude_for(sigfig);
    lemma_sigfig_magnitudes(sigfig);
    lemma_bucket_from_char(high, u + s);
    let b = bucket_count_for(u, s, high);
    lemma_pow2_half_bound(s);
    assert((b + 1) * pow2((s - 1) as nat) <= 65 * 0x20000) by (nonlinear_arith)
        requires b + 1 <= 65, pow2((s - 1) as nat) <= 0x20000;
}

proof fn lemma_pow2_half_bound(s: nat)
    requires
        1 <= s <= 18,
    ensures
        pow2((s - 1) as nat) <= 0x20000,
{
    vstd::arithmetic::power2::lemma2_to64();
    if s < 18 {
        vstd::arithmetic::power2::lemma_pow2_strictly_increases((s - 1) as nat, 17);
    }
}

/// The sub-bucket count magnitude of each allowed number of significant digits.
pub proof fn lemma_sigfig_magnitudes(sigfig: nat)
    requires
        sigfig <= 5,
    ensures
        sub_bucket_count_magnitude_for(sigfig) == (if sigfig == 0 {
            1nat
        } else if sigfig == 1 {
            5nat
        } else if sigfig == 2 {
            8nat
        } else if sigfig == 3 {
            11nat
        } else if sigfig == 4 {
            15nat
        } else {
            18nat
        }),
{
    reveal_with_fuel(pow10, 6);
    reveal_with_fuel(log2_ceil, 20);
    assert(pow10(5) == 100000);
    assert(log2_ceil(2) == 1);
    assert(log2_ceil(20) == 5);
    assert(log2_ceil(200) == 8);
    assert(log2_ceil(2000) == 11);
    assert(log2_ceil(20000) == 15);
    assert(log2_ceil(200000) == 18);
}

proof fn lemma_log2_floor_bound(x: nat, n: nat)
    requires
        1 <= n,
        x < pow2(n),
    ensures
        log2_floor(x) < n,
    decreases x,
{
    if x >= 2 {
        lemma_pow2_unfold(n);
        if n == 1 {
            vstd::arithmetic::power2::lemma2_to64();
        } else {
            lemma_log2_floor_bound(x / 2, (n - 1) as nat);
        }
    }
}

/// `floor(log2(low))`.
fn unit_magnitude_of(low: u64) -> (u: u8)
    requires
        low >= 1,
    ensures
        u == log2_floor(low as nat),
        u <= 63,
{
    proof {
        vstd::arithmetic::power2::lemma2_to64();
        lemma_log2_floor_bound(low as nat, 64);
    }
    let mut x: u64 = low;
    let mut u: u8 = 0;
    while x > 1
        invariant
            x >= 1,
            u + log2_floor(x as nat) == log2_floor(low as nat),
            log2_floor(low as nat) < 64,
        decreases x,
    {
        x = x / 2;
        u = u + 1;
    }
    u
}

/// A histogram of `u64` values with counters of type `T`: values are grouped into slots whose
/// width keeps `significant_value_digits` decimal digits of precision.
pub struct Histogram<T: Counter> {
    highest_trackable_value: u64,
    lowest_discernible_value: u64,
    significant_value_digits: u8,
    bucket_count: u8,
    sub_bucket_count: u32,
    sub_bucket_half_count: u32,
    sub_bucket_half_count_magnitude: u8,
    sub_bucket_mask: u64,
    leading_zero_count_base: u8,
    unit_magnitude: u8,
    unit_magnitude_mask: u64,
    max_value: u64,
    min_non_zero_value: u64,
    total_count: u64,
    counts: Vec<T>,
}

impl<T: Counter> View for Histogram<T> {
    type V = HistogramView;

    closed spec fn view(&self) -> HistogramView {
        HistogramView {
            low: self.lowest_discernible_value,
            high: self.highest_trackable_value,
            sigfig: self.significant_value_digits as nat,
            unit_magnitude: self.unit_magnitude as nat,
            sub_bucket_count_magnitude: (self.sub_bucket_half_count_magnitude + 1) as nat,
            bucket_count: self.bucket_count as nat,
            counts: self.counts@.map_values(|c: T| c.count_value()),
            max_value: self.max_value,
            min_non_zero_value: self.min_non_zero_value,
            total_count: self.total_count,
        }
    }
}

impl<T: Counter> Histogram<T> {
    /// The fields derived from the layout hold what the layout gives.
    pub closed spec fn fields_wf(&self) -> bool {
        let u = self.unit_magnitude as nat;
        let s = (self.sub_bucket_half_count_magnitude + 1) as nat;
        &&& self.sub_bucket_count as nat == pow2(s)
        &&& self.sub_bucket_half_count as nat == pow2((s - 1) as nat)
        &&& self.sub_bucket_mask == sub_bucket_mask_of(u, s)
        &&& self.leading_zero_count_base as nat == 64 - u - s
        &&& self.unit_magnitude_mask as nat == pow2(u) - 1
    }

    /// A well-formed histogram: every histogram is one.
    #[verifier::type_invariant]
    pub open spec fn wf(&self) -> bool {
        self.fields_wf() && self@.wf()
    }

    /// The number of buckets needed to hold every value up to `value`.
    fn buckets_to_cover(unit_magnitude: u8, sub_bucket_count_magnitude: u8, value: u64) -> (b: u8)
        requires
            layout_ok(unit_magnitude as nat, sub_bucket_count_magnitude as nat),
        ensures
            b == bucket_count_for(unit_magnitude as nat, sub_bucket_count_magnitude as nat, value),
    {
        let ghost u = unit_magnitude as nat;
        let ghost s = sub_bucket_count_magnitude as nat;
        proof {
            lemma_bucket_from_char(value, u + s);
            lemma_pow2_shl(s);
            lemma_pow2_shl(u + s);
            let ss = s as u64;
            let uu = u as u64;
            assert((1u64 << ss) << uu == 1u64 << ((uu + ss) as u64)) by (bit_vector)
                requires uu + ss <= 63;
        }
        // the k'th bucket can express from 0 * 2^k to sub_bucket_count * 2^k in units of 2^k
        let mut smallest_untrackable_value: u64 = (1u64 << sub_bucket_count_magnitude) << unit_magnitude;
        let mut buckets_needed: u8 = 1;
        while smallest_untrackable_value <= value
            invariant
                u == unit_magnitude as nat,
                s == sub_bucket_count_magnitude as nat,
                layout_ok(u, s),
                1 <= buckets_needed,
                u + s + buckets_needed - 1 < 64,
                smallest_untrackable_value == 1u64 << ((u + s + buckets_needed - 1) as u64),
                bucket_from(value, u + s) == (buckets_needed - 1) + bucket_from(
                    value,
                    (u + s + buckets_needed - 1) as nat,
                ),
            decreases 64 - buckets_needed,
        {
            let ghost k = (u + s + buckets_needed - 1) as u64;
            assert(value >> k != 0) by (bit_vector)
                requires
                    k < 64,
                    smallest_untrackable_value == 1u64 << k,
                    smallest_untrackable_value <= value,
            ;
            if smallest_untrackable_value > u64::MAX / 2 {
                // the next shift would overflow, so this bucket is the last one
                assert(k == 63) by (bit_vector)
                    requires
                        k < 64,
                        smallest_untrackable_value == 1u64 << k,
                        smallest_untrackable_value > 0x7fff_ffff_ffff_ffffu64,
                ;
                assert(bucket_from(value, 64) == 0);
                assert(bucket_from(value, (u + s + buckets_needed - 1) as nat) == 1);
                return buckets_needed + 1;
            }
            assert(k < 63) by (bit_vector)
                requires
                    k < 64,
                    smallest_untrackable_value == 1u64 << k,
                    smallest_untrackable_value <= 0x7fff_ffff_ffff_ffffu64,
            ;
            assert((smallest_untrackable_value << 1u64) == 1u64 << ((k + 1) as u64)) by (bit_vector)
                requires k < 63, smallest_untrackable_value == 1u64 << k;
            smallest_untrackable_value = smallest_untrackable_value << 1u64;
            buckets_needed = buckets_needed + 1;
        }
        proof {
            let k = (u + s + buckets_needed - 1) as u64;
            assert(value >> k == 0) by (bit_vector)
                requires
                    k < 64,
                    smallest_untrackable_value == 1u64 << k,
                    smallest_untrackable_value > value,
            ;
        }
        buckets_needed
    }
}

impl<T: Counter> Histogram<T> {
    /// An empty histogram that tracks values from `low` to `high` (`low` at least 1, `high` at
    /// least `2 * low`) with `sigfig` (at most 5) significant decimal digits.
    pub fn new_with_bounds(low: u64, high: u64, sigfig: u8) -> (r: Result<Histogram<T>, CreationError>)
        ensures
            match creation_error(low, high, sigfig as nat) {
                Some(e) => r == Err::<Histogram<T>, CreationError>(e),
                None => r matches Ok(h) && h.wf() && h@ == empty_histogram(low, high, sigfig as nat),
            },
    {
        if low < 1 {
            return Err(CreationError::LowIsZero);
        }
        if low > u64::MAX / 2 {
            return Err(CreationError::LowExceedsMax);
        }
        if high < 2 * low {
            return Err(CreationError::HighLessThanTwiceLow);
        }
        if sigfig > 5 {
            return Err(CreationError::SigFigExceedsMax);
        }
        let unit_magnitude = unit_magnitude_of(low);
        // the smallest power of two count of sub-buckets that tells apart 2 * 10^sigfig values
        let sub_bucket_count_magnitude: u8 = if sigfig == 0 {
            1
        } else if sigfig == 1 {
            5
        } else if sigfig == 2 {
            8
        } else if sigfig == 3 {
            11
        } else if sigfig == 4 {
            15
        } else {
            18
        };
        proof {
            lemma_sigfig_magnitudes(sigfig as nat);
        }
        if unit_magnitude + sub_bucket_count_magnitude > 63 {
            return Err(CreationError::CannotRepresentSigFigBeyondLow);
        }
        proof {
            lemma_valid_params(low, high, sigfig as nat);
        }
        let ghost u = unit_magnitude as nat;
        let ghost s = sub_bucket_count_magnitude as nat;
        let sub_bucket_half_count_magnitude: u8 = sub_bucket_count_magnitude - 1;
        let sub_bucket_count: u32 = 1u32 << sub_bucket_count_magnitude;
        let sub_bucket_half_count: u32 = sub_bucket_count / 2;
        proof {
            let ss = sub_bucket_count_magnitude as u64;
            lemma_pow2_shl(s);
            lemma_pow2_shl((s - 1) as nat);
            lemma_pow2_shl(u);
            lemma_pow2_pos(u);
            assert(sub_bucket_count as u64 == 1u64 << ss) by (bit_vector)
                requires 1 <= ss <= 18, sub_bucket_count == 1u32 << ss;
            assert(1u64 << ss >= 2) by (bit_vector)
                requires 1 <= ss <= 18;
        }
        let unit_magnitude_mask: u64 = (1u64 << unit_magnitude) - 1;
        let sub_bucket_mask: u64 = ((sub_bucket_count as u64) - 1) << unit_magnitude;
        proof {
            let ss = sub_bucket_count_magnitude as u64;
            let uu = unit_magnitude as u64;
            assert(sub_bucket_half_count as u64 == 1u64 << ((ss - 1) as u64)) by (bit_vector)
                requires 1 <= ss <= 18, sub_bucket_count == 1u32 << ss, sub_bucket_half_count
                    == sub_bucket_count / 2;
            assert(sub_bucket_mask == (((1u64 << ss) - 1) as u64) << uu) by (bit_vector)
                requires
                    1 <= ss <= 18,
                    sub_bucket_count == 1u32 << ss,
                    sub_bucket_mask == (((sub_bucket_count as u64) - 1) as u64) << uu,
            ;
            assert(uu == u as u64 && ss == s as u64);
        }
        let buckets_needed = Self::buckets_to_cover(unit_magnitude, sub_bucket_count_magnitude, high);
        let len: usize = (buckets_needed as usize + 1) * (sub_bucket_half_count as usize);
        let mut counts: Vec<T> = Vec::new();
        while counts.len() < len
            invariant
                counts.len() <= len,
                forall|i: int| 0 <= i < counts.len() ==> (#[trigger] counts@[i]).count_value() == 0,
            decreases len - counts.len(),
        {
            counts.push(T::zero());
        }
        proof {
            lemma_index_of_zero(u, s);
            assert((buckets_needed as usize + 1) * (sub_bucket_half_count as usize) >= 1)
                by (nonlinear_arith)
                requires sub_bucket_half_count >= 1;
        }
        let h = Histogram {
            highest_trackable_value: high,
            lowest_discernible_value: low,
            significant_value_digits: sigfig,
            bucket_count: buckets_needed,
            sub_bucket_count,
            sub_bucket_half_count,
            sub_bucket_half_count_magnitude,
            sub_bucket_mask,
            // the bits that the largest value in bucket 0 does not use
            leading_zero_count_base: 64 - unit_magnitude - sub_bucket_count_magnitude,
            unit_magnitude,
            unit_magnitude_mask,
            max_value: INITIAL_MAX,
            min_non_zero_value: INITIAL_MIN,
            total_count: 0,
            counts,
        };
        proof {
            let e = empty_histogram(low, high, sigfig as nat);
            assert(h@.counts =~= e.counts);
            assert(h@ == e);
        }
        Ok(h)
    }
}

/// Why a value could not be recorded.
#[derive(Debug, Clone, Copy, PartialEq, Eq)]
pub enum RecordError {
    /// The value's slot lies beyond the counts.
    ValueOutOfRange,
}

/// `a + b`, held at `u64::MAX`.
pub open spec fn saturating_sum(a: nat, b: nat) -> u64 {
    if a + b > u64::MAX {
        u64::MAX
    } else {
        (a + b) as u64
    }
}

/// The histogram after recording `count` more occurrences of `value`, whose slot is among the
/// counts (the slot's count held at the counter's maximum).
pub open spec fn recorded(h: HistogramView, value: u64, count: nat, count_max: nat) -> HistogramView {
    let i = h.index_of(value) as int;
    HistogramView {
        counts: h.counts.update(
            i,
            if h.counts[i] + count <= count_max {
                h.counts[i] + count
            } else {
                count_max
            },
        ),
        max_value: if value > h.max_value {
            value
        } else {
            h.max_value
        },
        min_non_zero_value: if value != 0 && value < h.min_non_zero_value {
            value
        } else {
            h.min_non_zero_value
        },
        total_count: saturating_sum(h.total_count as nat, count),
        ..h
    }
}

impl<T: Counter> Histogram<T> {
    proof fn lemma_layout(&self)
        requires
            self.wf(),
        ensures
            layout_ok(self@.unit_magnitude, self@.sub_bucket_count_magnitude),
            1 <= self@.bucket_count,
            self@.bucket_count + self@.unit_magnitude + self@.sub_bucket_count_magnitude <= 65,
            self@.counts.len() <= 65 * 0x20000,
            self.unit_magnitude as nat == self@.unit_magnitude,
            self.sub_bucket_half_count_magnitude as nat + 1 == self@.sub_bucket_count_magnitude,
            self.sub_bucket_half_count as nat == pow2((self@.sub_bucket_count_magnitude - 1) as nat),
            self.sub_bucket_count as nat == pow2(self@.sub_bucket_count_magnitude),
            self.sub_bucket_mask == sub_bucket_mask_of(
                self@.unit_magnitude,
                self@.sub_bucket_count_magnitude,
            ),
            self.leading_zero_count_base as nat == 64 - self@.unit_magnitude
                - self@.sub_bucket_count_magnitude,
            self.counts@.len() == self@.counts.len(),
            0 < pow2((self@.sub_bucket_count_magnitude - 1) as nat) <= 0x20000,
            pow2(self@.sub_bucket_count_magnitude) == 2 * pow2(
                (self@.sub_bucket_count_magnitude - 1) as nat,
            ),
    {
        lemma_valid_params(self@.low, self@.high, self@.sigfig);
        lemma_pow2_half_bound(self@.sub_bucket_count_magnitude);
        lemma_pow2_unfold(self@.sub_bucket_count_magnitude);
        lemma_pow2_pos((self@.sub_bucket_count_magnitude - 1) as nat);
    }

    /// The bucket that holds `value`.
    fn bucket_for(&self, value: u64) -> (b: u8)
        ensures
            b == bucket_of(self@.unit_magnitude, self@.sub_bucket_count_magnitude, value),
            b + self@.unit_magnitude + self@.sub_bucket_count_magnitude <= 64,
    {
        proof {
            use_type_invariant(self);
        }
        proof {
            self.lemma_layout();
            lemma_bucket_by_leading_zeros(
                value,
                self@.unit_magnitude,
                self@.sub_bucket_count_magnitude,
            );
            lemma_sub_bucket_bounds(self@.unit_magnitude, self@.sub_bucket_count_magnitude, value);
        }
        let lz = (value | self.sub_bucket_mask).leading_zeros();
        self.leading_zero_count_base - (lz as u8)
    }

    /// The sub-bucket, within bucket `bucket_index`, that holds `value`.
    fn sub_bucket_for(&self, value: u64, bucket_index: u8) -> (r: u32)
        requires
            bucket_index == bucket_of(self@.unit_magnitude, self@.sub_bucket_count_magnitude, value),
        ensures
            r == sub_bucket_of(self@.unit_magnitude, self@.sub_bucket_count_magnitude, value),
            r < self.sub_bucket_count,
    {
        proof {
            use_type_invariant(self);
        }
        proof {
            self.lemma_layout();
            lemma_sub_bucket_bounds(self@.unit_magnitude, self@.sub_bucket_count_magnitude, value);
        }
        (value >> (bucket_index + self.unit_magnitude)) as u32
    }

    /// The index in the counts of the slot that counts `value`.
    pub(crate) fn index_for(&self, value: u64) -> (r: usize)
        ensures
            r == self@.index_of(value),
    {
        proof {
            use_type_invariant(self);
        }
        proof {
            self.lemma_layout();
            lemma_sub_bucket_bounds(self@.unit_magnitude, self@.sub_bucket_count_magnitude, value);
        }
        let bucket_index = self.bucket_for(value);
        let sub_bucket_index = self.sub_bucket_for(value, bucket_index);
        let h = self.sub_bucket_half_count as usize;
        proof {
            assert((bucket_index as usize + 1) * h <= 64 * 0x20000) by (nonlinear_arith)
                requires bucket_index <= 63, h <= 0x20000;
            assert((bucket_index as usize + 1) * h == bucket_index * h + h) by (nonlinear_arith);
        }
        // the start of the bucket's upper half; bucket 0 also uses the half below it
        let bucket_base_index = (bucket_index as usize + 1) * h;
        bucket_base_index + (sub_bucket_index as usize) - h
    }

    /// The value at the start of the slot at `index`.
    fn value_for(&self, index: usize) -> (r: u64)
        requires
            index < self@.counts.len(),
        ensures
            r == value_at_index(self@.unit_magnitude, self@.sub_bucket_count_magnitude, index as nat),
    {
        proof {
            use_type_invariant(self);
        }
        proof {
            self.lemma_layout();
        }
        let ghost u = self@.unit_magnitude;
        let ghost s = self@.sub_bucket_count_magnitude;
        let h = self.sub_bucket_half_count as usize;
        let bucket_plus_one = index / h;
        let rem = index % h;
        proof {
            assert(bucket_plus_one <= self@.bucket_count) by (nonlinear_arith)
                requires
                    index < (self@.bucket_count + 1) * h,
                    bucket_plus_one == index / h,
                    h > 0,
            ;
        }
        if bucket_plus_one == 0 {
            (rem as u64) << self.unit_magnitude
        } else {
            ((rem + h) as u64) << ((bucket_plus_one - 1) as u8 + self.unit_magnitude)
        }
    }

    /// The smallest value that is counted in the same slot as `value`.
    pub fn lowest_equivalent(&self, value: u64) -> (r: u64)
        ensures
            r == lowest_equivalent_of(self@.unit_magnitude, self@.sub_bucket_count_magnitude, value),
    {
        proof {
            use_type_invariant(self);
        }
        let bucket_index = self.bucket_for(value);
        let sub_bucket_index = self.sub_bucket_for(value, bucket_index);
        (sub_bucket_index as u64) << (bucket_index + self.unit_magnitude)
    }

    /// The width of the slot that counts `value`.
    pub fn equivalent_range(&self, value: u64) -> (r: u64)
        ensures
            r == 1u64 << ((bucket_of(self@.unit_magnitude, self@.sub_bucket_count_magnitude, value)
                + self@.unit_magnitude) as u64),
    {
        proof {
            use_type_invariant(self);
        }
        let bucket_index = self.bucket_for(value);
        let sub_bucket_index = self.sub_bucket_for(value, bucket_index);
        if sub_bucket_index >= self.sub_bucket_count {
            1u64 << (self.unit_magnitude + bucket_index + 1)
        } else {
            1u64 << (self.unit_magnitude + bucket_index)
        }
    }

    /// The start of the slot after the one that counts `value` (held at `u64::MAX`).
    pub fn next_non_equivalent(&self, value: u64) -> (r: u64)
        ensures
            r == saturating_sum(
                lowest_equivalent_of(self@.unit_magnitude, self@.sub_bucket_count_magnitude, value)
                    as nat,
                (1u64 << ((bucket_of(self@.unit_magnitude, self@.sub_bucket_count_magnitude, value)
                    + self@.unit_magnitude) as u64)) as nat,
            ),
    {
        proof {
            use_type_invariant(self);
        }
        self.lowest_equivalent(value).saturating_add(self.equivalent_range(value))
    }

    /// The largest value that is counted in the same slot as `value`.
    pub fn highest_equivalent(&self, value: u64) -> (r: u64)
        ensures
            r == highest_equivalent_of(self@.unit_magnitude, self@.sub_bucket_count_magnitude, value),
    {
        proof {
            use_type_invariant(self);
        }
        if value == u64::MAX {
            u64::MAX
        } else {
            proof {
                self.lemma_layout();
                lemma_sub_bucket_bounds(self@.unit_magnitude, self@.sub_bucket_count_magnitude, value);
                lemma_pow2_pos(
                    (bucket_of(self@.unit_magnitude, self@.sub_bucket_count_magnitude, value)
                        + self@.unit_magnitude) as nat,
                );
                lemma_pow2_shl(
                    (bucket_of(self@.unit_magnitude, self@.sub_bucket_count_magnitude, value)
                        + self@.unit_magnitude) as nat,
                );
            }
            self.next_non_equivalent(value) - 1
        }
    }
}

impl<T: Counter> Histogram<T> {
    /// Records `count` occurrences of `value`. The slot's count is held at the counter's maximum
    /// and the total at `u64::MAX`; a value whose slot lies beyond the counts is refused and the
    /// histogram left as it was.
    pub fn record_n(&mut self, value: u64, count: T) -> (r: Result<(), RecordError>)
        ensures
            final(self).wf(),
            old(self)@.index_of(value) < old(self)@.counts.len() ==> r is Ok && final(self)@
                == recorded(old(self)@, value, count.count_value(), T::count_max()),
            old(self)@.index_of(value) >= old(self)@.counts.len() ==> r == Err::<(), RecordError>(
                RecordError::ValueOutOfRange,
            ) && final(self)@ == old(self)@,
    {
        proof {
            use_type_invariant(&*self);
        }
        let index = self.index_for(value);
        if index >= self.counts.len() {
            return Err(RecordError::ValueOutOfRange);
        }
        let ghost old_view = self@;
        proof {
            self.lemma_layout();
            if value <= self.max_value {
                lemma_index_monotone(
                    old_view.unit_magnitude,
                    old_view.sub_bucket_count_magnitude,
                    value,
                    self.max_value,
                );
            } else {
                lemma_index_monotone(
                    old_view.unit_magnitude,
                    old_view.sub_bucket_count_magnitude,
                    self.max_value,
                    value,
                );
            }
        }
        // the largest value first, so that the new count lies at or below its slot
        if value > self.max_value {
            self.max_value = value;
        }
        let c = self.counts[index].add_saturating(count);
        proof {
            assert(index <= self@.index_of(self.max_value));
            assert forall|i: int|
                self@.index_of(self.max_value) < i < self.counts@.len() implies (
                #[trigger] self.counts@[i]).count_value() == 0 by {
                assert(old_view.counts[i] == self.counts@[i].count_value());
            }
        }
        self.counts[index] = c;
        if value != 0 && value < self.min_non_zero_value {
            self.min_non_zero_value = value;
        }
        self.total_count = self.total_count.saturating_add(count.as_u64());
        proof {
            let expected = recorded(old_view, value, count.count_value(), T::count_max());
            assert(self@.counts =~= expected.counts);
            assert(self@ == expected);
        }
        Ok(())
    }

    /// Records one occurrence of `value`, as `record_n` with a count of 1.
    pub fn record(&mut self, value: u64) -> (r: Result<(), RecordError>)
        ensures
            final(self).wf(),
            old(self)@.index_of(value) < old(self)@.counts.len() ==> r is Ok && final(self)@
                == recorded(old(self)@, value, 1, T::count_max()),
            old(self)@.index_of(value) >= old(self)@.counts.len() ==> r == Err::<(), RecordError>(
                RecordError::ValueOutOfRange,
            ) && final(self)@ == old(self)@,
    {
        proof {
            use_type_invariant(&*self);
        }
        self.record_n(value, T::one())
    }

    /// The highest equivalent of the largest recorded value, or 0 before any was recorded.
    pub fn max(&self) -> (r: u64)
        ensures
            r == (if self@.max_value == INITIAL_MAX {
                INITIAL_MAX
            } else {
                highest_equivalent_of(
                    self@.unit_magnitude,
                    self@.sub_bucket_count_magnitude,
                    self@.max_value,
                )
            }),
    {
        proof {
            use_type_invariant(self);
        }
        if self.max_value == INITIAL_MAX {
            INITIAL_MAX
        } else {
            self.highest_equivalent(self.max_value)
        }
    }

    /// The lowest equivalent of the smallest non-zero recorded value, or `u64::MAX` before any
    /// was recorded.
    pub fn min_nz(&self) -> (r: u64)
        ensures
            r == (if self@.min_non_zero_value == INITIAL_MIN {
                INITIAL_MIN
            } else {
                lowest_equivalent_of(
                    self@.unit_magnitude,
                    self@.sub_bucket_count_magnitude,
                    self@.min_non_zero_value,
                )
            }),
    {
        proof {
            use_type_invariant(self);
        }
        if self.min_non_zero_value == INITIAL_MIN {
            INITIAL_MIN
        } else {
            self.lowest_equivalent(self.min_non_zero_value)
        }
    }

    /// The number of values recorded (held at `u64::MAX`).
    pub fn count(&self) -> (r: u64)
        ensures
            r == self@.total_count,
    {
        self.total_count
    }

    /// The highest value that can be recorded.
    pub fn highest_trackable_value(&self) -> (r: u64)
        ensures
            r == self@.high,
    {
        self.highest_trackable_value
    }

    /// The lowest value that can be told apart from 0.
    pub fn lowest_discernible_value(&self) -> (r: u64)
        ensures
            r == self@.low,
    {
        self.lowest_discernible_value
    }

    /// The number of significant decimal digits kept.
    pub fn significant_value_digits(&self) -> (r: u8)
        ensures
            r == self@.sigfig,
    {
        self.significant_value_digits
    }

    /// The number of buckets.
    pub fn bucket_count(&self) -> (r: u8)
        ensures
            r == self@.bucket_count,
    {
        self.bucket_count
    }

    /// The number of sub-buckets of each bucket: `2^sub_bucket_count_magnitude`.
    pub fn sub_bucket_count(&self) -> (r: u32)
        ensures
            r == pow2(self@.sub_bucket_count_magnitude),
    {
        proof {
            use_type_invariant(self);
        }
        self.sub_bucket_count
    }

    /// Half the number of sub-buckets of each bucket.
    pub fn sub_bucket_half_count(&self) -> (r: u32)
        ensures
            r == pow2((self@.sub_bucket_count_magnitude - 1) as nat),
    {
        proof {
            use_type_invariant(self);
        }
        self.sub_bucket_half_count
    }

    /// `log2` of half the number of sub-buckets of each bucket.
    pub fn sub_bucket_half_count_magnitude(&self) -> (r: u8)
        ensures
            r + 1 == self@.sub_bucket_count_magnitude,
    {
        self.sub_bucket_half_count_magnitude
    }

    /// The bits of a value that pick its sub-bucket in bucket 0.
    pub fn sub_bucket_mask(&self) -> (r: u64)
        ensures
            r == sub_bucket_mask_of(self@.unit_magnitude, self@.sub_bucket_count_magnitude),
    {
        proof {
            use_type_invariant(self);
        }
        self.sub_bucket_mask
    }

    /// The leading zeros of the largest value that bucket 0 holds.
    pub fn leading_zero_count_base(&self) -> (r: u8)
        ensures
            r == 64 - self@.unit_magnitude - self@.sub_bucket_count_magnitude,
    {
        proof {
            use_type_invariant(self);
        }
        self.leading_zero_count_base
    }

    /// `floor(log2(low))`.
    pub fn unit_magnitude(&self) -> (r: u8)
        ensures
            r == self@.unit_magnitude,
    {
        self.unit_magnitude
    }

    /// The bits below the unit magnitude.
    pub fn unit_magnitude_mask(&self) -> (r: u64)
        ensures
            r == pow2(self@.unit_magnitude) - 1,
    {
        proof {
            use_type_invariant(self);
        }
        self.unit_magnitude_mask
    }

    /// The largest value recorded (0 before any).
    pub fn max_value(&self) -> (r: u64)
        ensures
            r == self@.max_value,
    {
        self.max_value
    }

    /// The smallest non-zero value recorded (`u64::MAX` before any).
    pub fn min_non_zero_value(&self) -> (r: u64)
        ensures
            r == self@.min_non_zero_value,
    {
        self.min_non_zero_value
    }

    /// The number of values recorded (held at `u64::MAX`).
    pub fn total_count(&self) -> (r: u64)
        ensures
            r == self@.total_count,
    {
        self.total_count
    }

    /// The counts of the slots.
    pub fn counts(&self) -> (r: &Vec<T>)
        ensures
            r@.map_values(|c: T| c.count_value()) == self@.counts,
    {
        &self.counts
    }
}

/// The index of the last non-zero count among the first `n`.
pub open spec fn last_nonzero_below(c: Seq<nat>, n: nat) -> Option<nat>
    decreases n,
{
    if n == 0 {
        None
    } else if c[n - 1] != 0 {
        Some((n - 1) as nat)
    } else {
        last_nonzero_below(c, (n - 1) as nat)
    }
}

/// The index of the first non-zero count among indices `1..n` (the slot at index 0 holds the
/// values that cannot be told apart from 0).
pub open spec fn first_nonzero_below(c: Seq<nat>, n: nat) -> Option<nat>
    decreases n,
{
    if n <= 1 {
        None
    } else {
        match first_nonzero_below(c, (n - 1) as nat) {
            Some(i) => Some(i),
            None => if c[n - 1] != 0 {
                Some((n - 1) as nat)
            } else {
                None
            },
        }
    }
}

/// The sum of the first `n` counts, held at `u64::MAX`.
pub open spec fn saturating_total(c: Seq<nat>, n: nat) -> u64
    decreases n,
{
    if n == 0 {
        0
    } else {
        saturating_sum(saturating_total(c, (n - 1) as nat) as nat, c[n - 1])
    }
}

/// The histogram with its statistics recomputed from its counts: the largest value is the
/// highest equivalent of the last non-zero slot, the smallest non-zero value the start of the
/// first non-zero slot past slot 0, the total the sum of the counts.
pub open spec fn restat(h: HistogramView) -> HistogramView {
    let u = h.unit_magnitude;
    let s = h.sub_bucket_count_magnitude;
    let n = h.counts.len();
    HistogramView {
        max_value: match last_nonzero_below(h.counts, n) {
            Some(i) => highest_equivalent_of(u, s, value_at_index(u, s, i)),
            None => INITIAL_MAX,
        },
        min_non_zero_value: match first_nonzero_below(h.counts, n) {
            Some(i) => value_at_index(u, s, i),
            None => INITIAL_MIN,
        },
        total_count: saturating_total(h.counts, n),
        ..h
    }
}

pub(crate) proof fn lemma_last_nonzero(c: Seq<nat>, n: nat)
    requires
        n <= c.len(),
    ensures
        last_nonzero_below(c, n) matches Some(i) ==> i < n && c[i as int] != 0 && forall|j: int|
            i < j < n ==> #[trigger] c[j] == 0,
        last_nonzero_below(c, n) is None ==> forall|j: int| 0 <= j < n ==> #[trigger] c[j] == 0,
    decreases n,
{
    if n > 0 {
        lemma_last_nonzero(c, (n - 1) as nat);
    }
}

pub(crate) proof fn lemma_first_nonzero(c: Seq<nat>, n: nat)
    requires
        n <= c.len(),
    ensures
        first_nonzero_below(c, n) matches Some(i) ==> 1 <= i < n && c[i as int] != 0 && forall|
            j: int,
        | 1 <= j < i ==> #[trigger] c[j] == 0,
        first_nonzero_below(c, n) is None ==> forall|j: int| 1 <= j < n ==> #[trigger] c[j] == 0,
    decreases n,
{
    if n > 1 {
        lemma_first_nonzero(c, (n - 1) as nat);
    }
}

impl<T: Counter> Histogram<T> {
    /// This histogram's layout with the given counts, one per slot, and the statistics that they
    /// give.
    pub(crate) fn with_counts(self, counts: Vec<T>) -> (r: Histogram<T>)
        requires
            counts@.len() == self@.counts.len(),
        ensures
            r.wf(),
            r@ == restat(HistogramView { counts: counts@.map_values(|c: T| c.count_value()), ..self@ }),
    {
        proof {
            use_type_invariant(&self);
        }
        let ghost cv = counts@.map_values(|c: T| c.count_value());
        let n = counts.len();
        let mut i: usize = 0;
        let mut total: u64 = 0;
        let mut max_index: Option<usize> = None;
        let mut min_index: Option<usize> = None;
        while i < n
            invariant
                n == counts@.len(),
                cv == counts@.map_values(|c: T| c.count_value()),
                i <= n,
                total == saturating_total(cv, i as nat),
                max_index is None <==> last_nonzero_below(cv, i as nat) is None,
                max_index matches Some(m) ==> last_nonzero_below(cv, i as nat) == Some(m as nat),
                min_index is None <==> first_nonzero_below(cv, i as nat) is None,
                min_index matches Some(m) ==> first_nonzero_below(cv, i as nat) == Some(m as nat),
            decreases n - i,
        {
            let c = counts[i].as_u64();
            if c > 0 {
                total = total.saturating_add(c);
                max_index = Some(i);
                if min_index.is_none() && i != 0 {
                    min_index = Some(i);
                }
            }
            i = i + 1;
        }
        let ghost u = self@.unit_magnitude;
        let ghost s = self@.sub_bucket_count_magnitude;
        proof {
            self.lemma_layout();
            lemma_last_nonzero(cv, n as nat);
        }
        let max_value = match max_index {
            Some(m) => {
                let v = self.value_for(m);
                proof {
                    lemma_index_roundtrip(u, s, self@.bucket_count, m as nat);
                    lemma_equivalents_same_slot(u, s, v);
                }
                self.highest_equivalent(v)
            },
            None => INITIAL_MAX,
        };
        let min_non_zero_value = match min_index {
            Some(m) => {
                proof {
                    lemma_first_nonzero(cv, n as nat);
                }
                self.value_for(m)
            },
            None => INITIAL_MIN,
        };
        proof {
            if max_index is None {
                lemma_index_of_zero(u, s);
            }
            assert(index_of_value(u, s, max_value) < n);
            assert(forall|i: int| index_of_value(u, s, max_value) < i < n ==> #[trigger] cv[i] == 0);
        }
        let r = Histogram { counts, max_value, min_non_zero_value, total_count: total, ..self };
        proof {
            let expected = restat(HistogramView { counts: cv, ..self@ });
            assert(r@ == expected);
        }
        r
    }
}

proof fn lemma_index_of_zero(u: nat, s: nat)
    ensures
        index_of_value(u, s, 0) == 0,
{
    let k1 = (u + s) as u64;
    let k2 = u as u64;
    assert(0u64 >> k1 == 0 && 0u64 >> k2 == 0) by (bit_vector);
    assert(bucket_from(0, u + s) == 0);
    assert(bucket_of(u, s, 0) == 0);
    assert(sub_bucket_of(u, s, 0) == 0);
    vstd::arithmetic::mul::lemma_mul_basics(pow2((s - 1) as nat) as int);
}

proof fn lemma_last_nonzero_unique(c: Seq<nat>, n: nat, j: nat)
    requires
        n <= c.len(),
        j < n,
        c[j as int] != 0,
        forall|k: int| j < k < n ==> #[trigger] c[k] == 0,
    ensures
        last_nonzero_below(c, n) == Some(j),
    decreases n,
{
    if j + 1 < n {
        lemma_last_nonzero_unique(c, (n - 1) as nat, j);
    }
}

proof fn lemma_first_nonzero_unique(c: Seq<nat>, n: nat, j: nat)
    requires
        n <= c.len(),
        1 <= j < n,
        c[j as int] != 0,
        forall|k: int| 1 <= k < j ==> #[trigger] c[k] == 0,
    ensures
        first_nonzero_below(c, n) == Some(j),
    decreases n,
{
    if j + 1 < n {
        lemma_first_nonzero_unique(c, (n - 1) as nat, j);
    } else {
        lemma_first_nonzero(c, (n - 1) as nat);
    }
}

/// The sum of the first `n` counts.
pub open spec fn count_sum(c: Seq<nat>, n: nat) -> nat
    decreases n,
{
    if n == 0 {
        0
    } else {
        count_sum(c, (n - 1) as nat) + c[n - 1]
    }
}

proof fn lemma_saturating_total_unsaturated(c: Seq<nat>, n: nat)
    ensures
        saturating_total(c, n) < u64::MAX ==> saturating_total(c, n) == count_sum(c, n),
        count_sum(c, n) <= u64::MAX ==> saturating_total(c, n) == count_sum(c, n),
    decreases n,
{
    if n > 0 {
        lemma_saturating_total_unsaturated(c, (n - 1) as nat);
    }
}

proof fn lemma_count_sum_update(c: Seq<nat>, n: nat, i: nat, x: nat)
    requires
        i < n <= c.len(),
    ensures
        count_sum(c.update(i as int, x), n) + c[i as int] == count_sum(c, n) + x,
    decreases n,
{
    if n - 1 > i {
        lemma_count_sum_update(c, (n - 1) as nat, i, x);
    } else {
        assert(forall|k: int| 0 <= k < i ==> c.update(i as int, x)[k] == c[k]);
        lemma_count_sum_prefix_eq(c, c.update(i as int, x), i);
    }
}

proof fn lemma_count_sum_prefix_eq(a: Seq<nat>, b: Seq<nat>, n: nat)
    requires
        n <= a.len(),
        n <= b.len(),
        forall|k: int| 0 <= k < n ==> a[k] == b[k],
    ensures
        count_sum(a, n) == count_sum(b, n),
    decreases n,
{
    if n > 0 {
        lemma_count_sum_prefix_eq(a, b, (n - 1) as nat);
    }
}

/// The statistics of a histogram agree with its counts: the largest value is in the last
/// non-zero slot (0 when there is none), the smallest non-zero value in the first non-zero slot
/// past slot 0 (`u64::MAX` when there is none), and the total is the sum of the counts.
pub open spec fn stats_consistent(h: HistogramView) -> bool {
    let n = h.counts.len();
    &&& match last_nonzero_below(h.counts, n) {
        None => h.max_value == INITIAL_MAX,
        Some(i) => i == h.index_of(h.max_value),
    }
    &&& match first_nonzero_below(h.counts, n) {
        None => h.min_non_zero_value == INITIAL_MIN,
        Some(i) => i == h.index_of(h.min_non_zero_value) && h.min_non_zero_value != INITIAL_MIN,
    }
    &&& h.total_count == saturating_total(h.counts, n)
}

/// An empty histogram's statistics agree with its counts.
pub proof fn lemma_empty_stats_consistent(low: u64, high: u64, sigfig: nat)
    requires
        creation_error(low, high, sigfig) is None,
    ensures
        stats_consistent(empty_histogram(low, high, sigfig)),
{
    let h = empty_histogram(low, high, sigfig);
    let n = h.counts.len();
    assert(forall|k: int| 0 <= k < n ==> h.counts[k] == 0);
    lemma_last_nonzero(h.counts, n);
    lemma_first_nonzero(h.counts, n);
    if last_nonzero_below(h.counts, n) is Some {
        assert(false);
    }
    if first_nonzero_below(h.counts, n) is Some {
        assert(false);
    }
    lemma_saturating_total_unsaturated(h.counts, n);
    lemma_count_sum_zero(h.counts, n);
}

proof fn lemma_count_sum_zero(c: Seq<nat>, n: nat)
    requires
        n <= c.len(),
        forall|k: int| 0 <= k < n ==> c[k] == 0,
    ensures
        count_sum(c, n) == 0,
    decreases n,
{
    if n > 0 {
        lemma_count_sum_zero(c, (n - 1) as nat);
    }
}

/// Recording a positive number of occurrences of a value below `u64::MAX` that is 0 or lies
/// past slot 0, when neither its slot's count nor the total reaches its limit, keeps the
/// statistics in agreement with the counts.
pub proof fn lemma_record_keeps_stats_consistent(h: HistogramView, value: u64, count: nat, count_max: nat)
    requires
        h.wf(),
        stats_consistent(h),
        h.index_of(value) < h.counts.len(),
        value < u64::MAX,
        value == 0 || h.index_of(value) >= 1,
        count >= 1,
        h.counts[h.index_of(value) as int] + count <= count_max,
        h.total_count + count <= u64::MAX,
    ensures
        stats_consistent(recorded(h, value, count, count_max)),
{
    lemma_valid_params(h.low, h.high, h.sigfig);
    let u = h.unit_magnitude;
    let s = h.sub_bucket_count_magnitude;
    let r = recorded(h, value, count, count_max);
    let c = h.counts;
    let n = c.len();
    let i = h.index_of(value);
    let c2 = r.counts;
    assert(c2 == c.update(i as int, c[i as int] + count));
    lemma_last_nonzero(c, n);
    lemma_first_nonzero(c, n);
    // the largest value
    match last_nonzero_below(c, n) {
        None => {
            assert(h.max_value == 0);
            if value > 0 {
                lemma_index_monotone(u, s, 0, value);
            }
            lemma_last_nonzero_unique(c2, n, i);
            assert(r.max_value == value);
        },
        Some(l) => {
            if value > h.max_value {
                lemma_index_monotone(u, s, h.max_value, value);
                lemma_last_nonzero_unique(c2, n, i);
            } else {
                lemma_index_monotone(u, s, value, h.max_value);
                lemma_last_nonzero_unique(c2, n, l);
            }
        },
    }
    // the smallest non-zero value
    if value == 0 {
        let k1 = (u + s) as u64;
        let k2 = u as u64;
        assert(0u64 >> k1 == 0 && 0u64 >> k2 == 0) by (bit_vector);
        assert(bucket_from(0, u + s) == 0);
        assert(bucket_of(u, s, 0) == 0);
        assert(sub_bucket_of(u, s, 0) == 0);
        vstd::arithmetic::mul::lemma_mul_basics(pow2((s - 1) as nat) as int);
        assert(index_of_value(u, s, 0) == 0);
        assert(i == 0);
        match first_nonzero_below(c, n) {
            None => {
                lemma_first_nonzero(c2, n);
                if first_nonzero_below(c2, n) is Some {
                    assert(false);
                }
            },
            Some(f) => {
                lemma_first_nonzero_unique(c2, n, f);
            },
        }
    } else {
        match first_nonzero_below(c, n) {
            None => {
                lemma_first_nonzero_unique(c2, n, i);
            },
            Some(f) => {
                if value < h.min_non_zero_value {
                    lemma_index_monotone(u, s, value, h.min_non_zero_value);
                    lemma_first_nonzero_unique(c2, n, i);
                } else {
                    lemma_index_monotone(u, s, h.min_non_zero_value, value);
                    lemma_first_nonzero_unique(c2, n, f);
                }
            },
        }
    }
    // the total
    lemma_saturating_total_unsaturated(c, n);
    lemma_count_sum_update(c, n, i, c[i as int] + count);
    lemma_saturating_total_unsaturated(c2, n);
}

impl<T: Counter> Histogram<T> {
    /// Every count of a histogram fits its counter type.
    pub proof fn lemma_counts_fit(&self)
        ensures
            forall|i: int| 0 <= i < self@.counts.len() ==> #[trigger] self@.counts[i] <= T::count_max(),
    {
        assert forall|i: int| 0 <= i < self@.counts.len() implies #[trigger] self@.counts[i]
            <= T::count_max() by {
            T::lemma_count_bounds(self.counts@[i]);
        }
    }
}

/// The running total held at `u64::MAX` is the plain sum of the counts, held at `u64::MAX`.
pub proof fn lemma_saturating_total_is_capped_sum(c: Seq<nat>, n: nat)
    ensures
        saturating_total(c, n) == (if count_sum(c, n) <= u64::MAX {
            count_sum(c, n)
        } else {
            u64::MAX as nat
        }),
    decreases n,
{
    if n > 0 {
        lemma_saturating_total_is_capped_sum(c, (n - 1) as nat);
    }
}

/// Recomputing the statistics of a histogram keeps its layout and counts, and gives: as the
/// total, the sum of all its counts (slot 0 included) held at `u64::MAX`; as the largest value,
/// 0 when every count is zero, else a value whose slot is the last non-zero one; as the smallest
/// non-zero value, `u64::MAX` when no slot past slot 0 counts anything, else the start of the
/// first such slot.
pub proof fn lemma_restat_stats(h: HistogramView)
    requires
        h.layout_wf(),
    ensures
        restat(h).same_layout(h),
        restat(h).counts == h.counts,
        restat(h).total_count == (if count_sum(h.counts, h.counts.len()) <= u64::MAX {
            count_sum(h.counts, h.counts.len())
        } else {
            u64::MAX as nat
        }),
        (forall|i: int| 0 <= i < h.counts.len() ==> #[trigger] h.counts[i] == 0) ==> restat(h).max_value
            == 0,
        (exists|i: int| 0 <= i < h.counts.len() && #[trigger] h.counts[i] != 0) ==> {
            let m = h.index_of(restat(h).max_value) as int;
            &&& m < h.counts.len()
            &&& h.counts[m] != 0
            &&& forall|j: int| m < j < h.counts.len() ==> #[trigger] h.counts[j] == 0
        },
        (forall|i: int| 1 <= i < h.counts.len() ==> #[trigger] h.counts[i] == 0)
            ==> restat(h).min_non_zero_value == u64::MAX,
        (exists|i: int| 1 <= i < h.counts.len() && #[trigger] h.counts[i] != 0) ==> {
            let f = h.index_of(restat(h).min_non_zero_value) as int;
            &&& 1 <= f < h.counts.len()
            &&& h.counts[f] != 0
            &&& forall|j: int| 1 <= j < f ==> #[trigger] h.counts[j] == 0
            &&& lowest_equivalent_of(
                h.unit_magnitude,
                h.sub_bucket_count_magnitude,
                restat(h).min_non_zero_value,
            ) == restat(h).min_non_zero_value
        },
{
    lemma_valid_params(h.low, h.high, h.sigfig);
    let u = h.unit_magnitude;
    let s = h.sub_bucket_count_magnitude;
    let n = h.counts.len();
    lemma_saturating_total_is_capped_sum(h.counts, n);
    lemma_last_nonzero(h.counts, n);
    lemma_first_nonzero(h.counts, n);
    match last_nonzero_below(h.counts, n) {
        Some(m) => {
            lemma_index_roundtrip(u, s, h.bucket_count, m);
            lemma_equivalents_same_slot(u, s, value_at_index(u, s, m));
        },
        None => {},
    }
    match first_nonzero_below(h.counts, n) {
        Some(f) => {
            lemma_index_roundtrip(u, s, h.bucket_count, f);
        },
        None => {},
    }
}

/// Recording `count` occurrences of a value whose slot is among the counts adds `count` to that
/// slot (held at the counter's maximum) and to the total (held at `u64::MAX`), leaves every other
/// slot and the layout as they were, raises the largest value to the value, and lowers the
/// smallest non-zero value to it when it is not zero. This holds for every value, those that fall
/// in slot 0 included.
pub proof fn lemma_recorded(h: HistogramView, value: u64, count: nat, count_max: nat)
    requires
        h.index_of(value) < h.counts.len(),
    ensures
        ({
            let r = recorded(h, value, count, count_max);
            let i = h.index_of(value) as int;
            &&& r.same_layout(h)
            &&& r.counts.len() == h.counts.len()
            &&& r.counts[i] == (if h.counts[i] + count <= count_max {
                h.counts[i] + count
            } else {
                count_max
            })
            &&& forall|j: int| 0 <= j < h.counts.len() && j != i ==> #[trigger] r.counts[j] == h.counts[j]
            &&& r.total_count == (if h.total_count + count <= u64::MAX {
                h.total_count + count
            } else {
                u64::MAX as int
            })
            &&& r.max_value >= value && r.max_value >= h.max_value
            &&& (r.max_value == value || r.max_value == h.max_value)
            &&& value != 0 ==> r.min_non_zero_value <= value
            &&& r.min_non_zero_value <= h.min_non_zero_value
            &&& (r.min_non_zero_value == value || r.min_non_zero_value == h.min_non_zero_value)
            &&& (value == 0 ==> r.min_non_zero_value == h.min_non_zero_value)
        }),
{
}

/// Creation succeeds exactly when the lowest discernible value is at least 1 and at most
/// `u64::MAX / 2`, the highest trackable value is at least twice it, at most 5 digits are asked
/// for, and `floor(log2(low))` plus the sub-bucket magnitude of the digits (1, 5, 8, 11, 15, 18
/// for 0 to 5 digits) is at most 63.
pub proof fn lemma_creation_succeeds(low: u64, high: u64, sigfig: nat)
    ensures
        creation_error(low, high, sigfig) is None <==> {
            &&& 1 <= low <= u64::MAX / 2
            &&& 2 * low <= high
            &&& sigfig <= 5
            &&& unit_magnitude_for(low) + (if sigfig == 0 {
                1nat
            } else if sigfig == 1 {
                5nat
            } else if sigfig == 2 {
                8nat
            } else if sigfig == 3 {
                11nat
            } else if sigfig == 4 {
                15nat
            } else {
                18nat
            }) <= 63
        },
{
    if sigfig <= 5 {
        lemma_sigfig_magnitudes(sigfig);
    }
}

/// The unit magnitude of a lowest discernible value is `floor(log2(low))`: the largest `u` with
/// `2^u <= low`.
pub proof fn lemma_unit_magnitude(low: u64)
    requires
        low >= 1,
    ensures
        pow2(unit_magnitude_for(low)) <= low < pow2(unit_magnitude_for(low) + 1),
{
    lemma_log2_floor_pow2(low as nat);
}

proof fn lemma_log2_floor_pow2(x: nat)
    requires
        x >= 1,
    ensures
        pow2(log2_floor(x)) <= x < pow2(log2_floor(x) + 1),
    decreases x,
{
    lemma_pow2_unfold(log2_floor(x) + 1);
    if x >= 2 {
        lemma_log2_floor_pow2(x / 2);
        lemma_pow2_unfold(log2_floor(x));
    } else {
        vstd::arithmetic::power2::lemma2_to64();
    }
}

/// The sub-bucket count magnitude of the digits is the least `s` with `2^s >= 2 * 10^sigfig`:
/// enough sub-buckets to tell `2 * 10^sigfig` values apart, and no more.
pub proof fn lemma_sub_bucket_count_magnitude(sigfig: nat)
    requires
        sigfig <= 5,
    ensures
        2 * pow10(sigfig) <= pow2(sub_bucket_count_magnitude_for(sigfig)),
        pow2((sub_bucket_count_magnitude_for(sigfig) - 1) as nat) < 2 * pow10(sigfig),
{
    lemma_sigfig_magnitudes(sigfig);
    reveal_with_fuel(pow10, 6);
    vstd::arithmetic::power2::lemma2_to64();
}

} // verus!
