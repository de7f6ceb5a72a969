use vstd::prelude::*;

use crate::counter::Counter;
use crate::cursor::ByteCursor;
use crate::histogram::{
    creation_error, empty_histogram, first_nonzero_below, last_nonzero_below, restat,
    stats_consistent, Histogram, HistogramView,
};
use crate::varint::{
    lemma_varint_decode_encoding, lemma_zig_zag_decode_encode, spec_zig_zag_decode,
    spec_zig_zag_encode, varint_decode, varint_decode_from, varint_encoding, varint_len,
};

verus! {

/// The cookie base of the V2 encoding.
pub const V2_COOKIE_BASE: u32 = 0x1c84_9303u32;

/// The cookie that starts a V2 encoded (uncompressed) histogram.
pub const V2_COOKIE: u32 = 0x1c84_9313u32;

/// The size of the V2 header: cookie, payload length, normalizing index offset, number of
/// significant digits (4 bytes each), lowest and highest value and the integer to double
/// conversion ratio (8 bytes each).
pub const V2_HEADER_SIZE: usize = 40usize;

/// The bits of the IEEE 754 double 1.0, the only conversion ratio supported.
pub const V2_UNIT_CONVERSION_RATIO_BITS: u64 = 0x3ff0_0000_0000_0000u64;

/// The big-endian bytes of `x`.
pub open spec fn be_u32_bytes(x: u32) -> Seq<u8> {
    seq![(x >> 24u32) as u8, (x >> 16u32) as u8, (x >> 8u32) as u8, x as u8]
}

/// The big-endian bytes of `x`.
pub open spec fn be_u64_bytes(x: u64) -> Seq<u8> {
    seq![
        (x >> 56u64) as u8,
        (x >> 48u64) as u8,
        (x >> 40u64) as u8,
        (x >> 32u64) as u8,
        (x >> 24u64) as u8,
        (x >> 16u64) as u8,
        (x >> 8u64) as u8,
        x as u8,
    ]
}

/// The big-endian `u32` in `b` at `at`.
pub open spec fn be_u32_at(b: Seq<u8>, at: int) -> u32 {
    ((b[at] as u32) << 24u32) | ((b[at + 1] as u32) << 16u32) | ((b[at + 2] as u32) << 8u32) | (b[at
        + 3] as u32)
}

/// The big-endian `u64` in `b` at `at`.
pub open spec fn be_u64_at(b: Seq<u8>, at: int) -> u64 {
    ((be_u32_at(b, at) as u64) << 32u64) | (be_u32_at(b, at + 4) as u64)
}

/// The number of zero counts in a row from `i` (before `end`).
pub open spec fn zero_run(c: Seq<nat>, i: nat, end: nat) -> nat
    decreases end - i,
{
    if i < end && c[i as int] == 0 {
        1 + zero_run(c, i + 1, end)
    } else {
        0
    }
}

/// A run of zeros from `i` ends by `end`, and the counts in it are zero.
pub proof fn lemma_zero_run(c: Seq<nat>, i: nat, end: nat)
    requires
        i <= end,
    ensures
        i + zero_run(c, i, end) <= end,
        forall|j: int| i <= j < i + zero_run(c, i, end) ==> #[trigger] c[j] == 0,
        i + zero_run(c, i, end) < end ==> c[(i + zero_run(c, i, end)) as int] != 0,
    decreases end - i,
{
    if i < end && c[i as int] == 0 {
        lemma_zero_run(c, i + 1, end);
    }
}

/// How many counts the token at `i` stands for: a run of zeros, or one count.
pub open spec fn token_width(c: Seq<nat>, i: nat, end: nat) -> nat {
    if c[i as int] == 0 {
        zero_run(c, i, end)
    } else {
        1
    }
}

/// The token that encodes the counts from `i` on: a non-zero count as itself, a run of more than
/// one zero as the negated run length, a lone zero as 0.
pub open spec fn count_token(c: Seq<nat>, i: nat, end: nat) -> int {
    if c[i as int] == 0 {
        if zero_run(c, i, end) > 1 {
            -(zero_run(c, i, end) as int)
        } else {
            0
        }
    } else {
        c[i as int] as int
    }
}

/// The bytes that encode the counts from `i` to `end`: each token ZigZag-mapped, then written
/// as a varint.
pub open spec fn encode_counts_from(c: Seq<nat>, i: nat, end: nat) -> Seq<u8>
    decreases end - i,
{
    if i >= end {
        seq![]
    } else {
        proof {
            lemma_zero_run(c, i, end);
            if c[i as int] == 0 {
                assert(zero_run(c, i, end) >= 1);
            }
            assert(1 <= token_width(c, i, end) <= end - i);
        }
        varint_encoding(spec_zig_zag_encode(count_token(c, i, end)) as u64) + encode_counts_from(
            c,
            i + token_width(c, i, end),
            end,
        )
    }
}

/// The number of slots that the encoding covers: up to the slot of the largest value.
pub open spec fn encoded_slots(h: HistogramView) -> nat {
    h.index_of(h.max_value) + 1
}

/// Every count that the encoding covers fits in an `i64`.
pub open spec fn counts_serializable(h: HistogramView) -> bool {
    forall|i: int| 0 <= i < encoded_slots(h) ==> #[trigger] h.counts[i] <= i64::MAX
}

/// The encoded counts of a histogram.
pub open spec fn encoded_counts(h: HistogramView) -> Seq<u8> {
    encode_counts_from(h.counts, 0, encoded_slots(h))
}

/// The V2 header of a histogram whose encoded counts take `payload_len` bytes.
pub open spec fn v2_header(h: HistogramView, payload_len: nat) -> Seq<u8> {
    be_u32_bytes(V2_COOKIE) + be_u32_bytes(payload_len as u32) + be_u32_bytes(0) + be_u32_bytes(
        h.sigfig as u32,
    ) + be_u64_bytes(h.low) + be_u64_bytes(h.high) + be_u64_bytes(V2_UNIT_CONVERSION_RATIO_BITS)
}

/// The V2 encoding of a histogram: the header, then the encoded counts.
pub open spec fn v2_encoding(h: HistogramView) -> Seq<u8> {
    v2_header(h, encoded_counts(h).len()) + encoded_counts(h)
}

/// Why bytes could not be read back as a histogram.
#[derive(Debug, Clone, Copy, PartialEq, Eq)]
pub enum DeserializeError {
    /// The bytes do not start with the V2 cookie.
    InvalidCookie,
    /// A normalizing index offset or a conversion ratio other than 1 was used.
    UnsupportedFeature,
    /// A count does not fit in the counter type.
    UnsuitableCounterType,
    /// The header's parameters do not make a histogram.
    InvalidParameters,
    /// A count index does not fit in a `usize`.
    UsizeTypeTooSmall,
    /// The encoded counts go past the slots of the histogram.
    EncodedArrayTooLong,
    /// The bytes end before the histogram does.
    UnexpectedEof,
}

/// Where decoding the counts stands: the next slot to fill, and the counts so far.
pub struct DecodeState {
    pub dest: nat,
    pub counts: Seq<nat>,
}

/// The effect of one decoded token: a negative one skips that many zero slots; any other is
/// the count of the next slot, which must fit the counter (at most `count_max`) and, when not
/// zero, lie among the slots.
pub open spec fn apply_token(st: DecodeState, t: int, count_max: nat) -> Result<DecodeState, DeserializeError> {
    if t < 0 {
        if st.dest + (-t) > usize::MAX {
            Err(DeserializeError::UsizeTypeTooSmall)
        } else {
            Ok(DecodeState { dest: (st.dest + (-t)) as nat, counts: st.counts })
        }
    } else if t > count_max {
        Err(DeserializeError::UnsuitableCounterType)
    } else if t > 0 && st.dest >= st.counts.len() {
        Err(DeserializeError::EncodedArrayTooLong)
    } else if st.dest + 1 > usize::MAX {
        Err(DeserializeError::UsizeTypeTooSmall)
    } else {
        Ok(
            DecodeState {
                dest: st.dest + 1,
                counts: if t > 0 {
                    st.counts.update(st.dest as int, t as nat)
                } else {
                    st.counts
                },
            },
        )
    }
}

/// Decoding a varint reads at least one byte, and no more than there are.
pub proof fn lemma_varint_decode_progress(p: Seq<u8>, i: nat, acc: u64)
    ensures
        varint_decode_from(p, i, acc) matches Some((v, n)) ==> i < n <= p.len(),
    decreases 9 - i,
{
    if i < 9 && i < p.len() && i != 8 {
        let b = p[i as int];
        let acc2 = acc | (((b & 0x7fu8) as u64) << ((7 * i) as u64));
        lemma_varint_decode_progress(p, i + 1, acc2);
    }
}

/// The decoded counts, from the payload bytes `p` on and the state `st`.
pub open spec fn decode_counts(p: Seq<u8>, st: DecodeState, count_max: nat) -> Result<DecodeState, DeserializeError>
    decreases p.len(),
{
    if p.len() == 0 {
        Ok(st)
    } else {
        match varint_decode(p) {
            None => Err(DeserializeError::UnexpectedEof),
            Some((v, n)) => match apply_token(st, spec_zig_zag_decode(v as int), count_max) {
                Err(e) => Err(e),
                Ok(st2) => {
                    proof {
                        lemma_varint_decode_progress(p, 0, 0);
                    }
                    decode_counts(p.skip(n as int), st2, count_max)
                },
            },
        }
    }
}

/// The histogram that V2 bytes describe, for counters that hold at most `count_max`, and the
/// number of bytes it takes; or why there is none.
pub open spec fn decode_v2(b: Seq<u8>, count_max: nat) -> Result<(HistogramView, nat), DeserializeError> {
    if b.len() < 4 {
        Err(DeserializeError::UnexpectedEof)
    } else if be_u32_at(b, 0) != V2_COOKIE {
        Err(DeserializeError::InvalidCookie)
    } else if b.len() < 12 {
        Err(DeserializeError::UnexpectedEof)
    } else if be_u32_at(b, 8) != 0 {
        Err(DeserializeError::UnsupportedFeature)
    } else if b.len() < 16 {
        Err(DeserializeError::UnexpectedEof)
    } else if be_u32_at(b, 12) > 255 {
        Err(DeserializeError::InvalidParameters)
    } else if b.len() < 40 {
        Err(DeserializeError::UnexpectedEof)
    } else if be_u64_at(b, 32) != V2_UNIT_CONVERSION_RATIO_BITS {
        Err(DeserializeError::UnsupportedFeature)
    } else {
        let low = be_u64_at(b, 16);
        let high = be_u64_at(b, 24);
        let sigfig = be_u32_at(b, 12) as nat;
        let payload_len = be_u32_at(b, 4) as nat;
        if creation_error(low, high, sigfig) is Some {
            Err(DeserializeError::InvalidParameters)
        } else if b.len() < 40 + payload_len {
            Err(DeserializeError::UnexpectedEof)
        } else {
            let empty = empty_histogram(low, high, sigfig);
            match decode_counts(
                b.subrange(40, 40 + payload_len as int),
                DecodeState { dest: 0, counts: empty.counts },
                count_max,
            ) {
                Err(e) => Err(e),
                Ok(st) => Ok((restat(HistogramView { counts: st.counts, ..empty }), 40 + payload_len)),
            }
        }
    }
}

/// Reading back the big-endian bytes of `x` gives `x`.
pub proof fn lemma_be_u32(x: u32, b: Seq<u8>, at: int)
    requires
        0 <= at,
        at + 4 <= b.len(),
        b.subrange(at, at + 4) == be_u32_bytes(x),
    ensures
        be_u32_at(b, at) == x,
{
    assert(b[at] == be_u32_bytes(x)[0]);
    assert(b[at + 1] == be_u32_bytes(x)[1]);
    assert(b[at + 2] == be_u32_bytes(x)[2]);
    assert(b[at + 3] == be_u32_bytes(x)[3]);
    assert((((((x >> 24u32) as u8) as u32) << 24u32) | ((((x >> 16u32) as u8) as u32) << 16u32) | (
    (((x >> 8u32) as u8) as u32) << 8u32) | ((x as u8) as u32)) == x) by (bit_vector);
}

/// Reading back the big-endian bytes of `x` gives `x`.
pub proof fn lemma_be_u64(x: u64, b: Seq<u8>, at: int)
    requires
        0 <= at,
        at + 8 <= b.len(),
        b.subrange(at, at + 8) == be_u64_bytes(x),
    ensures
        be_u64_at(b, at) == x,
{
    let hi = (x >> 32u64) as u32;
    let lo = x as u32;
    assert((hi >> 24u32) as u8 == (x >> 56u64) as u8 && (hi >> 16u32) as u8 == (x >> 48u64) as u8
        && (hi >> 8u32) as u8 == (x >> 40u64) as u8 && hi as u8 == (x >> 32u64) as u8 && (lo
        >> 24u32) as u8 == (x >> 24u64) as u8 && (lo >> 16u32) as u8 == (x >> 16u64) as u8 && (lo
        >> 8u32) as u8 == (x >> 8u64) as u8 && lo as u8 == x as u8) by (bit_vector)
        requires hi == (x >> 32u64) as u32, lo == x as u32;
    assert(b.subrange(at, at + 4) =~= be_u32_bytes(hi));
    assert(b.subrange(at + 4, at + 8) =~= be_u32_bytes(lo));
    lemma_be_u32(hi, b, at);
    lemma_be_u32(lo, b, at + 4);
    assert((((hi as u64) << 32u64) | (lo as u64)) == x) by (bit_vector)
        requires hi == (x >> 32u64) as u32, lo == x as u32;
}

/// The encoding of counts takes at most 9 bytes per count.
pub proof fn lemma_encode_counts_len(c: Seq<nat>, i: nat, end: nat)
    requires
        i <= end,
    ensures
        encode_counts_from(c, i, end).len() <= 9 * (end - i),
    decreases end - i,
{
    if i < end {
        lemma_zero_run(c, i, end);
        let w = token_width(c, i, end);
        lemma_encode_counts_len(c, i + w, end);
        let v = spec_zig_zag_encode(count_token(c, i, end)) as u64;
        assert(varint_encoding(v).len() == varint_len(v));
        assert(varint_len(v) <= 9);
    }
}

/// The counts `cs` with those of `c` in the slots from `i` to `end`.
pub open spec fn fill_counts(cs: Seq<nat>, c: Seq<nat>, i: nat, end: nat) -> Seq<nat> {
    Seq::new(cs.len(), |j: int| if i <= j < end { c[j] } else { cs[j] })
}

/// Decoding the encoding of counts, from a state that has filled the slots before `i` and left
/// the others at zero, fills the slots up to `end` with those counts.
pub proof fn lemma_decode_encoded_counts(c: Seq<nat>, i: nat, end: nat, st: DecodeState, count_max: nat)
    requires
        i <= end,
        end <= c.len(),
        end <= st.counts.len(),
        st.counts.len() <= u32::MAX,
        st.dest == i,
        forall|j: int| i <= j < end ==> #[trigger] c[j] <= count_max && c[j] <= i64::MAX,
        forall|j: int| i <= j < st.counts.len() ==> #[trigger] st.counts[j] == 0,
    ensures
        decode_counts(encode_counts_from(c, i, end), st, count_max) == Ok::<
            DecodeState,
            DeserializeError,
        >(DecodeState { dest: end, counts: fill_counts(st.counts, c, i, end) }),
    decreases end - i,
{
    if i >= end {
        assert(fill_counts(st.counts, c, i, end) =~= st.counts);
    } else {
        lemma_zero_run(c, i, end);
        let w = token_width(c, i, end);
        let t = count_token(c, i, end);
        assert(i64::MIN <= t <= i64::MAX);
        lemma_zig_zag_decode_encode(t as i64);
        let v = spec_zig_zag_encode(t) as u64;
        let tail = encode_counts_from(c, i + w, end);
        let p = encode_counts_from(c, i, end);
        assert(p == varint_encoding(v) + tail);
        lemma_varint_decode_encoding(v, tail);
        assert(p.skip(varint_len(v) as int) =~= tail);
        let st2 = DecodeState {
            dest: i + w,
            counts: if t > 0 {
                st.counts.update(i as int, t as nat)
            } else {
                st.counts
            },
        };
        assert(apply_token(st, t, count_max) == Ok::<DecodeState, DeserializeError>(st2));
        lemma_decode_encoded_counts(c, i + w, end, st2, count_max);
        assert(fill_counts(st2.counts, c, i + w, end) =~= fill_counts(st.counts, c, i, end));
    }
}

/// Reading back the V2 encoding of a well-formed histogram whose encoded counts fit in an
/// `i64` and in the counter type (at most `count_max`) gives, from the bytes that the encoding
/// starts, the same histogram with its statistics recomputed from its counts, and takes exactly
/// the encoding's bytes.
pub proof fn lemma_v2_roundtrip(h: HistogramView, count_max: nat, rest: Seq<u8>)
    requires
        h.wf(),
        counts_serializable(h),
        forall|i: int| 0 <= i < h.counts.len() ==> #[trigger] h.counts[i] <= count_max,
    ensures
        decode_v2(v2_encoding(h) + rest, count_max) == Ok::<(HistogramView, nat), DeserializeError>(
            (restat(h), v2_encoding(h).len()),
        ),
{
    crate::histogram::lemma_valid_params(h.low, h.high, h.sigfig);
    let end = encoded_slots(h);
    let payload = encoded_counts(h);
    lemma_encode_counts_len(h.counts, 0, end);
    assert(payload.len() <= 9 * 65 * 0x20000);
    let plen = payload.len();
    let header = v2_header(h, plen);
    let b = v2_encoding(h) + rest;
    assert(header.len() == 40);
    assert(b.subrange(0, 4) =~= be_u32_bytes(V2_COOKIE));
    lemma_be_u32(V2_COOKIE, b, 0);
    assert(b.subrange(4, 8) =~= be_u32_bytes(plen as u32));
    lemma_be_u32(plen as u32, b, 4);
    assert(b.subrange(8, 12) =~= be_u32_bytes(0));
    lemma_be_u32(0, b, 8);
    assert(b.subrange(12, 16) =~= be_u32_bytes(h.sigfig as u32));
    lemma_be_u32(h.sigfig as u32, b, 12);
    assert(b.subrange(16, 24) =~= be_u64_bytes(h.low));
    lemma_be_u64(h.low, b, 16);
    assert(b.subrange(24, 32) =~= be_u64_bytes(h.high));
    lemma_be_u64(h.high, b, 24);
    assert(b.subrange(32, 40) =~= be_u64_bytes(V2_UNIT_CONVERSION_RATIO_BITS));
    lemma_be_u64(V2_UNIT_CONVERSION_RATIO_BITS, b, 32);
    assert(b.subrange(40, 40 + plen as int) =~= payload);
    let empty = empty_histogram(h.low, h.high, h.sigfig);
    let st = DecodeState { dest: 0, counts: empty.counts };
    lemma_decode_encoded_counts(h.counts, 0, end, st, count_max);
    assert(fill_counts(empty.counts, h.counts, 0, end) =~= h.counts);
    assert(HistogramView { counts: h.counts, ..empty } == HistogramView {
        max_value: empty.max_value,
        min_non_zero_value: empty.min_non_zero_value,
        total_count: empty.total_count,
        ..h
    });
}

/// Why a histogram could not be serialized.
#[derive(Debug, Clone, Copy, PartialEq, Eq)]
pub enum SerializeError {
    /// A count exceeds `i64::MAX`, the largest that the encoding holds.
    CountNotSerializable,
}

/// The index of the slot of the histogram's largest value.
fn max_value_index<T: Counter>(h: &Histogram<T>) -> (r: usize)
    ensures
        r == h@.index_of(h@.max_value),
        r < h@.counts.len(),
{
    proof {
        use_type_invariant(h);
    }
    let m = h.max();
    proof {
        crate::histogram::lemma_valid_params(h@.low, h@.high, h@.sigfig);
        crate::bucketing::lemma_equivalents_same_slot(
            h@.unit_magnitude,
            h@.sub_bucket_count_magnitude,
            h@.max_value,
        );
    }
    h.index_for(m)
}

/// Encodes the counts of `h`, up to the slot of its largest value, at the start of `buf`, and
/// returns the number of bytes written; fails when one of those counts exceeds `i64::MAX`.
/// `buf` has room for 9 bytes per slot encoded.
pub fn encode_counts<T: Counter>(h: &Histogram<T>, buf: &mut [u8]) -> (r: Result<usize, SerializeError>)
    requires
        old(buf)@.len() >= 9 * encoded_slots(h@),
    ensures
        final(buf)@.len() == old(buf)@.len(),
        counts_serializable(h@) ==> (r matches Ok(n) && n == encoded_counts(h@).len()
            && final(buf)@.subrange(0, n as int) == encoded_counts(h@)),
        !counts_serializable(h@) ==> r == Err::<usize, SerializeError>(
            SerializeError::CountNotSerializable,
        ),
{
    proof {
        use_type_invariant(h);
    }
    let index_limit = max_value_index(h);
    let counts = h.counts();
    let ghost cv = h@.counts;
    let ghost end = encoded_slots(h@);
    let blen = buf.len();
    let mut index: usize = 0;
    let mut bytes_written: usize = 0;
    proof {
        crate::histogram::lemma_valid_params(h@.low, h@.high, h@.sigfig);
        assert(buf@.subrange(0, 0) + encoded_counts(h@) =~= encoded_counts(h@));
    }
    while index <= index_limit
        invariant
            end == index_limit + 1,
            end == encoded_slots(h@),
            cv == h@.counts,
            end <= cv.len(),
            cv.len() <= 65 * 0x20000,
            cv == counts@.map_values(|c: T| c.count_value()),
            blen == buf@.len(),
            buf@.len() == old(buf)@.len(),
            buf@.len() >= 9 * end,
            index <= end,
            bytes_written <= 9 * index,
            forall|j: int| 0 <= j < index ==> #[trigger] cv[j] <= i64::MAX,
            buf@.subrange(0, bytes_written as int) + encode_counts_from(cv, index as nat, end)
                == encoded_counts(h@),
            encoded_counts(h@) == encode_counts_from(cv, 0, end),
        decreases end - index,
    {
        let ghost i0 = index as nat;
        let ghost w0 = bytes_written;
        proof {
            lemma_zero_run(cv, i0, end);
        }
        let count = counts[index].as_u64();
        assert(count == cv[i0 as int]);
        index = index + 1;
        // non-negative tokens are counts, negative ones skip that many zero counts
        let mut zero_count: usize = 0;
        if count == 0 {
            zero_count = 1;
            while index <= index_limit && counts[index].as_u64() == 0
                invariant
                    end == index_limit + 1,
                    end <= cv.len(),
                    cv == counts@.map_values(|c: T| c.count_value()),
                    i0 < end,
                    end <= 65 * 0x20000,
                    cv[i0 as int] == 0,
                    index == i0 + zero_count,
                    1 <= zero_count,
                    index <= end,
                    zero_run(cv, i0, end) == zero_count + zero_run(cv, index as nat, end),
                decreases end - index,
            {
                zero_count = zero_count + 1;
                index = index + 1;
            }
            assert(zero_run(cv, index as nat, end) == 0);
        }
        let token: i64 = if zero_count > 1 {
            -(zero_count as i64)
        } else {
            if count > i64::MAX as u64 {
                assert(cv[i0 as int] > i64::MAX);
                assert(0 <= i0 < encoded_slots(h@));
                return Err(SerializeError::CountNotSerializable);
            }
            count as i64
        };
        assert(token == count_token(cv, i0, end));
        assert(index == i0 + token_width(cv, i0, end));
        let zz = crate::varint::zig_zag_encode(token);
        proof {
            lemma_zig_zag_decode_encode(token);
            assert(varint_len(zz) <= 9);
        }
        let ghost pre = buf@;
        let n = crate::varint::varint_write_at(zz, buf, bytes_written);
        bytes_written = bytes_written + n;
        proof {
            assert(encode_counts_from(cv, i0, end) == varint_encoding(zz) + encode_counts_from(
                cv,
                index as nat,
                end,
            ));
            assert(buf@.subrange(0, bytes_written as int) =~= pre.subrange(0, w0 as int)
                + varint_encoding(zz));
            assert(buf@.subrange(0, bytes_written as int) + encode_counts_from(cv, index as nat, end)
                =~= pre.subrange(0, w0 as int) + encode_counts_from(cv, i0, end));
        }
    }
    Ok(bytes_written)
}

/// Appends the big-endian bytes of `x`.
fn push_be_u32(out: &mut Vec<u8>, x: u32)
    ensures
        final(out)@ == old(out)@ + be_u32_bytes(x),
{
    out.push((x >> 24u32) as u8);
    out.push((x >> 16u32) as u8);
    out.push((x >> 8u32) as u8);
    out.push(x as u8);
    assert(final(out)@ =~= old(out)@ + be_u32_bytes(x));
}

/// Appends the big-endian bytes of `x`.
fn push_be_u64(out: &mut Vec<u8>, x: u64)
    ensures
        final(out)@ == old(out)@ + be_u64_bytes(x),
{
    out.push((x >> 56u64) as u8);
    out.push((x >> 48u64) as u8);
    out.push((x >> 40u64) as u8);
    out.push((x >> 32u64) as u8);
    out.push((x >> 24u64) as u8);
    out.push((x >> 16u64) as u8);
    out.push((x >> 8u64) as u8);
    out.push(x as u8);
    assert(final(out)@ =~= old(out)@ + be_u64_bytes(x));
}

/// The big-endian `u32` in `b` at `at`.
fn read_be_u32(b: &[u8], at: usize) -> (r: u32)
    requires
        at + 4 <= b@.len(),
    ensures
        r == be_u32_at(b@, at as int),
{
    ((b[at] as u32) << 24u32) | ((b[at + 1] as u32) << 16u32) | ((b[at + 2] as u32) << 8u32) | (b[at
        + 3] as u32)
}

/// The big-endian `u64` in `b` at `at`.
fn read_be_u64(b: &[u8], at: usize) -> (r: u64)
    requires
        at + 8 <= b@.len(),
    ensures
        r == be_u64_at(b@, at as int),
{
    let len = b.len();
    assert(at + 8 <= len);
    ((read_be_u32(b, at) as u64) << 32u64) | (read_be_u32(b, at + 4) as u64)
}

/// The payload length that a V2 header announces: `Some` when the bytes hold at least the cookie
/// and the length, and start with the V2 cookie.
pub fn v2_payload_len(header: &[u8]) -> (r: Option<u32>)
    ensures
        r == (if header@.len() >= 8 && be_u32_at(header@, 0) == V2_COOKIE {
            Some(be_u32_at(header@, 4))
        } else {
            None
        }),
{
    if header.len() < 8 {
        return None;
    }
    if read_be_u32(header, 0) != V2_COOKIE {
        return None;
    }
    Some(read_be_u32(header, 4))
}

/// Writes histograms in the V2 encoding: a 40-byte header, then the counts, each as a
/// ZigZag-mapped varint, with runs of zeros as one negative number.
pub struct V2Serializer {
    buf: Vec<u8>,
}

impl V2Serializer {
    /// A serializer.
    pub fn new() -> (r: V2Serializer) {
        V2Serializer { buf: Vec::new() }
    }

    /// The largest number of bytes that `length` encoded counts can take: 9 per count, if that
    /// fits in a `usize`.
    pub fn counts_array_max_encoded_size(length: usize) -> (r: Option<usize>)
        ensures
            9 * length <= usize::MAX ==> r == Some((9 * length) as usize),
            9 * length > usize::MAX ==> r is None,
    {
        length.checked_mul(9)
    }

    /// Appends the V2 encoding of `h` to `writer` and returns its length; fails, leaving
    /// `writer` as it was, when a count to encode exceeds `i64::MAX`.
    pub fn serialize<T: Counter>(&mut self, h: &Histogram<T>, writer: &mut Vec<u8>) -> (r: Result<usize, SerializeError>)
        ensures
            counts_serializable(h@) ==> r == Ok::<usize, SerializeError>(v2_encoding(h@).len() as usize)
                && final(writer)@ == old(writer)@ + v2_encoding(h@),
            !counts_serializable(h@) ==> r == Err::<usize, SerializeError>(
                SerializeError::CountNotSerializable,
            ) && final(writer)@ == old(writer)@,
    {
        proof {
            use_type_invariant(h);
        }
        let index_limit = max_value_index(h);
        proof {
            crate::histogram::lemma_valid_params(h@.low, h@.high, h@.sigfig);
            lemma_encode_counts_len(h@.counts, 0, encoded_slots(h@));
        }
        // at most 65 * 2^17 slots, so 9 bytes per slot fit in a usize
        let max_size = match Self::counts_array_max_encoded_size(index_limit + 1) {
            Some(m) => m,
            None => {
                assert(false);
                0
            },
        };
        self.buf.clear();
        while self.buf.len() < max_size
            invariant
                self.buf@.len() <= max_size,
            decreases max_size - self.buf@.len(),
        {
            self.buf.push(0);
        }
        let counts_len = encode_counts(h, self.buf.as_mut_slice())?;
        let ghost payload = encoded_counts(h@);
        assert(self.buf@.subrange(0, counts_len as int) == payload);
        push_be_u32(writer, V2_COOKIE);
        push_be_u32(writer, counts_len as u32);
        // the normalizing index offset
        push_be_u32(writer, 0);
        push_be_u32(writer, h.significant_value_digits() as u32);
        push_be_u64(writer, h.lowest_discernible_value());
        push_be_u64(writer, h.highest_trackable_value());
        // the integer to double conversion ratio: 1.0
        push_be_u64(writer, V2_UNIT_CONVERSION_RATIO_BITS);
        let ghost with_header = writer@;
        assert(with_header =~= old(writer)@ + v2_header(h@, payload.len()));
        let mut i: usize = 0;
        while i < counts_len
            invariant
                i <= counts_len,
                counts_len <= self.buf@.len(),
                self.buf@.subrange(0, counts_len as int) == payload,
                writer@ == with_header + payload.subrange(0, i as int),
            decreases counts_len - i,
        {
            writer.push(self.buf[i]);
            i = i + 1;
            assert(writer@ =~= with_header + payload.subrange(0, i as int));
        }
        assert(payload.subrange(0, counts_len as int) =~= payload);
        Ok(V2_HEADER_SIZE + counts_len)
    }
}

/// Reads histograms in the V2 encoding.
pub struct Deserializer {}

impl Deserializer {
    /// A deserializer.
    pub fn new() -> (r: Deserializer) {
        Deserializer {}
    }

    /// Reads a V2 encoded histogram with counters of type `T` from `reader`. On success the
    /// reader has moved past exactly the histogram's bytes; on failure it has not moved.
    #[verifier::loop_isolation(false)]
    pub fn deserialize<T: Counter>(&mut self, reader: &mut ByteCursor) -> (r: Result<Histogram<T>, DeserializeError>)
        ensures
            final(reader).wf(),
            final(reader).data() == old(reader).data(),
            match decode_v2(old(reader).remaining(), T::count_max()) {
                Ok((hv, n)) => r matches Ok(h) && h.wf() && h@ == hv && final(reader).pos() == old(
                    reader,
                ).pos() + n,
                Err(e) => r == Err::<Histogram<T>, DeserializeError>(e) && final(reader).pos() == old(
                    reader,
                ).pos(),
            },
    {
        proof {
            use_type_invariant(&*reader);
        }
        let ghost b = reader.remaining();
        let bytes = reader.bytes().as_slice();
        let start = reader.index();
        let avail = bytes.len() - start;
        if avail < 4 {
            return Err(DeserializeError::UnexpectedEof);
        }
        let cookie = read_be_u32(bytes, start);
        assert(cookie == be_u32_at(b, 0));
        if cookie != V2_COOKIE {
            return Err(DeserializeError::InvalidCookie);
        }
        if avail < 12 {
            return Err(DeserializeError::UnexpectedEof);
        }
        let payload_len = read_be_u32(bytes, start + 4);
        let normalizing_offset = read_be_u32(bytes, start + 8);
        assert(payload_len == be_u32_at(b, 4));
        assert(normalizing_offset == be_u32_at(b, 8));
        if normalizing_offset != 0 {
            return Err(DeserializeError::UnsupportedFeature);
        }
        if avail < 16 {
            return Err(DeserializeError::UnexpectedEof);
        }
        let num_digits = read_be_u32(bytes, start + 12);
        assert(num_digits == be_u32_at(b, 12));
        if num_digits > 255 {
            return Err(DeserializeError::InvalidParameters);
        }
        if avail < 40 {
            return Err(DeserializeError::UnexpectedEof);
        }
        let low = read_be_u64(bytes, start + 16);
        let high = read_be_u64(bytes, start + 24);
        let ratio = read_be_u64(bytes, start + 32);
        assert(low == be_u64_at(b, 16));
        assert(high == be_u64_at(b, 24));
        assert(ratio == be_u64_at(b, 32));
        if ratio != V2_UNIT_CONVERSION_RATIO_BITS {
            return Err(DeserializeError::UnsupportedFeature);
        }
        let h: Histogram<T> = match Histogram::new_with_bounds(low, high, num_digits as u8) {
            Ok(h) => h,
            Err(_) => {
                return Err(DeserializeError::InvalidParameters);
            },
        };
        if avail - 40 < payload_len as usize {
            return Err(DeserializeError::UnexpectedEof);
        }
        let ghost empty = empty_histogram(low, high, num_digits as nat);
        proof {
            crate::histogram::lemma_valid_params(low, high, num_digits as nat);
        }
        let n = h.counts().len();
        let mut counts: Vec<T> = Vec::new();
        while counts.len() < n
            invariant
                counts@.len() <= n,
                forall|i: int| 0 <= i < counts@.len() ==> (#[trigger] counts@[i]).count_value() == 0,
            decreases n - counts@.len(),
        {
            counts.push(T::zero());
        }
        assert(counts@.map_values(|c: T| c.count_value()) =~= empty.counts);
        let pstart = start + 40;
        let pend = pstart + payload_len as usize;
        let ghost payload = b.subrange(40, 40 + payload_len as int);
        assert(payload =~= bytes@.subrange(pstart as int, pend as int));
        let ghost init = DecodeState { dest: 0, counts: empty.counts };
        let mut pos = pstart;
        let mut dest: usize = 0;
        while pos < pend
            invariant
                pstart <= pos <= pend <= bytes@.len(),
                counts@.len() == n,
                decode_counts(payload, init, T::count_max()) == decode_counts(
                    bytes@.subrange(pos as int, pend as int),
                    DecodeState { dest: dest as nat, counts: counts@.map_values(|c: T| c.count_value()) },
                    T::count_max(),
                ),
            decreases pend - pos,
        {
            let ghost p = bytes@.subrange(pos as int, pend as int);
            let ghost st = DecodeState {
                dest: dest as nat,
                counts: counts@.map_values(|c: T| c.count_value()),
            };
            let (zz, k) = match crate::varint::varint_read_slice(bytes, pos, pend) {
                Some(r) => r,
                None => {
                    return Err(DeserializeError::UnexpectedEof);
                },
            };
            proof {
                lemma_varint_decode_progress(p, 0, 0);
            }
            let t = crate::varint::zig_zag_decode(zz);
            let ghost d0 = dest;
            let ghost counts0 = counts@;
            if t < 0 {
                let zero_count: u64 = (-(t + 1)) as u64 + 1;
                if zero_count > (usize::MAX - dest) as u64 {
                    return Err(DeserializeError::UsizeTypeTooSmall);
                }
                dest = dest + zero_count as usize;
            } else {
                let c = match T::from_u64(t as u64) {
                    Some(c) => c,
                    None => {
                        return Err(DeserializeError::UnsuitableCounterType);
                    },
                };
                if t > 0 {
                    if dest >= counts.len() {
                        return Err(DeserializeError::EncodedArrayTooLong);
                    }
                    counts.set(dest, c);
                    assert(counts@.map_values(|c: T| c.count_value()) =~= st.counts.update(
                        d0 as int,
                        t as nat,
                    ));
                } else {
                    assert(counts@ == counts0);
                }
                if dest == usize::MAX {
                    return Err(DeserializeError::UsizeTypeTooSmall);
                }
                dest = dest + 1;
            }
            proof {
                let st2 = DecodeState {
                    dest: dest as nat,
                    counts: counts@.map_values(|c: T| c.count_value()),
                };
                assert(apply_token(st, t as int, T::count_max()) == Ok::<DecodeState, DeserializeError>(st2));
                assert(p.skip(k as int) =~= bytes@.subrange(pos + k, pend as int));
            }
            pos = pos + k;
        }
        let r = h.with_counts(counts);
        reader.advance(40 + payload_len as usize);
        Ok(r)
    }
}

/// What a histogram read back from the V2 encoding of `written` keeps of it: the layout and the
/// counts, the largest value up to its slot's highest equivalent, the smallest non-zero value
/// down to its slot's lowest equivalent, and the total.
pub open spec fn deserialized_matches(written: HistogramView, read: HistogramView) -> bool {
    let u = written.unit_magnitude;
    let s = written.sub_bucket_count_magnitude;
    &&& written.same_layout(read)
    &&& crate::bucketing::highest_equivalent_of(u, s, written.max_value) == read.max_value
    &&& crate::bucketing::lowest_equivalent_of(u, s, written.min_non_zero_value)
        == read.min_non_zero_value
    &&& written.total_count == read.total_count
    &&& written.counts == read.counts
}

/// `deser` holds what a histogram read back from the encoding of `orig` should: the same
/// layout, counts and total, and the largest and smallest non-zero values as the slot bounds of
/// those of `orig`. Callers prove this; at run time nothing is left to check.
pub fn assert_deserialized_histogram_matches_orig<T: Counter>(orig: Histogram<T>, deser: Histogram<T>)
    requires
        deserialized_matches(orig@, deser@),
{
}

/// Whether `deser` holds what a histogram read back from the encoding of `orig` should: the
/// same layout, counts and total, and the largest and smallest non-zero values as the slot
/// bounds of those of `orig`.
pub fn deserialized_histogram_matches<T: Counter>(orig: &Histogram<T>, deser: &Histogram<T>) -> (r: bool)
    ensures
        r == deserialized_matches(orig@, deser@),
{
    proof {
        use_type_invariant(orig);
        use_type_invariant(deser);
    }
    let same_params = orig.highest_trackable_value() == deser.highest_trackable_value()
        && orig.lowest_discernible_value() == deser.lowest_discernible_value()
        && orig.significant_value_digits() == deser.significant_value_digits()
        && orig.bucket_count() == deser.bucket_count()
        && orig.sub_bucket_half_count_magnitude() == deser.sub_bucket_half_count_magnitude()
        && orig.unit_magnitude() == deser.unit_magnitude();
    let same_derived = orig.sub_bucket_count() == deser.sub_bucket_count()
        && orig.sub_bucket_half_count() == deser.sub_bucket_half_count()
        && orig.sub_bucket_mask() == deser.sub_bucket_mask()
        && orig.leading_zero_count_base() == deser.leading_zero_count_base()
        && orig.unit_magnitude_mask() == deser.unit_magnitude_mask();
    let same_stats = orig.highest_equivalent(orig.max_value()) == deser.max_value()
        && orig.lowest_equivalent(orig.min_non_zero_value()) == deser.min_non_zero_value()
        && orig.total_count() == deser.total_count();
    let a = orig.counts();
    let b = deser.counts();
    let mut same_counts = a.len() == b.len();
    if same_counts {
        let mut i: usize = 0;
        while i < a.len()
            invariant
                a@.len() == b@.len(),
                i <= a@.len(),
                a@.map_values(|c: T| c.count_value()) == orig@.counts,
                b@.map_values(|c: T| c.count_value()) == deser@.counts,
                same_counts == (forall|j: int| 0 <= j < i ==> #[trigger] orig@.counts[j] == deser@.counts[j]),
            decreases a@.len() - i,
        {
            let ghost i0 = i as int;
            let x = a[i].as_u64();
            let y = b[i].as_u64();
            assert(x == orig@.counts[i0] && y == deser@.counts[i0]);
            if x != y {
                same_counts = false;
            }
            i = i + 1;
            proof {
                if same_counts {
                    assert forall|j: int| 0 <= j < i implies #[trigger] orig@.counts[j]
                        == deser@.counts[j] by {
                        if j < i0 {
                        }
                    }
                }
            }
        }
        proof {
            if same_counts {
                assert(orig@.counts =~= deser@.counts);
            }
        }
    }
    same_params && same_derived && same_stats && same_counts
}

/// Recomputing the statistics of a histogram whose statistics agree with its counts, whose
/// largest value is below `u64::MAX` and which counts some value past slot 0, gives its largest
/// value's highest equivalent, its smallest non-zero value's lowest equivalent and its total.
pub proof fn lemma_restat_of_consistent(h: HistogramView)
    requires
        h.wf(),
        stats_consistent(h),
        h.max_value < u64::MAX,
        first_nonzero_below(h.counts, h.counts.len()) is Some,
    ensures
        deserialized_matches(h, restat(h)),
{
    crate::histogram::lemma_valid_params(h.low, h.high, h.sigfig);
    let u = h.unit_magnitude;
    let s = h.sub_bucket_count_magnitude;
    let n = h.counts.len();
    crate::histogram::lemma_last_nonzero(h.counts, n);
    crate::histogram::lemma_first_nonzero(h.counts, n);
    if last_nonzero_below(h.counts, n) is None {
        let f = first_nonzero_below(h.counts, n)->0;
        assert(h.counts[f as int] != 0);
        assert(false);
    }
    crate::bucketing::lemma_value_at_index_of_value(u, s, h.max_value);
    crate::bucketing::lemma_equivalents_same_slot(u, s, h.max_value);
    crate::bucketing::lemma_value_at_index_of_value(u, s, h.min_non_zero_value);
}

/// What a read gives back of a write: the V2 encoding of a well-formed histogram whose
/// statistics agree with its counts, whose encoded counts fit in an `i64` and in the counter
/// type (at most `count_max`), whose largest value is below `u64::MAX` and which counts some
/// value past slot 0, reads back (from the bytes that it starts) as a histogram with the same
/// layout, counts and total, and with its largest and smallest non-zero values' slot bounds.
pub proof fn lemma_v2_roundtrip_matches(h: HistogramView, count_max: nat, rest: Seq<u8>)
    requires
        h.wf(),
        stats_consistent(h),
        counts_serializable(h),
        forall|i: int| 0 <= i < h.counts.len() ==> #[trigger] h.counts[i] <= count_max,
        h.max_value < u64::MAX,
        first_nonzero_below(h.counts, h.counts.len()) is Some,
    ensures
        decode_v2(v2_encoding(h) + rest, count_max) matches Ok((h2, n)) && n == v2_encoding(h).len()
            && deserialized_matches(h, h2),
{
    lemma_v2_roundtrip(h, count_max, rest);
    lemma_restat_of_consistent(h);
}

/// A histogram can be encoded exactly when none of its counts up to the slot of its largest
/// value reaches 2^63, the first count that an `i64` cannot hold.
pub proof fn lemma_counts_serializable(h: HistogramView)
    ensures
        counts_serializable(h) <==> !(exists|i: int|
            0 <= i <= h.index_of(h.max_value) && #[trigger] h.counts[i] >= 0x8000_0000_0000_0000),
{
}

/// Reading back the V2 encoding of a well-formed histogram whose encoded counts fit in an `i64`
/// and in the counter type gives, whatever its counts (those of slot 0 alone included), a total
/// equal to the sum of its counts held at `u64::MAX`, so to its own total when that agrees with
/// its counts.
pub proof fn lemma_v2_roundtrip_total(h: HistogramView, count_max: nat, rest: Seq<u8>)
    requires
        h.wf(),
        counts_serializable(h),
        forall|i: int| 0 <= i < h.counts.len() ==> #[trigger] h.counts[i] <= count_max,
    ensures
        decode_v2(v2_encoding(h) + rest, count_max) matches Ok((h2, n)) && h2.counts == h.counts
            && h2.total_count == (if crate::histogram::count_sum(h.counts, h.counts.len())
            <= u64::MAX {
            crate::histogram::count_sum(h.counts, h.counts.len())
        } else {
            u64::MAX as nat
        }) && (stats_consistent(h) ==> h2.total_count == h.total_count),
{
    lemma_v2_roundtrip(h, count_max, rest);
    crate::histogram::lemma_restat_stats(h);
}

/// The encoding of counts from `i` on starts with one varint that, ZigZag-decoded, is the count
/// at `i` when it is not zero, 0 for a lone zero, and minus the length of a longer run of zeros;
/// the bytes after that varint encode the counts after that count or run.
pub proof fn lemma_encode_counts_first_token(c: Seq<nat>, i: nat, end: nat)
    requires
        i < end <= c.len(),
        end <= i64::MAX,
        c[i as int] <= i64::MAX,
    ensures
        ({
            let p = encode_counts_from(c, i, end);
            let z = zero_run(c, i, end);
            let next = if c[i as int] != 0 {
                i + 1
            } else {
                i + z
            };
            &&& c[i as int] == 0 ==> 1 <= z && i + z <= end && (forall|j: int|
                i <= j < i + z ==> #[trigger] c[j] == 0) && (i + z < end ==> c[(i + z) as int] != 0)
            &&& varint_decode(p) matches Some((v, n)) && spec_zig_zag_decode(v as int) == (if c[i as int]
                != 0 {
                c[i as int] as int
            } else if z == 1 {
                0
            } else {
                -(z as int)
            }) && p.skip(n as int) == encode_counts_from(c, next, end)
        }),
{
    lemma_zero_run(c, i, end);
    let t = count_token(c, i, end);
    assert(i64::MIN <= t <= i64::MAX);
    lemma_zig_zag_decode_encode(t as i64);
    let v = spec_zig_zag_encode(t) as u64;
    let w = token_width(c, i, end);
    let tail = encode_counts_from(c, i + w, end);
    let p = encode_counts_from(c, i, end);
    assert(p == varint_encoding(v) + tail);
    lemma_varint_decode_encoding(v, tail);
    assert(p.skip(varint_len(v) as int) =~= tail);
}

} // verus!
