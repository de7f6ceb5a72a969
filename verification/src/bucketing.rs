use vstd::prelude::*;
use vstd::arithmetic::power2::{pow2, lemma_pow2_unfold, lemma_pow2_pos};
use vstd::arithmetic::div_mod::lemma_fundamental_div_mod_converse;
use vstd::bits::{lemma_u64_shl_is_mul, lemma_u64_pow2_no_overflow};
use vstd::std_specs::bits::{u64_leading_zeros, axiom_u64_leading_zeros};

verus! {

// The layout of a histogram's counts. With unit magnitude `u` and sub-bucket count magnitude
// `s`, bucket 0 holds the values below 2^(u+s) in 2^s sub-buckets of width 2^u; bucket `b > 0`
// holds the values in [2^(u+s+b-1), 2^(u+s+b)) in its upper 2^(s-1) sub-buckets, each of width
// 2^(u+b). A value's index in the counts is `b * 2^(s-1) + sub`, where `sub` is the value
// shifted right by `u + b`.

/// `floor(log2(x))`, and 0 for `x < 2`.
pub open spec fn log2_floor(x: nat) -> nat
    decreases x,
{
    if x < 2 {
        0
    } else {
        1 + log2_floor(x / 2)
    }
}

/// `ceil(log2(x))`, and 0 for `x < 2`.
pub open spec fn log2_ceil(x: nat) -> nat
    decreases x,
{
    if x < 2 {
        0
    } else {
        1 + log2_ceil(((x + 1) / 2) as nat)
    }
}

/// `10^n`.
pub open spec fn pow10(n: nat) -> nat
    decreases n,
{
    if n == 0 {
        1
    } else {
        10 * pow10((n - 1) as nat)
    }
}

/// The least `b` such that `v < 2^(k+b)` (with `2^64` bounding every `u64`).
pub open spec fn bucket_from(v: u64, k: nat) -> nat
    decreases 64 - k,
{
    if k >= 64 || v >> (k as u64) == 0 {
        0
    } else {
        1 + bucket_from(v, k + 1)
    }
}

/// The bucket that holds `v`.
pub open spec fn bucket_of(u: nat, s: nat, v: u64) -> nat {
    bucket_from(v, u + s)
}

/// The sub-bucket, within its bucket, that holds `v`.
pub open spec fn sub_bucket_of(u: nat, s: nat, v: u64) -> nat {
    (v >> ((bucket_of(u, s, v) + u) as u64)) as nat
}

/// The index in the counts of the slot that counts `v`.
pub open spec fn index_of_value(u: nat, s: nat, v: u64) -> nat {
    bucket_of(u, s, v) * pow2((s - 1) as nat) + sub_bucket_of(u, s, v)
}

/// The smallest value that shares `v`'s slot: `v` with the bits below its slot width cleared.
pub open spec fn lowest_equivalent_of(u: nat, s: nat, v: u64) -> u64 {
    let k = (bucket_of(u, s, v) + u) as u64;
    (v >> k) << k
}

/// The largest value that shares `v`'s slot (`u64::MAX` for itself, and one less than the next
/// slot's start where that start does not fit in a `u64`).
pub open spec fn highest_equivalent_of(u: nat, s: nat, v: u64) -> u64 {
    if v == u64::MAX {
        u64::MAX
    } else {
        let k = (bucket_of(u, s, v) + u) as u64;
        let low = lowest_equivalent_of(u, s, v);
        if low + (1u64 << k) > u64::MAX {
            (u64::MAX - 1) as u64
        } else {
            (low + (1u64 << k) - 1) as u64
        }
    }
}

/// The value at the start of the slot at `index`.
pub open spec fn value_at_index(u: nat, s: nat, index: nat) -> u64 {
    let h = pow2((s - 1) as nat);
    let q = index / h;
    let r = index % h;
    if q == 0 {
        (r as u64) << (u as u64)
    } else {
        ((r + h) as u64) << ((q - 1 + u) as u64)
    }
}

/// The shape of the layout: at least one sub-bucket magnitude, and room for the largest
/// sub-bucket of bucket 0 in a `u64`.
pub open spec fn layout_ok(u: nat, s: nat) -> bool {
    1 <= s <= 18 && u + s <= 63
}

pub proof fn lemma_shr_zero_mono(v: u64, a: u64, c: u64)
    requires
        a <= c < 64,
        v >> a == 0,
    ensures
        v >> c == 0,
{
    assert(v >> a == 0 && a <= c && c < 64 ==> v >> c == 0) by (bit_vector);
}

/// What `bucket_from` computes: `v` fits below bit `k + b`, and (for `b > 0`) not below the
/// bit before it.
pub proof fn lemma_bucket_from_char(v: u64, k: nat)
    requires
        k <= 64,
    ensures
        k + bucket_from(v, k) <= 64,
        k + bucket_from(v, k) < 64 ==> v >> ((k + bucket_from(v, k)) as u64) == 0,
        bucket_from(v, k) > 0 ==> v >> ((k + bucket_from(v, k) - 1) as u64) != 0,
    decreases 64 - k,
{
    if k >= 64 || v >> (k as u64) == 0 {
    } else {
        lemma_bucket_from_char(v, k + 1);
    }
}

/// `bucket_from` is the only `b` with those two properties.
pub proof fn lemma_bucket_from_unique(v: u64, k: nat, b: nat)
    requires
        k + b <= 64,
        k + b < 64 ==> v >> ((k + b) as u64) == 0,
        b > 0 ==> v >> ((k + b - 1) as u64) != 0,
    ensures
        bucket_from(v, k) == b,
{
    lemma_bucket_from_char(v, k);
    let c = bucket_from(v, k);
    if c < b {
        // v fits below bit k + c, so it fits below bit k + b - 1 too
        lemma_shr_zero_mono(v, (k + c) as u64, (k + b - 1) as u64);
    } else if c > b {
        lemma_shr_zero_mono(v, (k + b) as u64, (k + c - 1) as u64);
    }
}

/// The mask of the sub-bucket bits of bucket 0: `s` ones shifted left by `u`.
pub open spec fn sub_bucket_mask_of(u: nat, s: nat) -> u64 {
    (((1u64 << (s as u64)) - 1) as u64) << (u as u64)
}

/// The bucket of `v` is the number of leading zeros that the largest value of bucket 0 has,
/// less those of `v` with the mask's bits set.
pub proof fn lemma_bucket_by_leading_zeros(v: u64, u: nat, s: nat)
    requires
        layout_ok(u, s),
    ensures
        u64_leading_zeros(v | sub_bucket_mask_of(u, s)) <= 64 - u - s,
        64 - u - s - u64_leading_zeros(v | sub_bucket_mask_of(u, s)) == bucket_of(u, s, v),
{
    let uu = u as u64;
    let ss = s as u64;
    let m = sub_bucket_mask_of(u, s);
    let x = v | m;
    axiom_u64_leading_zeros(x);
    let z = u64_leading_zeros(x);
    assert((x >> ((uu + ss - 1) as u64)) & 1u64 != 0) by (bit_vector)
        requires
            1 <= ss <= 18,
            uu + ss <= 63,
            x == v | ((((1u64 << ss) - 1) as u64) << uu),
    ;
    assert(x != 0) by (bit_vector)
        requires (x >> ((uu + ss - 1) as u64)) & 1u64 != 0;
    let zz = z as u64;
    assert(z < 64);
    if 64 - z <= u + s - 1 {
        lemma_shr_zero_mono(x, (64 - zz) as u64, (uu + ss - 1) as u64);
        assert((x >> ((uu + ss - 1) as u64)) & 1u64 == 0) by (bit_vector)
            requires x >> ((uu + ss - 1) as u64) == 0;
    }
    let b: nat = (64 - u - s - z) as nat;
    if z > 0 {
        assert(x >> ((64 - zz) as u64) == 0);
        assert(v >> ((64 - zz) as u64) == 0) by (bit_vector)
            requires
                x == v | ((((1u64 << ss) - 1) as u64) << uu),
                x >> ((64 - zz) as u64) == 0,
        ;
        assert((u + s + b) as u64 == (64 - zz) as u64);
    }
    if b > 0 {
        let j = (63 - zz) as u64;
        assert((x >> j) & 1u64 != 0);
        assert(v >> j != 0) by (bit_vector)
            requires
                1 <= ss <= 18,
                uu + ss <= 63,
                uu + ss <= j < 64,
                x == v | ((((1u64 << ss) - 1) as u64) << uu),
                (x >> j) & 1u64 != 0,
        ;
        assert((u + s + b - 1) as u64 == j);
    }
    lemma_bucket_from_unique(v, u + s, b);
}

pub proof fn lemma_pow2_shl(n: nat)
    requires
        n < 64,
    ensures
        (1u64 << (n as u64)) == pow2(n),
        0 < pow2(n) <= u64::MAX,
{
    lemma_u64_pow2_no_overflow(n);
    lemma_u64_shl_is_mul(1u64, n as u64);
}

/// Where a value's sub-bucket lies: below `2^s`, and in the upper half past bucket 0; and the
/// slot width stays within 64 bits.
pub proof fn lemma_sub_bucket_bounds(u: nat, s: nat, v: u64)
    requires
        layout_ok(u, s),
    ensures
        bucket_of(u, s, v) + u + s <= 64,
        sub_bucket_of(u, s, v) < pow2(s),
        bucket_of(u, s, v) > 0 ==> sub_bucket_of(u, s, v) >= pow2((s - 1) as nat),
        pow2(s) == 2 * pow2((s - 1) as nat),
        index_of_value(u, s, v) < (bucket_of(u, s, v) + 2) * pow2((s - 1) as nat),
        bucket_of(u, s, v) > 0 ==> index_of_value(u, s, v) >= (bucket_of(u, s, v) + 1) * pow2(
            (s - 1) as nat,
        ),
{
    lemma_bucket_from_char(v, u + s);
    let b = bucket_of(u, s, v);
    let k = (b + u) as u64;
    let ss = s as u64;
    lemma_pow2_shl(s);
    lemma_pow2_shl((s - 1) as nat);
    lemma_pow2_unfold(s);
    if u + s + b < 64 {
        assert(v >> ((u + s + b) as u64) == 0);
        assert((k + ss) as u64 == (u + s + b) as u64);
        assert(v >> k < (1u64 << ss)) by (bit_vector)
            requires k + ss < 64, v >> ((k + ss) as u64) == 0;
    } else {
        assert(k == (64 - ss) as u64);
        assert(v >> k < (1u64 << ss)) by (bit_vector)
            requires 1 <= ss <= 18, k == (64 - ss) as u64;
    }
    if b > 0 {
        assert(v >> ((u + s + b - 1) as u64) != 0);
        assert((k + ss - 1) as u64 == (u + s + b - 1) as u64);
        assert(v >> k >= (1u64 << ((ss - 1) as u64))) by (bit_vector)
            requires 1 <= ss, k + ss - 1 < 64, v >> ((k + ss - 1) as u64) != 0;
    }
    let h = pow2((s - 1) as nat);
    let sub = sub_bucket_of(u, s, v);
    assert(b * h + sub < (b + 2) * h) by (nonlinear_arith)
        requires sub < 2 * h;
    if b > 0 {
        assert(b * h + sub >= (b + 1) * h) by (nonlinear_arith)
            requires sub >= h;
    }
}

/// Two values agreeing on all bits from the start of the first one's slot width share its
/// bucket, sub-bucket and index.
pub proof fn lemma_same_slot(u: nat, s: nat, a: u64, c: u64)
    requires
        layout_ok(u, s),
        a >> ((bucket_of(u, s, a) + u) as u64) == c >> ((bucket_of(u, s, a) + u) as u64),
    ensures
        bucket_of(u, s, c) == bucket_of(u, s, a),
        sub_bucket_of(u, s, c) == sub_bucket_of(u, s, a),
        index_of_value(u, s, c) == index_of_value(u, s, a),
{
    lemma_bucket_from_char(a, u + s);
    let b = bucket_of(u, s, a);
    let k = (b + u) as u64;
    let ss = s as u64;
    if u + s + b < 64 {
        assert((k + ss) as u64 == (u + s + b) as u64);
        assert(c >> ((k + ss) as u64) == 0) by (bit_vector)
            requires
                k + ss < 64,
                a >> k == c >> k,
                a >> ((k + ss) as u64) == 0,
        ;
    }
    if b > 0 {
        assert((k + ss - 1) as u64 == (u + s + b - 1) as u64);
        assert(c >> ((k + ss - 1) as u64) != 0) by (bit_vector)
            requires
                1 <= ss,
                k + ss - 1 < 64,
                a >> k == c >> k,
                a >> ((k + ss - 1) as u64) != 0,
        ;
    }
    lemma_bucket_from_unique(c, u + s, b);
}

/// Larger values never sit at smaller indices.
pub proof fn lemma_index_monotone(u: nat, s: nat, v1: u64, v2: u64)
    requires
        layout_ok(u, s),
        v1 <= v2,
    ensures
        bucket_of(u, s, v1) <= bucket_of(u, s, v2),
        index_of_value(u, s, v1) <= index_of_value(u, s, v2),
{
    lemma_bucket_from_char(v1, u + s);
    lemma_bucket_from_char(v2, u + s);
    lemma_sub_bucket_bounds(u, s, v1);
    lemma_sub_bucket_bounds(u, s, v2);
    let b1 = bucket_of(u, s, v1);
    let b2 = bucket_of(u, s, v2);
    let k = u + s;
    if b1 > b2 {
        let j = (k + b1 - 1) as u64;
        lemma_shr_zero_mono(v2, (k + b2) as u64, j);
        assert(v1 >> j <= v2 >> j) by (bit_vector)
            requires v1 <= v2;
        assert(false);
    }
    let h = pow2((s - 1) as nat);
    if b1 < b2 {
        assert((b1 + 2) * h <= (b2 + 1) * h) by (nonlinear_arith)
            requires b1 + 1 <= b2, h >= 0;
    } else {
        let kk = (b1 + u) as u64;
        assert(v1 >> kk <= v2 >> kk) by (bit_vector)
            requires v1 <= v2;
    }
}

/// The start of the slot that counts `v` is `v`'s lowest equivalent.
pub proof fn lemma_value_at_index_of_value(u: nat, s: nat, v: u64)
    requires
        layout_ok(u, s),
    ensures
        value_at_index(u, s, index_of_value(u, s, v)) == lowest_equivalent_of(u, s, v),
{
    lemma_sub_bucket_bounds(u, s, v);
    let b = bucket_of(u, s, v);
    let sub = sub_bucket_of(u, s, v);
    let h = pow2((s - 1) as nat);
    let i = index_of_value(u, s, v);
    lemma_pow2_pos((s - 1) as nat);
    let k = (b + u) as u64;
    assert(sub as u64 == v >> k);
    if b == 0 {
        if sub < h {
            lemma_fundamental_div_mod_converse(i as int, h as int, 0, sub as int);
        } else {
            lemma_fundamental_div_mod_converse(i as int, h as int, 1, (sub - h) as int);
        }
    } else {
        assert(i == (b + 1) * h + (sub - h)) by (nonlinear_arith)
            requires i == b * h + sub, sub >= h;
        lemma_fundamental_div_mod_converse(i as int, h as int, (b + 1) as int, (sub - h) as int);
    }
}

/// A value's lowest and highest equivalents share its slot, and its lowest equivalent has the
/// same equivalents as the value itself (but for `u64::MAX`, which is its own highest).
pub proof fn lemma_equivalents_same_slot(u: nat, s: nat, v: u64)
    requires
        layout_ok(u, s),
    ensures
        index_of_value(u, s, lowest_equivalent_of(u, s, v)) == index_of_value(u, s, v),
        lowest_equivalent_of(u, s, lowest_equivalent_of(u, s, v)) == lowest_equivalent_of(u, s, v),
        lowest_equivalent_of(u, s, v) <= v <= highest_equivalent_of(u, s, v),
        index_of_value(u, s, highest_equivalent_of(u, s, v)) == index_of_value(u, s, v),
        v != u64::MAX ==> highest_equivalent_of(u, s, lowest_equivalent_of(u, s, v))
            == highest_equivalent_of(u, s, v),
{
    lemma_sub_bucket_bounds(u, s, v);
    let b = bucket_of(u, s, v);
    let k = (b + u) as u64;
    assert(k < 64);
    let low = lowest_equivalent_of(u, s, v);
    assert(low >> k == v >> k) by (bit_vector)
        requires k < 64, low == (v >> k) << k;
    assert(low <= v) by (bit_vector)
        requires k < 64, low == (v >> k) << k;
    lemma_same_slot(u, s, v, low);
    assert((low >> k) << k == low) by (bit_vector)
        requires k < 64, low == (v >> k) << k;
    let high = highest_equivalent_of(u, s, v);
    if v == u64::MAX {
        assert(high == v);
    } else {
        assert(high >> k == v >> k && v <= high) by (bit_vector)
            requires
                k < 64,
                v != 0xffff_ffff_ffff_ffffu64,
                low == (v >> k) << k,
                high == (if low + (1u64 << k) > 0xffff_ffff_ffff_ffffu64 {
                    (0xffff_ffff_ffff_ffffu64 - 1) as u64
                } else {
                    (low + (1u64 << k) - 1) as u64
                }),
        ;
        assert(low != u64::MAX) by (bit_vector)
            requires
                k < 64,
                v != 0xffff_ffff_ffff_ffffu64,
                low == (v >> k) << k,
        ;
    }
    lemma_same_slot(u, s, v, high);
}

/// Every index of a layout with at most `65 - u - s` buckets names the slot of the value at its
/// start, and that value is its own lowest equivalent.
pub proof fn lemma_index_roundtrip(u: nat, s: nat, bucket_count: nat, i: nat)
    requires
        layout_ok(u, s),
        1 <= bucket_count,
        bucket_count + u + s <= 65,
        i < (bucket_count + 1) * pow2((s - 1) as nat),
    ensures
        index_of_value(u, s, value_at_index(u, s, i)) == i,
        lowest_equivalent_of(u, s, value_at_index(u, s, i)) == value_at_index(u, s, i),
{
    let h = pow2((s - 1) as nat);
    lemma_pow2_pos((s - 1) as nat);
    lemma_pow2_shl((s - 1) as nat);
    lemma_pow2_shl(s);
    lemma_pow2_unfold(s);
    let q = i / h;
    let r = i % h;
    vstd::arithmetic::div_mod::lemma_fundamental_div_mod(i as int, h as int);
    vstd::arithmetic::mul::lemma_mul_is_commutative(h as int, q as int);
    assert(i == q * h + r);
    assert(q <= bucket_count) by (nonlinear_arith)
        requires i < (bucket_count + 1) * h, i == q * h + r, 0 <= r, h > 0;
    let ss = s as u64;
    let hh = h as u64;
    assert(hh == 1u64 << ((ss - 1) as u64));
    let v = value_at_index(u, s, i);
    // the bucket and sub-bucket that the index names
    let b: nat = if q == 0 { 0 } else { (q - 1) as nat };
    let sub: nat = if q == 0 { r } else { r + h };
    let k = (b + u) as u64;
    assert(v == (sub as u64) << k);
    assert(sub < 2 * h);
    assert(b + u + s <= 64);
    let sb = sub as u64;
    assert(sb < (1u64 << ss));
    assert(v >> k == sb) by (bit_vector)
        requires k + ss <= 64, 1 <= ss, sb < (1u64 << ss), v == sb << k;
    if b + u + s < 64 {
        assert(v >> ((k + ss) as u64) == 0) by (bit_vector)
            requires k + ss < 64, 1 <= ss, sb < (1u64 << ss), v == sb << k;
        assert((u + s + b) as u64 == (k + ss) as u64);
    }
    if b > 0 {
        assert(sb >= hh);
        assert(v >> ((k + ss - 1) as u64) != 0) by (bit_vector)
            requires
                k + ss <= 64,
                1 <= ss,
                sb < (1u64 << ss),
                sb >= (1u64 << ((ss - 1) as u64)),
                v == sb << k,
        ;
        assert((u + s + b - 1) as u64 == (k + ss - 1) as u64);
    }
    lemma_bucket_from_unique(v, u + s, b);
    assert(sub_bucket_of(u, s, v) == sub);
    if q == 0 {
        assert(b * h + sub == i);
    } else {
        assert(b * h + sub == i) by (nonlinear_arith)
            requires i == q * h + r, b + 1 == q, sub == r + h;
    }
    assert((v >> k) << k == v) by (bit_vector)
        requires k + ss <= 64, 1 <= ss, sb < (1u64 << ss), v == sb << k;
}

/// A value's lowest and highest equivalents bound every value counted in the same slot (but
/// `u64::MAX`, which is its own highest equivalent): the lowest equivalent is the smallest value
/// of the slot.
pub proof fn lemma_equivalents_bound_slot(u: nat, s: nat, v: u64, w: u64)
    requires
        layout_ok(u, s),
        index_of_value(u, s, w) == index_of_value(u, s, v),
        w != u64::MAX,
    ensures
        lowest_equivalent_of(u, s, v) <= w <= highest_equivalent_of(u, s, v),
{
    lemma_sub_bucket_bounds(u, s, v);
    lemma_sub_bucket_bounds(u, s, w);
    let bv = bucket_of(u, s, v);
    let bw = bucket_of(u, s, w);
    let h = pow2((s - 1) as nat);
    if bw < bv {
        assert((bw + 2) * h <= (bv + 1) * h) by (nonlinear_arith)
            requires bw + 1 <= bv, h >= 0;
    }
    if bv < bw {
        assert((bv + 2) * h <= (bw + 1) * h) by (nonlinear_arith)
            requires bv + 1 <= bw, h >= 0;
    }
    assert(bw == bv);
    let k = (bv + u) as u64;
    assert(w >> k == v >> k);
    let low = lowest_equivalent_of(u, s, v);
    assert(low <= w && (low + (1u64 << k) <= 0xffff_ffff_ffff_ffffu64 ==> w <= low + (1u64 << k)
        - 1)) by (bit_vector)
        requires k < 64, w >> k == v >> k, low == (v >> k) << k;
}

} // verus!
