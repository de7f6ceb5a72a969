use vstd::prelude::*;

use crate::cursor::{ByteCursor, ReadError};

verus! {

/// The ZigZag mapping from signed to unsigned integers: non-negative `x` goes to `2x`,
/// negative `x` goes to `-2x - 1`, so that numbers of small magnitude stay small.
pub open spec fn spec_zig_zag_encode(x: int) -> int {
    if x >= 0 { 2 * x } else { -2 * x - 1 }
}

/// The inverse of the ZigZag mapping: even `u` goes to `u / 2`, odd `u` to `-(u + 1) / 2`.
pub open spec fn spec_zig_zag_decode(u: int) -> int {
    if u % 2 == 0 { u / 2 } else { -((u + 1) / 2) }
}

/// Maps a signed integer to an unsigned one so that numbers of small magnitude (positive or
/// negative) get small encodings.
pub fn zig_zag_encode(num: i64) -> (r: u64)
    ensures
        r == spec_zig_zag_encode(num as int),
{
    if num >= 0 {
        (num as u64) * 2
    } else {
        let m: i64 = -(num + 1);
        (m as u64) * 2 + 1
    }
}

/// Inverse of `zig_zag_encode`.
pub fn zig_zag_decode(encoded: u64) -> (r: i64)
    ensures
        r == spec_zig_zag_decode(encoded as int),
{
    let half: u64 = encoded / 2;
    if encoded % 2 == 0 {
        half as i64
    } else {
        -(half as i64) - 1
    }
}

/// ZigZag maps `x >= 0` to `2x` and `x < 0` to `-2x - 1`: the usual bit form `(x << 1) ^ (x >> 63)`
/// read as unsigned, so every non-negative number goes to an even one and every negative number
/// to an odd one.
pub proof fn lemma_zig_zag_encode_formula(x: i64)
    ensures
        x >= 0 ==> spec_zig_zag_encode(x as int) == 2 * x,
        x < 0 ==> spec_zig_zag_encode(x as int) == -2 * x - 1,
        spec_zig_zag_encode(x as int) == ((x << 1u64) ^ (x >> 63u64)) as u64,
        spec_zig_zag_encode(x as int) % 2 == (if x >= 0 { 0int } else { 1int }),
{
    let e = (if x >= 0 { (x as u64) * 2 } else { ((-(x + 1)) as u64) * 2 + 1 }) as u64;
    assert(((x << 1u64) ^ (x >> 63u64)) as u64 == e) by (bit_vector)
        requires e == (if x >= 0 { (x as u64) * 2 } else { ((-(x + 1)) as u64) * 2 + 1 }) as u64;
}

/// ZigZag decoding maps an even `u` to `u / 2` and an odd `u` to `-(u + 1) / 2`: the usual bit
/// form `(u >> 1) ^ -(u & 1)`.
pub proof fn lemma_zig_zag_decode_formula(u: u64)
    ensures
        u % 2 == 0 ==> spec_zig_zag_decode(u as int) == u / 2,
        u % 2 == 1 ==> spec_zig_zag_decode(u as int) == -((u as int + 1) / 2),
        spec_zig_zag_decode(u as int) == (((u >> 1u64) as i64) ^ ((-((u & 1u64) as i64)) as i64)) as int,
{
    let d = (if u % 2 == 0 { (u / 2) as i64 } else { (-((u / 2) as i64) - 1) as i64 }) as i64;
    assert((((u >> 1u64) as i64) ^ ((-((u & 1u64) as i64)) as i64)) == d) by (bit_vector)
        requires d == (if u % 2 == 0 { (u / 2) as i64 } else { (-((u / 2) as i64) - 1) as i64 }) as i64;
}

/// Decoding undoes encoding, for every signed 64-bit integer.
pub proof fn lemma_zig_zag_decode_encode(x: i64)
    ensures
        spec_zig_zag_decode(spec_zig_zag_encode(x as int)) == x,
        0 <= spec_zig_zag_encode(x as int) <= u64::MAX,
{
}

/// Encoding undoes decoding, for every unsigned 64-bit integer.
pub proof fn lemma_zig_zag_encode_decode(u: u64)
    ensures
        spec_zig_zag_encode(spec_zig_zag_decode(u as int)) == u,
        i64::MIN <= spec_zig_zag_decode(u as int) <= i64::MAX,
{
}

} // verus!

verus! {

/// The number of bytes in the varint encoding of `v`: one per started group of 7 bits, except
/// that the ninth byte holds the top 8 bits whole.
pub open spec fn varint_len(v: u64) -> nat {
    if v >> 7u64 == 0 {
        1
    } else if v >> 14u64 == 0 {
        2
    } else if v >> 21u64 == 0 {
        3
    } else if v >> 28u64 == 0 {
        4
    } else if v >> 35u64 == 0 {
        5
    } else if v >> 42u64 == 0 {
        6
    } else if v >> 49u64 == 0 {
        7
    } else if v >> 56u64 == 0 {
        8
    } else {
        9
    }
}

/// Byte `i` of the encoding of `v`, whose encoding is `len` bytes long: bytes before the last
/// carry 7 bits of `v` and the continuation bit 0x80; the last byte carries the remaining bits
/// (7 of them, or 8 when it is the ninth byte).
pub open spec fn varint_byte(v: u64, i: nat, len: nat) -> u8 {
    if i + 1 < len {
        (0x80u64 | ((v >> ((7 * i) as u64)) & 0x7fu64)) as u8
    } else if i == 8 {
        (v >> 56u64) as u8
    } else {
        (v >> ((7 * i) as u64)) as u8
    }
}

/// The varint (LEB128 limited to 9 bytes) encoding of `v`, least significant group first.
pub open spec fn varint_encoding(v: u64) -> Seq<u8> {
    Seq::new(varint_len(v), |i: int| varint_byte(v, i as nat, varint_len(v)))
}

/// Decoding of a varint from `bytes`, having read groups `0..i` into `acc`: the value and the
/// number of bytes read, or `None` when the bytes end before the varint does.
pub open spec fn varint_decode_from(bytes: Seq<u8>, i: nat, acc: u64) -> Option<(u64, nat)>
    decreases 9 - i,
{
    if i >= 9 || i >= bytes.len() {
        None
    } else if i == 8 {
        Some((acc | ((bytes[8] as u64) << 56u64), 9))
    } else {
        let b = bytes[i as int];
        let acc2 = acc | (((b & 0x7fu8) as u64) << ((7 * i) as u64));
        if b & 0x80u8 != 0 {
            varint_decode_from(bytes, i + 1, acc2)
        } else {
            Some((acc2, i + 1))
        }
    }
}

/// The varint that `bytes` starts with, and its length in bytes.
pub open spec fn varint_decode(bytes: Seq<u8>) -> Option<(u64, nat)> {
    varint_decode_from(bytes, 0, 0)
}

proof fn lemma_varint_len_facts(v: u64)
    ensures
        1 <= varint_len(v) <= 9,
        varint_len(v) <= 8 ==> v >> ((7 * varint_len(v)) as u64) == 0,
        forall|i: nat| i + 1 < varint_len(v) ==> #[trigger] (v >> ((7 * (i + 1)) as u64)) != 0,
{
    assert forall|i: nat| i + 1 < varint_len(v) implies #[trigger] (v >> ((7 * (i + 1)) as u64)) != 0 by {
        assert((v >> 7u64 == 0 ==> v >> 14u64 == 0) && (v >> 14u64 == 0 ==> v >> 21u64 == 0) && (v
            >> 21u64 == 0 ==> v >> 28u64 == 0) && (v >> 28u64 == 0 ==> v >> 35u64 == 0) && (v
            >> 35u64 == 0 ==> v >> 42u64 == 0) && (v >> 42u64 == 0 ==> v >> 49u64 == 0) && (v
            >> 49u64 == 0 ==> v >> 56u64 == 0)) by (bit_vector);
    }
}

/// Writes the varint encoding of `input` into `buf` from `pos` on and returns its length; the
/// other bytes of `buf` are left as they were.
pub fn varint_write_at(input: u64, buf: &mut [u8], pos: usize) -> (n: usize)
    requires
        pos + varint_len(input) <= old(buf)@.len(),
    ensures
        n == varint_len(input),
        final(buf)@ == old(buf)@.subrange(0, pos as int) + varint_encoding(input) + old(
            buf,
        )@.subrange(pos + n, old(buf)@.len() as int),
{
    proof {
        lemma_varint_len_facts(input);
    }
    let ghost len = varint_len(input);
    let blen = buf.len();
    let mut i: usize = 0;
    let mut shift: u64 = 0;
    while i < 8 && (input >> (shift + 7)) != 0
        invariant
            blen == buf@.len(),
            i <= 8,
            shift == 7 * i,
            len == varint_len(input),
            1 <= len <= 9,
            i < len,
            len <= 8 ==> input >> ((7 * len) as u64) == 0,
            forall|j: nat| j + 1 < len ==> #[trigger] (input >> ((7 * (j + 1)) as u64)) != 0,
            buf@.len() == old(buf)@.len(),
            pos + len <= buf@.len(),
            forall|j: int| pos <= j < pos + i ==> buf@[j] == varint_byte(input, (j - pos) as nat, len),
            forall|j: int|
                0 <= j < buf@.len() && !(pos <= j < pos + len) ==> buf@[j] == old(buf)@[j],
        decreases 8 - i,
    {
        proof {
            if i + 1 >= len {
                if len <= 8 {
                    assert(len == i + 1);
                    assert(shift + 7 == 7 * len);
                }
            }
        }
        assert(i + 1 < len);
        buf[pos + i] = (0x80u64 | ((input >> shift) & 0x7fu64)) as u8;
        i = i + 1;
        shift = shift + 7;
    }
    proof {
        if i < 8 {
            if i + 1 < len {
                assert(input >> ((7 * (i + 1)) as u64) != 0);
                assert(shift + 7 == 7 * (i + 1));
            }
        }
        assert(i + 1 == len);
    }
    if i == 8 {
        buf[pos + 8] = (input >> 56) as u8;
    } else {
        buf[pos + i] = (input >> shift) as u8;
    }
    assert(final(buf)@ =~= old(buf)@.subrange(0, pos as int) + varint_encoding(input) + old(
        buf,
    )@.subrange(pos + i + 1, old(buf)@.len() as int));
    i + 1
}

/// Writes the varint encoding of `input` at the start of `buf` and returns its length; the
/// rest of `buf` is left as it was.
pub fn varint_write(input: u64, buf: &mut [u8]) -> (n: usize)
    requires
        old(buf)@.len() >= varint_len(input),
    ensures
        n == varint_len(input),
        final(buf)@.len() == old(buf)@.len(),
        final(buf)@.subrange(0, n as int) == varint_encoding(input),
        final(buf)@.subrange(n as int, final(buf)@.len() as int) == old(buf)@.subrange(
            n as int,
            old(buf)@.len() as int,
        ),
{
    let n = varint_write_at(input, buf, 0);
    assert(final(buf)@.subrange(0, n as int) =~= varint_encoding(input));
    assert(final(buf)@.subrange(n as int, final(buf)@.len() as int) =~= old(buf)@.subrange(
        n as int,
        old(buf)@.len() as int,
    ));
    n
}

} // verus!

verus! {

/// Reads a varint from `reader`. On success the reader has advanced past exactly the varint's
/// bytes; when the bytes end first, the error comes and the reader is left at the end.
pub fn varint_read(reader: &mut ByteCursor) -> (r: Result<u64, ReadError>)
    ensures
        final(reader).wf(),
        final(reader).data() == old(reader).data(),
        match varint_decode(old(reader).remaining()) {
            Some((v, n)) => r == Ok::<u64, ReadError>(v) && final(reader).pos() == old(reader).pos()
                + n,
            None => r == Err::<u64, ReadError>(ReadError::UnexpectedEof) && final(reader).pos()
                == old(reader).data().len(),
        },
{
    proof {
        use_type_invariant(&*reader);
    }
    let ghost rest = old(reader).remaining();
    let ghost start = old(reader).pos();
    let mut value: u64 = 0;
    let mut i: usize = 0;
    let mut shift: u64 = 0;
    loop
        invariant
            reader.wf(),
            reader.data() == old(reader).data(),
            rest == old(reader).remaining(),
            start == old(reader).pos(),
            i <= 8,
            shift == 7 * i,
            reader.pos() == start + i,
            i <= rest.len(),
            varint_decode_from(rest, i as nat, value) == varint_decode(rest),
        decreases 8 - i,
    {
        let ghost before = reader.pos();
        let rb = reader.read_u8();
        let b = match rb {
            Ok(b) => b,
            Err(e) => {
                assert(i >= rest.len());
                return Err(e);
            },
        };
        assert(b == rest[i as int]);
        if i == 8 {
            value = value | ((b as u64) << 56u64);
            return Ok(value);
        }
        value = value | (((b & 0x7fu8) as u64) << shift);
        if b & 0x80u8 == 0 {
            return Ok(value);
        }
        i = i + 1;
        shift = shift + 7;
    }
}

proof fn lemma_varint_step(v: u64, k: u64)
    requires
        k <= 49,
    ensures
        (v & (((1u64 << k) - 1) as u64)) | (((((0x80u64 | ((v >> k) & 0x7fu64)) as u8) & 0x7fu8) as u64) << k)
            == v & (((1u64 << ((k + 7) as u64)) - 1) as u64),
        ((0x80u64 | ((v >> k) & 0x7fu64)) as u8) & 0x80u8 != 0,
{
    assert((v & (((1u64 << k) - 1) as u64)) | (((((0x80u64 | ((v >> k) & 0x7fu64)) as u8) & 0x7fu8) as u64) << k)
        == v & (((1u64 << ((k + 7) as u64)) - 1) as u64) && ((0x80u64 | ((v >> k) & 0x7fu64)) as u8)
        & 0x80u8 != 0) by (bit_vector)
        requires k <= 49;
}

proof fn lemma_varint_last(v: u64, k: u64)
    requires
        k <= 49,
        v >> ((k + 7) as u64) == 0,
    ensures
        (v & (((1u64 << k) - 1) as u64)) | (((((v >> k) as u8) & 0x7fu8) as u64) << k) == v,
        ((v >> k) as u8) & 0x80u8 == 0,
{
    assert((v & (((1u64 << k) - 1) as u64)) | (((((v >> k) as u8) & 0x7fu8) as u64) << k) == v)
        by (bit_vector)
        requires k <= 49, v >> ((k + 7) as u64) == 0;
    assert(((v >> k) as u8) & 0x80u8 == 0) by (bit_vector)
        requires k <= 49, v >> ((k + 7) as u64) == 0;
}

proof fn lemma_varint_decode_encoding_from(v: u64, rest: Seq<u8>, i: nat)
    requires
        i < varint_len(v),
    ensures
        varint_decode_from(varint_encoding(v) + rest, i, v & (((1u64 << ((7 * i) as u64)) - 1) as u64))
            == Some((v, varint_len(v))),
    decreases varint_len(v) - i,
{
    lemma_varint_len_facts(v);
    let len = varint_len(v);
    let bytes = varint_encoding(v) + rest;
    let k = (7 * i) as u64;
    let acc = v & (((1u64 << k) - 1) as u64);
    assert(bytes[i as int] == varint_byte(v, i, len));
    if i == 8 {
        assert((v & (((1u64 << 56u64) - 1) as u64)) | ((((v >> 56u64) as u8) as u64) << 56u64) == v)
            by (bit_vector);
    } else if i + 1 < len {
        lemma_varint_step(v, k);
        assert((7 * (i + 1)) as u64 == k + 7);
        lemma_varint_decode_encoding_from(v, rest, i + 1);
    } else {
        assert(len == i + 1);
        assert((7 * len) as u64 == k + 7);
        lemma_varint_last(v, k);
    }
}

/// Reading a varint back from the bytes that its encoding starts gives the value and the
/// encoding's length, whatever follows the encoding.
pub proof fn lemma_varint_decode_encoding(v: u64, rest: Seq<u8>)
    ensures
        varint_decode(varint_encoding(v) + rest) == Some((v, varint_len(v))),
{
    lemma_varint_len_facts(v);
    assert(v & (((1u64 << 0u64) - 1) as u64) == 0) by (bit_vector);
    lemma_varint_decode_encoding_from(v, rest, 0);
}

/// Reads a varint from the bytes of `bytes` in `pos..end`: the value and its length in bytes,
/// or `None` when those bytes end before the varint does.
pub fn varint_read_slice(bytes: &[u8], pos: usize, end: usize) -> (r: Option<(u64, usize)>)
    requires
        pos <= end <= bytes@.len(),
    ensures
        match varint_decode(bytes@.subrange(pos as int, end as int)) {
            Some((v, n)) => r == Some((v, n as usize)),
            None => r is None,
        },
{
    let ghost rest = bytes@.subrange(pos as int, end as int);
    let mut value: u64 = 0;
    let mut i: usize = 0;
    let mut shift: u64 = 0;
    loop
        invariant
            pos <= end <= bytes@.len(),
            rest == bytes@.subrange(pos as int, end as int),
            i <= 8,
            shift == 7 * i,
            varint_decode_from(rest, i as nat, value) == varint_decode(rest),
        decreases 8 - i,
    {
        if i >= end - pos {
            return None;
        }
        let b = bytes[pos + i];
        assert(b == rest[i as int]);
        if i == 8 {
            value = value | ((b as u64) << 56u64);
            return Some((value, 9));
        }
        value = value | (((b & 0x7fu8) as u64) << shift);
        if b & 0x80u8 == 0 {
            return Some((value, i + 1));
        }
        i = i + 1;
        shift = shift + 7;
    }
}

proof fn lemma_varint_digit(v: u64, k: u64)
    requires
        k <= 56,
    ensures
        (((0x80u64 | ((v >> k) & 0x7fu64)) as u8) as nat) % 128 == (v >> k) % 128,
        ((0x80u64 | ((v >> k) & 0x7fu64)) as u8) >= 128,
        k + 7 < 64 && v >> ((k + 7) as u64) == 0 ==> ((v >> k) as u8) < 128 && ((v >> k) as u8) as nat
            == (v >> k) % 128,
        k == 56 ==> ((v >> k) as u8) as nat == (v >> k),
        (v >> k) as nat == v as nat / vstd::arithmetic::power2::pow2(k as nat),
{
    assert((((0x80u64 | ((v >> k) & 0x7fu64)) as u8) as u64) % 128 == (v >> k) % 128 && ((0x80u64 | ((
    v >> k) & 0x7fu64)) as u8) >= 128 && (k + 7 < 64 && v >> ((k + 7) as u64) == 0 ==> ((v >> k) as u8)
        < 128 && ((v >> k) as u8) as u64 == (v >> k) % 128) && (k == 56 ==> ((v >> k) as u8) as u64 == (v
        >> k))) by (bit_vector);
    vstd::bits::lemma_u64_shr_is_div(v, k);
}

/// The varint encoding of `v` holds its base-128 digits, least significant first: every byte
/// but the last has its high bit set, the low 7 bits of byte `i` are digit `i` of `v`, a ninth
/// byte holds the remaining 8 bits whole, and the encoding is as short as `v` allows (one byte
/// below 2^7, two below 2^14, and so on).
pub proof fn lemma_varint_encoding_digits(v: u64)
    ensures
        ({
            let e = varint_encoding(v);
            let n = e.len();
            &&& 1 <= n <= 9
            &&& forall|i: int| 0 <= i < n - 1 ==> #[trigger] e[i] >= 128
            &&& n <= 8 ==> e[n - 1] < 128
            &&& forall|i: int|
                0 <= i < n && i < 8 ==> (#[trigger] e[i] as nat) % 128 == (v as nat / vstd::arithmetic::power2::pow2(
                    (7 * i) as nat,
                )) % 128
            &&& n == 9 ==> e[8] as nat == v as nat / vstd::arithmetic::power2::pow2(56)
            &&& n <= 8 ==> v < vstd::arithmetic::power2::pow2((7 * n) as nat)
            &&& n >= 2 ==> v >= vstd::arithmetic::power2::pow2((7 * (n - 1)) as nat)
        }),
{
    lemma_varint_len_facts(v);
    let e = varint_encoding(v);
    let n = varint_len(v);
    assert forall|i: int| 0 <= i < n - 1 implies #[trigger] e[i] >= 128 by {
        lemma_varint_digit(v, (7 * i) as u64);
    }
    assert forall|i: int|
        0 <= i < n && i < 8 implies (#[trigger] e[i] as nat) % 128 == (v as nat
        / vstd::arithmetic::power2::pow2((7 * i) as nat)) % 128 by {
        let k = (7 * i) as u64;
        lemma_varint_digit(v, k);
        if i + 1 == n {
            assert((k + 7) as u64 == (7 * n) as u64);
        }
    }
    if n <= 8 {
        let k = (7 * (n - 1)) as u64;
        lemma_varint_digit(v, k);
        assert((k + 7) as u64 == (7 * n) as u64);
        let kn = (7 * n) as u64;
        assert(v < (1u64 << kn)) by (bit_vector)
            requires kn < 64, v >> kn == 0;
        crate::bucketing::lemma_pow2_shl((7 * n) as nat);
    } else {
        lemma_varint_digit(v, 56);
    }
    if n >= 2 {
        let kp = (7 * (n - 1)) as u64;
        assert(v >> kp != 0);
        assert(v >= (1u64 << kp)) by (bit_vector)
            requires kp < 64, v >> kp != 0;
        crate::bucketing::lemma_pow2_shl((7 * (n - 1)) as nat);
    }
}

} // verus!
