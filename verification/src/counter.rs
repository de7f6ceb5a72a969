use vstd::prelude::*;

verus! {

/// A type that can count how many times a value was recorded: an unsigned integer.
pub trait Counter: Sized + Copy {
    /// The count held, as a number.
    spec fn count_value(&self) -> nat;

    /// The largest count the type can hold.
    spec fn count_max() -> nat;

    /// Every count lies between zero and the type's maximum, which fits in a `u64` and is at
    /// least that of a `u8`.
    proof fn lemma_count_bounds(c: Self)
        ensures
            c.count_value() <= Self::count_max(),
            255 <= Self::count_max() <= u64::MAX,
    ;

    /// The zero count.
    fn zero() -> (r: Self)
        ensures
            r.count_value() == 0,
    ;

    /// The count of one.
    fn one() -> (r: Self)
        ensures
            r.count_value() == 1,
    ;

    /// The count as a `u64`.
    fn as_u64(&self) -> (r: u64)
        ensures
            r == self.count_value(),
    ;

    /// The counter holding `v`, if `v` fits.
    fn from_u64(v: u64) -> (r: Option<Self>)
        ensures
            r is Some <==> v <= Self::count_max(),
            r matches Some(c) ==> c.count_value() == v,
    ;

    /// The sum of two counts, held at the type's maximum when it does not fit.
    fn add_saturating(self, other: Self) -> (r: Self)
        ensures
            r.count_value() == if self.count_value() + other.count_value() <= Self::count_max() {
                self.count_value() + other.count_value()
            } else {
                Self::count_max()
            },
    ;
}

impl Counter for u8 {
    open spec fn count_value(&self) -> nat {
        *self as nat
    }

    open spec fn count_max() -> nat {
        u8::MAX as nat
    }

    proof fn lemma_count_bounds(c: Self) {
    }

    fn zero() -> (r: Self) {
        0
    }

    fn one() -> (r: Self) {
        1
    }

    fn as_u64(&self) -> (r: u64) {
        *self as u64
    }

    fn from_u64(v: u64) -> (r: Option<Self>) {
        if v <= u8::MAX as u64 {
            Some(v as u8)
        } else {
            None
        }
    }

    fn add_saturating(self, other: Self) -> (r: Self) {
        if self as u64 + other as u64 <= u8::MAX as u64 {
            self + other
        } else {
            u8::MAX
        }
    }
}

impl Counter for u16 {
    open spec fn count_value(&self) -> nat {
        *self as nat
    }

    open spec fn count_max() -> nat {
        u16::MAX as nat
    }

    proof fn lemma_count_bounds(c: Self) {
    }

    fn zero() -> (r: Self) {
        0
    }

    fn one() -> (r: Self) {
        1
    }

    fn as_u64(&self) -> (r: u64) {
        *self as u64
    }

    fn from_u64(v: u64) -> (r: Option<Self>) {
        if v <= u16::MAX as u64 {
            Some(v as u16)
        } else {
            None
        }
    }

    fn add_saturating(self, other: Self) -> (r: Self) {
        if self as u64 + other as u64 <= u16::MAX as u64 {
            self + other
        } else {
            u16::MAX
        }
    }
}

impl Counter for u32 {
    open spec fn count_value(&self) -> nat {
        *self as nat
    }

    open spec fn count_max() -> nat {
        u32::MAX as nat
    }

    proof fn lemma_count_bounds(c: Self) {
    }

    fn zero() -> (r: Self) {
        0
    }

    fn one() -> (r: Self) {
        1
    }

    fn as_u64(&self) -> (r: u64) {
        *self as u64
    }

    fn from_u64(v: u64) -> (r: Option<Self>) {
        if v <= u32::MAX as u64 {
            Some(v as u32)
        } else {
            None
        }
    }

    fn add_saturating(self, other: Self) -> (r: Self) {
        if self as u64 + other as u64 <= u32::MAX as u64 {
            self + other
        } else {
            u32::MAX
        }
    }
}

impl Counter for u64 {
    open spec fn count_value(&self) -> nat {
        *self as nat
    }

    open spec fn count_max() -> nat {
        u64::MAX as nat
    }

    proof fn lemma_count_bounds(c: Self) {
    }

    fn zero() -> (r: Self) {
        0
    }

    fn one() -> (r: Self) {
        1
    }

    fn as_u64(&self) -> (r: u64) {
        *self
    }

    fn from_u64(v: u64) -> (r: Option<Self>) {
        Some(v)
    }

    fn add_saturating(self, other: Self) -> (r: Self) {
        if self <= u64::MAX - other {
            self + other
        } else {
            u64::MAX
        }
    }
}

} // verus!
