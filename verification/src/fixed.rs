//! Fixed-point scalar used for all prices and volumes: a 64-bit signed
//! integer scaled by a fixed multiplier, with exact equality, total
//! ordering and closed addition/subtraction.

use vstd::prelude::*;

verus! {

/// Every price and volume is `value / FLOAT_MULTIPLIER`.
pub const FLOAT_MULTIPLIER: i64 = 1000000;

/// A scaled 64-bit signed fixed-point number.
///
/// `infinity()` is a saturating sentinel that denotes the absence of a
/// bound; it must not participate in arithmetic.
#[derive(Clone, Copy, Debug, PartialEq, Eq, Structural)]
pub struct FloatAsLong {
    pub value: i64,
}

impl FloatAsLong {
    /// Builds the scalar that represents the integer `val`.
    pub fn from_int(val: i64) -> (r: FloatAsLong)
        requires
            val * FLOAT_MULTIPLIER <= i64::MAX,
            val * FLOAT_MULTIPLIER >= i64::MIN,
        ensures
            r.value == val * FLOAT_MULTIPLIER,
    {
        FloatAsLong { value: val * FLOAT_MULTIPLIER }
    }

    /// The zero scalar.
    pub fn zero() -> (r: FloatAsLong)
        ensures
            r.value == 0,
    {
        FloatAsLong { value: 0 }
    }

    /// The saturating sentinel for "no bound".
    pub fn infinity() -> (r: FloatAsLong)
        ensures
            r.value == i64::MAX,
    {
        FloatAsLong { value: i64::MAX }
    }

    /// Exact addition.
    pub fn add(self, rhs: FloatAsLong) -> (r: FloatAsLong)
        requires
            self.value + rhs.value <= i64::MAX,
            self.value + rhs.value >= i64::MIN,
        ensures
            r.value == self.value + rhs.value,
    {
        FloatAsLong { value: self.value + rhs.value }
    }

    /// Exact subtraction.
    pub fn sub(self, rhs: FloatAsLong) -> (r: FloatAsLong)
        requires
            self.value - rhs.value <= i64::MAX,
            self.value - rhs.value >= i64::MIN,
        ensures
            r.value == self.value - rhs.value,
    {
        FloatAsLong { value: self.value - rhs.value }
    }

    /// Strict order on the underlying scaled integers.
    pub fn lt(self, rhs: FloatAsLong) -> (r: bool)
        ensures
            r == (self.value < rhs.value),
    {
        self.value < rhs.value
    }

    /// Non-strict order on the underlying scaled integers.
    pub fn le(self, rhs: FloatAsLong) -> (r: bool)
        ensures
            r == (self.value <= rhs.value),
    {
        self.value <= rhs.value
    }
}

/// The mathematical sum of the underlying scaled integers.
pub open spec fn sum_values(s: Seq<FloatAsLong>) -> int
    decreases s.len(),
{
    if s.len() == 0 {
        0
    } else {
        sum_values(s.drop_last()) + s.last().value
    }
}

impl FloatAsLong {
    /// In-place addition.
    pub fn add_assign(&mut self, other: FloatAsLong)
        requires
            old(self).value + other.value <= i64::MAX,
            old(self).value + other.value >= i64::MIN,
        ensures
            final(self).value == old(self).value + other.value,
    {
        self.value = self.value + other.value;
    }

    /// Exact summation over a sequence of scalars; every partial sum
    /// must stay representable.
    pub fn sum(values: &Vec<FloatAsLong>) -> (r: FloatAsLong)
        requires
            forall|i: int|
                0 <= i <= values@.len() ==> i64::MIN <= sum_values(#[trigger] values@.take(i))
                    <= i64::MAX,
        ensures
            r.value == sum_values(values@),
    {
        let mut acc: i64 = 0;
        let n = values.len();
        let mut i: usize = 0;
        while i < n
            invariant
                n == values@.len(),
                0 <= i <= n,
                acc == sum_values(values@.take(i as int)),
                forall|j: int|
                    0 <= j <= values@.len() ==> i64::MIN <= sum_values(
                        #[trigger] values@.take(j),
                    ) <= i64::MAX,
            decreases n - i,
        {
            proof {
                assert(values@.take(i as int + 1).drop_last() =~= values@.take(i as int));
                assert(values@.take(i as int + 1).last() == values@[i as int]);
                assert(i64::MIN <= sum_values(values@.take(i as int + 1)) <= i64::MAX);
            }
            acc = acc + values[i].value;
            i = i + 1;
        }
        proof {
            assert(values@.take(n as int) =~= values@);
        }
        FloatAsLong { value: acc }
    }
}

/// All monetary quantities use this scalar.
pub type Float = FloatAsLong;

} // verus!
