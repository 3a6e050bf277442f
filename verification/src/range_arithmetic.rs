//! Arithmetic on ranges of extended 64-bit integers.
//!
//! The result of an operation on two ranges is one range again, computed
//! from the endpoints alone. Where both endpoints that meet are exclusive,
//! the bound of the result is moved one step inwards, since between two
//! exclusive integer bounds the nearest integers are one step away each.

use vstd::prelude::*;
use core::ops::Neg;
use vstd::std_specs::ops::{AddSpecImpl, DivSpecImpl, MulSpecImpl, RemSpecImpl, SubSpecImpl};
use crate::bounded_value::BoundedValue;
use crate::numerical_value::{Inclusivity, MaxPair, MinMax, MinPair, Range};

verus! {

/// The inclusivity of a bound computed from two bounds: inclusive only
/// where both are.
pub open spec fn both_inclusive(a: Inclusivity, b: Inclusivity) -> Inclusivity {
    if a == Inclusivity::Inclusive && b == Inclusivity::Inclusive {
        Inclusivity::Inclusive
    } else {
        Inclusivity::Exclusive
    }
}

/// The step by which a bound computed from two bounds is moved inwards:
/// `step` where both are exclusive, nothing otherwise.
pub open spec fn tightening(a: Inclusivity, b: Inclusivity, step: i64) -> i64 {
    if a == Inclusivity::Exclusive && b == Inclusivity::Exclusive {
        step
    } else {
        0
    }
}

fn join_inclusivity(a: Inclusivity, b: Inclusivity) -> (r: Inclusivity)
    ensures
        r == both_inclusive(a, b),
{
    if matches!(a, Inclusivity::Inclusive) && matches!(b, Inclusivity::Inclusive) {
        Inclusivity::Inclusive
    } else {
        Inclusivity::Exclusive
    }
}

fn tighten(v: BoundedValue<i64>, a: Inclusivity, b: Inclusivity, step: i64) -> (r: BoundedValue<
    i64,
>)
    ensures
        r == v.shifted(tightening(a, b, step)),
{
    if matches!(a, Inclusivity::Exclusive) && matches!(b, Inclusivity::Exclusive) {
        v.shift(step)
    } else {
        proof {
            if let BoundedValue::Raw(t) = v {
                assert(vstd::wrapping::i64_specs::wrapping_add(t, 0) == t);
            }
        }
        v
    }
}

impl Range<BoundedValue<i64>> {
    /// Whether the integer `k` lies in the range. The lower symbolic bound
    /// lies below every integer and the upper one above.
    pub open spec fn contains_int(self, k: int) -> bool {
        &&& match self.min.value {
            BoundedValue::Min => true,
            BoundedValue::Raw(a) => if self.min.inclusivity == Inclusivity::Inclusive {
                a <= k
            } else {
                a < k
            },
            BoundedValue::Max => false,
        }
        &&& match self.max.value {
            BoundedValue::Min => false,
            BoundedValue::Raw(b) => if self.max.inclusivity == Inclusivity::Inclusive {
                k <= b
            } else {
                k < b
            },
            BoundedValue::Max => true,
        }
    }

    /// Whether the range is one value with both endpoints inclusive.
    pub open spec fn is_singleton(self) -> bool {
        &&& self.min.value == self.max.value
        &&& self.min.inclusivity == Inclusivity::Inclusive
        &&& self.max.inclusivity == Inclusivity::Inclusive
    }

    /// Whether the sum of the two ranges is defined: at neither end do the
    /// two different symbolic bounds meet.
    pub open spec fn sum_defined(self, other: Self) -> bool {
        &&& self.min.value.sum_defined(other.min.value)
        &&& self.max.value.sum_defined(other.max.value)
    }

    /// The sum: the lower endpoints are added and the upper endpoints are
    /// added. An end of the result is inclusive where both ends are; where
    /// both are exclusive the bound moves one step inwards.
    pub open spec fn sum(self, other: Self) -> Self {
        Range {
            min: MinPair {
                value: self.min.value.sum(other.min.value).shifted(
                    tightening(self.min.inclusivity, other.min.inclusivity, 1i64),
                ),
                inclusivity: both_inclusive(self.min.inclusivity, other.min.inclusivity),
            },
            max: MaxPair {
                value: self.max.value.sum(other.max.value).shifted(
                    tightening(self.max.inclusivity, other.max.inclusivity, -1i64),
                ),
                inclusivity: both_inclusive(self.max.inclusivity, other.max.inclusivity),
            },
        }
    }

    /// The range of the negated values: the endpoints are negated and
    /// change places.
    pub open spec fn negated(self) -> Self {
        Range {
            min: MinPair {
                value: self.max.value.negated(),
                inclusivity: self.max.inclusivity,
            },
            max: MaxPair {
                value: self.min.value.negated(),
                inclusivity: self.min.inclusivity,
            },
        }
    }

    /// Whether the difference of the two ranges is defined: the sum with
    /// the negated range is.
    pub open spec fn difference_defined(self, other: Self) -> bool {
        self.sum_defined(other.negated())
    }

    /// The difference: the sum with the negated range.
    pub open spec fn difference(self, other: Self) -> Self {
        self.sum(other.negated())
    }

    /// Whether the product of the two ranges is defined: at neither end do
    /// the two different symbolic bounds meet.
    pub open spec fn product_defined(self, other: Self) -> bool {
        &&& self.min.value.product_defined(other.min.value)
        &&& self.max.value.product_defined(other.max.value)
    }

    /// The product: the lower endpoints are multiplied and the upper
    /// endpoints are multiplied, with the inclusivity and the inward step of
    /// the sum.
    pub open spec fn product(self, other: Self) -> Self {
        Range {
            min: MinPair {
                value: self.min.value.product(other.min.value).shifted(
                    tightening(self.min.inclusivity, other.min.inclusivity, 1i64),
                ),
                inclusivity: both_inclusive(self.min.inclusivity, other.min.inclusivity),
            },
            max: MaxPair {
                value: self.max.value.product(other.max.value).shifted(
                    tightening(self.max.inclusivity, other.max.inclusivity, -1i64),
                ),
                inclusivity: both_inclusive(self.max.inclusivity, other.max.inclusivity),
            },
        }
    }

    /// Whether the range reaches below zero.
    pub open spec fn has_negative(self) -> bool {
        self.min.value.rank() < 0
    }

    /// Whether the range reaches above zero.
    pub open spec fn has_positive(self) -> bool {
        self.max.value.rank() > 0
    }

    /// The negative divisor nearest to zero: minus one where the range
    /// reaches that far, else its upper endpoint.
    pub open spec fn smallest_negative(self) -> BoundedValue<i64> {
        if self.max.value.rank() >= -1 {
            BoundedValue::Raw(-1i64)
        } else {
            self.max.value
        }
    }

    /// The positive divisor nearest to zero: one where the range reaches
    /// that far, else its lower endpoint.
    pub open spec fn smallest_positive(self) -> BoundedValue<i64> {
        if self.min.value.rank() <= 1 {
            BoundedValue::Raw(1i64)
        } else {
            self.min.value
        }
    }

    /// Whether the quotient by `other` is defined. A singleton divisor must
    /// not be zero; any other divisor must reach below or above zero.
    pub open spec fn quotient_defined(self, other: Self) -> bool {
        if other.is_singleton() {
            other.min.value != BoundedValue::Raw(0i64)
        } else {
            other.has_negative() || other.has_positive()
        }
    }

    /// The closed range between two values.
    pub open spec fn closed(lo: BoundedValue<i64>, hi: BoundedValue<i64>) -> Self {
        Range::new_spec(lo, Inclusivity::Inclusive, hi, Inclusivity::Inclusive)
    }

    /// Whether, for a divisor on both sides of zero, the upper endpoint of
    /// the dividend is the one that reaches furthest from zero.
    pub open spec fn upper_dominates(self) -> bool {
        if self.min.value.rank() > 0 && self.max.value.rank() > 0 {
            true
        } else if self.max.value.rank() < 0 {
            false
        } else {
            self.min.value.magnitude().rank() < self.max.value.rank()
        }
    }

    /// The quotient.
    ///
    /// By a singleton the endpoints are divided one by one and keep their
    /// inclusivity. Any other divisor is cut at zero. Where it lies on both
    /// sides, the result runs from the dominating endpoint of the dividend
    /// divided by minus one to the same endpoint divided by one, or the
    /// other way round for the lower endpoint. Where it lies below zero
    /// only, the result runs from the upper endpoint divided by the divisor
    /// nearest to zero to the lower endpoint divided by the lower endpoint
    /// of the divisor; above zero only, from the lower endpoint divided by
    /// the upper endpoint of the divisor to the upper endpoint divided by
    /// the divisor nearest to zero. These results are closed ranges.
    pub open spec fn quotient(self, other: Self) -> Self {
        let minus_one = BoundedValue::Raw(-1i64);
        let one = BoundedValue::Raw(1i64);
        if other.is_singleton() {
            Range::new_spec(
                self.min.value.quotient(other.min.value),
                self.min.inclusivity,
                self.max.value.quotient(other.max.value),
                self.max.inclusivity,
            )
        } else if other.has_negative() && other.has_positive() {
            if self.upper_dominates() {
                Self::closed(self.max.value.quotient(minus_one), self.max.value.quotient(one))
            } else {
                Self::closed(self.min.value.quotient(one), self.min.value.quotient(minus_one))
            }
        } else if other.has_negative() {
            Self::closed(
                self.max.value.quotient(other.smallest_negative()),
                self.min.value.quotient(other.min.value),
            )
        } else {
            Self::closed(
                self.min.value.quotient(other.max.value),
                self.max.value.quotient(other.smallest_positive()),
            )
        }
    }

    /// The remainder, over-approximated by the divisor itself.
    pub open spec fn remainder(self, other: Self) -> Self {
        other
    }

    /// Whether the integer `k` lies in the range.
    pub fn contains(&self, k: i64) -> (r: bool)
        ensures
            r == self.contains_int(k as int),
    {
        let above = match self.min.value {
            BoundedValue::Min => true,
            BoundedValue::Raw(a) => if matches!(self.min.inclusivity, Inclusivity::Inclusive) {
                a <= k
            } else {
                a < k
            },
            BoundedValue::Max => false,
        };
        let below = match self.max.value {
            BoundedValue::Min => false,
            BoundedValue::Raw(b) => if matches!(self.max.inclusivity, Inclusivity::Inclusive) {
                k <= b
            } else {
                k < b
            },
            BoundedValue::Max => true,
        };
        above && below
    }

    /// The range of the negated values, see `negated`.
    pub fn negate(self) -> (r: Self)
        ensures
            r == self.negated(),
    {
        Range::new(
            self.max.value.neg(),
            self.max.inclusivity,
            self.min.value.neg(),
            self.min.inclusivity,
        )
    }

    /// Whether the range is one value with both endpoints inclusive.
    pub fn singleton(&self) -> (r: bool)
        ensures
            r == self.is_singleton(),
    {
        proof {
            if self.min.value.rank() == self.max.value.rank() {
                self.min.value.rank_injective(self.max.value);
            }
        }
        self.min.value.same(&self.max.value) && matches!(
            self.min.inclusivity,
            Inclusivity::Inclusive
        ) && matches!(self.max.inclusivity, Inclusivity::Inclusive)
    }

    /// Whether the sum with `other` is defined.
    pub fn can_add(&self, other: &Self) -> (r: bool)
        ensures
            r == self.sum_defined(*other),
    {
        scalar_can_add(self.min.value, other.min.value) && scalar_can_add(
            self.max.value,
            other.max.value,
        )
    }

    /// Whether the difference with `other` is defined.
    pub fn can_sub(&self, other: &Self) -> (r: bool)
        ensures
            r == self.difference_defined(*other),
    {
        let negated = other.negate();
        self.can_add(&negated)
    }

    /// Whether the product with `other` is defined.
    pub fn can_mul(&self, other: &Self) -> (r: bool)
        ensures
            r == self.product_defined(*other),
    {
        scalar_can_add(self.min.value, other.min.value) && scalar_can_add(
            self.max.value,
            other.max.value,
        )
    }

    /// Whether the quotient by `other` is defined.
    pub fn can_div(&self, other: &Self) -> (r: bool)
        ensures
            r == self.quotient_defined(*other),
    {
        if other.singleton() {
            match other.min.value {
                BoundedValue::Raw(v) => v != 0,
                _ => true,
            }
        } else {
            other.min.value.below(0) || other.max.value.above(0)
        }
    }
}

/// Whether the two can be added, which is also whether they can be
/// multiplied: they are not the two different symbolic bounds.
fn scalar_can_add(a: BoundedValue<i64>, b: BoundedValue<i64>) -> (r: bool)
    ensures
        r == a.sum_defined(b),
        r == a.product_defined(b),
{
    match (a, b) {
        (BoundedValue::Min, BoundedValue::Max) => false,
        (BoundedValue::Max, BoundedValue::Min) => false,
        _ => true,
    }
}

impl AddSpecImpl for Range<BoundedValue<i64>> {
    open spec fn obeys_add_spec() -> bool {
        true
    }

    open spec fn add_req(self, other: Self) -> bool {
        self.sum_defined(other)
    }

    open spec fn add_spec(self, other: Self) -> Self {
        self.sum(other)
    }
}

impl core::ops::Add for Range<BoundedValue<i64>> {
    type Output = Self;

    fn add(self, other: Self) -> (r: Self) {
        Range {
            min: MinPair {
                value: tighten(
                    self.min.value + other.min.value,
                    self.min.inclusivity,
                    other.min.inclusivity,
                    1,
                ),
                inclusivity: join_inclusivity(self.min.inclusivity, other.min.inclusivity),
            },
            max: MaxPair {
                value: tighten(
                    self.max.value + other.max.value,
                    self.max.inclusivity,
                    other.max.inclusivity,
                    -1,
                ),
                inclusivity: join_inclusivity(self.max.inclusivity, other.max.inclusivity),
            },
        }
    }
}

impl SubSpecImpl for Range<BoundedValue<i64>> {
    open spec fn obeys_sub_spec() -> bool {
        true
    }

    open spec fn sub_req(self, other: Self) -> bool {
        self.difference_defined(other)
    }

    open spec fn sub_spec(self, other: Self) -> Self {
        self.difference(other)
    }
}

impl core::ops::Sub for Range<BoundedValue<i64>> {
    type Output = Self;

    fn sub(self, other: Self) -> (r: Self) {
        self + other.negate()
    }
}

impl MulSpecImpl for Range<BoundedValue<i64>> {
    open spec fn obeys_mul_spec() -> bool {
        true
    }

    open spec fn mul_req(self, other: Self) -> bool {
        self.product_defined(other)
    }

    open spec fn mul_spec(self, other: Self) -> Self {
        self.product(other)
    }
}

impl core::ops::Mul for Range<BoundedValue<i64>> {
    type Output = Self;

    fn mul(self, other: Self) -> (r: Self) {
        Range {
            min: MinPair {
                value: tighten(
                    self.min.value * other.min.value,
                    self.min.inclusivity,
                    other.min.inclusivity,
                    1,
                ),
                inclusivity: join_inclusivity(self.min.inclusivity, other.min.inclusivity),
            },
            max: MaxPair {
                value: tighten(
                    self.max.value * other.max.value,
                    self.max.inclusivity,
                    other.max.inclusivity,
                    -1,
                ),
                inclusivity: join_inclusivity(self.max.inclusivity, other.max.inclusivity),
            },
        }
    }
}

impl DivSpecImpl for Range<BoundedValue<i64>> {
    open spec fn obeys_div_spec() -> bool {
        true
    }

    open spec fn div_req(self, other: Self) -> bool {
        self.quotient_defined(other)
    }

    open spec fn div_spec(self, other: Self) -> Self {
        self.quotient(other)
    }
}

impl core::ops::Div for Range<BoundedValue<i64>> {
    type Output = Self;

    fn div(self, other: Self) -> (r: Self) {
        let minus_one = BoundedValue::Raw(-1i64);
        let one = BoundedValue::Raw(1i64);
        if other.singleton() {
            Range::new(
                self.min.value / other.min.value,
                self.min.inclusivity,
                self.max.value / other.max.value,
                self.max.inclusivity,
            )
        } else {
            let negative = other.min.value.below(0);
            let positive = other.max.value.above(0);
            if negative && positive {
                let upper = if self.min.value.above(0) && self.max.value.above(0) {
                    true
                } else if self.max.value.below(0) {
                    false
                } else {
                    self.min.value.abs().less_than(&self.max.value)
                };
                if upper {
                    Range::new(
                        self.max.value / minus_one,
                        Inclusivity::Inclusive,
                        self.max.value / one,
                        Inclusivity::Inclusive,
                    )
                } else {
                    Range::new(
                        self.min.value / one,
                        Inclusivity::Inclusive,
                        self.min.value / minus_one,
                        Inclusivity::Inclusive,
                    )
                }
            } else if negative {
                let nearest = if other.max.value.below(-1) {
                    other.max.value
                } else {
                    minus_one
                };
                Range::new(
                    self.max.value / nearest,
                    Inclusivity::Inclusive,
                    self.min.value / other.min.value,
                    Inclusivity::Inclusive,
                )
            } else {
                let nearest = if other.min.value.above(1) {
                    other.min.value
                } else {
                    one
                };
                Range::new(
                    self.min.value / other.max.value,
                    Inclusivity::Inclusive,
                    self.max.value / nearest,
                    Inclusivity::Inclusive,
                )
            }
        }
    }
}

impl RemSpecImpl for Range<BoundedValue<i64>> {
    open spec fn obeys_rem_spec() -> bool {
        true
    }

    open spec fn rem_req(self, other: Self) -> bool {
        true
    }

    open spec fn rem_spec(self, other: Self) -> Self {
        self.remainder(other)
    }
}

impl core::ops::Rem for Range<BoundedValue<i64>> {
    type Output = Self;

    fn rem(self, other: Self) -> (r: Self) {
        other
    }
}

} // verus!
