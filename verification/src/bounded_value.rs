//! Scalars extended with a symbolic least and greatest value, and the
//! arithmetic of 64-bit integers extended in that way.

use vstd::prelude::*;
use vstd::arithmetic::div_mod::{lemma_div_decreases, lemma_div_nonincreasing, lemma_div_pos_is_pos};
use vstd::std_specs::ops::{AddSpecImpl, DivSpecImpl, MulSpecImpl, NegSpecImpl};
use vstd::wrapping::i64_specs::{wrapping_add, wrapping_mul, wrapping_sub};
use crate::numerical_value::MinMax;
use crate::text::push_char;

verus! {

/// A scalar, or one of the two symbolic bounds below and above all scalars.
#[derive(PartialEq, Eq, Clone, Copy, Debug)]
pub enum BoundedValue<T> {
    Min,
    Raw(T),
    Max,
}

impl<T> BoundedValue<T> {
    /// Applies `f` to the scalar and leaves the symbolic bounds as they are.
    pub fn map<U, F>(self, f: F) -> (r: BoundedValue<U>) where F: FnOnce(T) -> U
        requires
            self matches BoundedValue::Raw(t) ==> f.requires((t,)),
        ensures
            self is Min ==> r is Min,
            self is Max ==> r is Max,
            self matches BoundedValue::Raw(t) ==> r matches BoundedValue::Raw(u) && f.ensures(
                (t,),
                u,
            ),
    {
        match self {
            BoundedValue::Min => BoundedValue::Min,
            BoundedValue::Raw(t) => BoundedValue::Raw(f(t)),
            BoundedValue::Max => BoundedValue::Max,
        }
    }
}

impl<T: MinMax> BoundedValue<T> {
    /// The scalar, with the least scalar for the lower bound and the
    /// greatest for the upper.
    pub fn unwrap(self) -> (r: T)
        ensures
            self is Min ==> r.rank() == T::lowest(),
            self is Max ==> r.rank() == T::highest(),
            self matches BoundedValue::Raw(t) ==> r == t,
    {
        match self {
            BoundedValue::Min => T::min_value(),
            BoundedValue::Raw(t) => t,
            BoundedValue::Max => T::max_value(),
        }
    }
}

/// The extended scalars are ordered with the lower bound first, then the
/// scalars in their own order, then the upper bound.
impl<T: MinMax> MinMax for BoundedValue<T> {
    open spec fn rank(self) -> int {
        match self {
            BoundedValue::Min => T::lowest() - 1,
            BoundedValue::Raw(t) => t.rank(),
            BoundedValue::Max => T::highest() + 1,
        }
    }

    open spec fn lowest() -> int {
        T::lowest() - 1
    }

    open spec fn highest() -> int {
        T::highest() + 1
    }

    open spec fn text(self) -> Seq<char> {
        match self {
            BoundedValue::Min => seq!['-', 'i', 'n', 'f'],
            BoundedValue::Raw(t) => t.text(),
            BoundedValue::Max => seq!['i', 'n', 'f'],
        }
    }

    proof fn bounds_ordered() {
        T::bounds_ordered();
    }

    proof fn rank_in_bounds(self) {
        T::bounds_ordered();
        if let BoundedValue::Raw(t) = self {
            t.rank_in_bounds();
        }
    }

    proof fn rank_injective(self, other: Self) {
        match (self, other) {
            (BoundedValue::Raw(a), BoundedValue::Raw(b)) => {
                a.rank_injective(b);
            },
            (BoundedValue::Raw(a), _) => {
                a.rank_in_bounds();
            },
            (_, BoundedValue::Raw(b)) => {
                b.rank_in_bounds();
            },
            _ => {
                T::bounds_ordered();
            },
        }
    }

    fn min_value() -> (r: Self) {
        BoundedValue::Min
    }

    fn max_value() -> (r: Self) {
        BoundedValue::Max
    }

    fn less_than(&self, other: &Self) -> (r: bool) {
        proof {
            T::bounds_ordered();
            if let BoundedValue::Raw(a) = *self {
                a.rank_in_bounds();
            }
            if let BoundedValue::Raw(b) = *other {
                b.rank_in_bounds();
            }
        }
        match (self, other) {
            (BoundedValue::Min, BoundedValue::Min) => false,
            (BoundedValue::Min, _) => true,
            (_, BoundedValue::Min) => false,
            (BoundedValue::Max, _) => false,
            (_, BoundedValue::Max) => true,
            (BoundedValue::Raw(a), BoundedValue::Raw(b)) => a.less_than(b),
        }
    }

    fn same(&self, other: &Self) -> (r: bool) {
        proof {
            T::bounds_ordered();
            if let BoundedValue::Raw(a) = *self {
                a.rank_in_bounds();
            }
            if let BoundedValue::Raw(b) = *other {
                b.rank_in_bounds();
            }
        }
        match (self, other) {
            (BoundedValue::Min, BoundedValue::Min) => true,
            (BoundedValue::Max, BoundedValue::Max) => true,
            (BoundedValue::Raw(a), BoundedValue::Raw(b)) => a.same(b),
            _ => false,
        }
    }

    fn to_text(&self) -> (r: String) {
        match self {
            BoundedValue::Min => {
                let mut s = String::new();
                push_char(&mut s, '-');
                push_char(&mut s, 'i');
                push_char(&mut s, 'n');
                push_char(&mut s, 'f');
                assert(s@ =~= seq!['-', 'i', 'n', 'f']);
                s
            },
            BoundedValue::Raw(t) => t.to_text(),
            BoundedValue::Max => {
                let mut s = String::new();
                push_char(&mut s, 'i');
                push_char(&mut s, 'n');
                push_char(&mut s, 'f');
                assert(s@ =~= seq!['i', 'n', 'f']);
                s
            },
        }
    }
}

impl BoundedValue<i64> {
    /// Whether the sum of the two is defined: the two symbolic bounds have
    /// no sum.
    pub open spec fn sum_defined(self, other: Self) -> bool {
        !(self is Min && other is Max) && !(self is Max && other is Min)
    }

    /// The sum. A symbolic bound absorbs a scalar; two scalars are added
    /// with wrap-around.
    pub open spec fn sum(self, other: Self) -> Self {
        match (self, other) {
            (BoundedValue::Raw(a), BoundedValue::Raw(b)) => BoundedValue::Raw(wrapping_add(a, b)),
            (BoundedValue::Min, _) => BoundedValue::Min,
            (_, BoundedValue::Min) => BoundedValue::Min,
            _ => BoundedValue::Max,
        }
    }
}

impl AddSpecImpl for BoundedValue<i64> {
    open spec fn obeys_add_spec() -> bool {
        true
    }

    open spec fn add_req(self, other: Self) -> bool {
        self.sum_defined(other)
    }

    open spec fn add_spec(self, other: Self) -> Self {
        self.sum(other)
    }
}

impl core::ops::Add for BoundedValue<i64> {
    type Output = Self;

    fn add(self, other: Self) -> (r: Self) {
        match (self, other) {
            (BoundedValue::Raw(a), BoundedValue::Raw(b)) => BoundedValue::Raw(a.wrapping_add(b)),
            (BoundedValue::Min, _) => BoundedValue::Min,
            (_, BoundedValue::Min) => BoundedValue::Min,
            _ => BoundedValue::Max,
        }
    }
}

/// Integer division that rounds towards zero.
pub open spec fn truncated_div(x: int, d: int) -> int
    recommends
        d != 0,
{
    if x >= 0 && d > 0 {
        x / d
    } else if x < 0 && d < 0 {
        (-x) / (-d)
    } else if x < 0 {
        -((-x) / d)
    } else {
        -(x / (-d))
    }
}

/// The quotient of two 64-bit integers, rounded towards zero. The one
/// quotient that does not fit, that of the least integer by minus one,
/// wraps around to the least integer.
pub open spec fn wrapping_div(a: i64, b: i64) -> i64
    recommends
        b != 0,
{
    if a == i64::MIN && b == -1 {
        i64::MIN
    } else {
        truncated_div(a as int, b as int) as i64
    }
}

/// The quotient of two 64-bit integers as `wrapping_div` defines it.
pub fn div_wrapping(a: i64, b: i64) -> (r: i64)
    requires
        b != 0,
    ensures
        r == wrapping_div(a, b),
{
    proof {
        lemma_truncated_div_bounds(a as int, b as int);
    }
    match a.checked_div(b) {
        Some(q) => q,
        None => i64::MIN,
    }
}

/// A quotient rounded towards zero is no larger in magnitude than the
/// dividend, has the sign that the signs of the two call for, and stays
/// below the magnitude of a negative dividend where the divisor lies below
/// minus one.
pub proof fn lemma_truncated_div_bounds(x: int, d: int)
    requires
        d != 0,
    ensures
        x >= 0 ==> -x <= truncated_div(x, d) <= x,
        x < 0 ==> x <= truncated_div(x, d) <= -x,
        x < 0 && d < -1 ==> truncated_div(x, d) < -x,
        (x >= 0) == (d > 0) ==> truncated_div(x, d) >= 0,
        (x >= 0) != (d > 0) ==> truncated_div(x, d) <= 0,
{
    let ax = if x >= 0 {
        x
    } else {
        -x
    };
    let ad = if d > 0 {
        d
    } else {
        -d
    };
    lemma_div_pos_is_pos(ax, ad);
    lemma_div_nonincreasing(ax, ad);
    if ax > 0 && ad > 1 {
        lemma_div_decreases(ax, ad);
    }
}

impl BoundedValue<i64> {
    /// Whether the product of the two is defined: the two different
    /// symbolic bounds have no product.
    pub open spec fn product_defined(self, other: Self) -> bool {
        !(self is Min && other is Max) && !(self is Max && other is Min)
    }

    /// A symbolic bound times the scalar `b`: the bound itself for a
    /// positive scalar, the opposite bound for a negative one, zero for zero.
    pub open spec fn scaled_bound(self, b: i64) -> Self {
        if b == 0 {
            BoundedValue::Raw(0)
        } else if (b > 0) == (self is Max) {
            BoundedValue::Max
        } else {
            BoundedValue::Min
        }
    }

    /// The product. Two scalars are multiplied with wrap-around, a symbolic
    /// bound is scaled by a scalar, and a bound times itself is that bound.
    pub open spec fn product(self, other: Self) -> Self {
        match (self, other) {
            (BoundedValue::Raw(a), BoundedValue::Raw(b)) => BoundedValue::Raw(wrapping_mul(a, b)),
            (BoundedValue::Raw(a), _) => other.scaled_bound(a),
            (_, BoundedValue::Raw(b)) => self.scaled_bound(b),
            _ => self,
        }
    }

    /// Whether the quotient of the two is defined: nothing is divided by
    /// the scalar zero.
    pub open spec fn quotient_defined(self, other: Self) -> bool {
        other != BoundedValue::Raw(0i64)
    }

    /// The quotient. Two scalars are divided towards zero, a scalar by a
    /// symbolic bound gives zero, a bound by a scalar takes the sign of the
    /// scalar into account, and a bound by a bound is the upper bound where
    /// the two are the same and the lower bound where they differ.
    pub open spec fn quotient(self, other: Self) -> Self {
        match (self, other) {
            (BoundedValue::Raw(a), BoundedValue::Raw(b)) => BoundedValue::Raw(wrapping_div(a, b)),
            (BoundedValue::Raw(_), _) => BoundedValue::Raw(0),
            (_, BoundedValue::Raw(b)) => if (b > 0) == (self is Max) {
                BoundedValue::Max
            } else {
                BoundedValue::Min
            },
            _ => if (self is Min) == (other is Min) {
                BoundedValue::Max
            } else {
                BoundedValue::Min
            },
        }
    }

    /// The negation: the symbolic bounds change places and a scalar changes
    /// its sign, with wrap-around.
    pub open spec fn negated(self) -> Self {
        match self {
            BoundedValue::Min => BoundedValue::Max,
            BoundedValue::Raw(t) => BoundedValue::Raw(wrapping_sub(0, t)),
            BoundedValue::Max => BoundedValue::Min,
        }
    }

    /// The magnitude: the upper bound for either symbolic bound, and for a
    /// scalar its absolute value, with wrap-around.
    pub open spec fn magnitude(self) -> Self {
        match self {
            BoundedValue::Raw(t) => if t < 0 {
                BoundedValue::Raw(wrapping_sub(0, t))
            } else {
                BoundedValue::Raw(t)
            },
            _ => BoundedValue::Max,
        }
    }

    /// The value moved by `step`: a scalar is moved with wrap-around and a
    /// symbolic bound stays where it is.
    pub open spec fn shifted(self, step: i64) -> Self {
        match self {
            BoundedValue::Raw(t) => BoundedValue::Raw(wrapping_add(t, step)),
            _ => self,
        }
    }

    pub fn abs(self) -> (r: Self)
        ensures
            r == self.magnitude(),
    {
        match self {
            BoundedValue::Raw(t) => if t < 0 {
                BoundedValue::Raw(0i64.wrapping_sub(t))
            } else {
                BoundedValue::Raw(t)
            },
            _ => BoundedValue::Max,
        }
    }

    /// The value moved by `step`, see `shifted`.
    pub fn shift(self, step: i64) -> (r: Self)
        ensures
            r == self.shifted(step),
    {
        match self {
            BoundedValue::Raw(t) => BoundedValue::Raw(t.wrapping_add(step)),
            _ => self,
        }
    }

    /// Whether the value lies below the scalar `bound`.
    pub fn below(&self, bound: i64) -> (r: bool)
        ensures
            r == (self.rank() < bound),
    {
        match self {
            BoundedValue::Min => true,
            BoundedValue::Raw(t) => *t < bound,
            BoundedValue::Max => false,
        }
    }

    /// Whether the value lies above the scalar `bound`.
    pub fn above(&self, bound: i64) -> (r: bool)
        ensures
            r == (self.rank() > bound),
    {
        match self {
            BoundedValue::Min => false,
            BoundedValue::Raw(t) => *t > bound,
            BoundedValue::Max => true,
        }
    }

    fn scale_bound(self, b: i64) -> (r: Self)
        ensures
            r == self.scaled_bound(b),
    {
        if b == 0 {
            BoundedValue::Raw(0)
        } else if (b > 0) == matches!(self, BoundedValue::Max) {
            BoundedValue::Max
        } else {
            BoundedValue::Min
        }
    }
}

impl MulSpecImpl for BoundedValue<i64> {
    open spec fn obeys_mul_spec() -> bool {
        true
    }

    open spec fn mul_req(self, other: Self) -> bool {
        self.product_defined(other)
    }

    open spec fn mul_spec(self, other: Self) -> Self {
        self.product(other)
    }
}

impl core::ops::Mul for BoundedValue<i64> {
    type Output = Self;

    fn mul(self, other: Self) -> (r: Self) {
        match (self, other) {
            (BoundedValue::Raw(a), BoundedValue::Raw(b)) => BoundedValue::Raw(a.wrapping_mul(b)),
            (BoundedValue::Raw(a), _) => other.scale_bound(a),
            (_, BoundedValue::Raw(b)) => self.scale_bound(b),
            _ => self,
        }
    }
}

impl DivSpecImpl for BoundedValue<i64> {
    open spec fn obeys_div_spec() -> bool {
        true
    }

    open spec fn div_req(self, other: Self) -> bool {
        self.quotient_defined(other)
    }

    open spec fn div_spec(self, other: Self) -> Self {
        self.quotient(other)
    }
}

impl core::ops::Div for BoundedValue<i64> {
    type Output = Self;

    fn div(self, other: Self) -> (r: Self) {
        match (self, other) {
            (BoundedValue::Raw(a), BoundedValue::Raw(b)) => BoundedValue::Raw(div_wrapping(a, b)),
            (BoundedValue::Raw(_), _) => BoundedValue::Raw(0),
            (_, BoundedValue::Raw(b)) => if (b > 0) == matches!(self, BoundedValue::Max) {
                BoundedValue::Max
            } else {
                BoundedValue::Min
            },
            _ => if matches!(self, BoundedValue::Min) == matches!(other, BoundedValue::Min) {
                BoundedValue::Max
            } else {
                BoundedValue::Min
            },
        }
    }
}

impl NegSpecImpl for BoundedValue<i64> {
    open spec fn obeys_neg_spec() -> bool {
        true
    }

    open spec fn neg_req(self) -> bool {
        true
    }

    open spec fn neg_spec(self) -> Self {
        self.negated()
    }
}

impl core::ops::Neg for BoundedValue<i64> {
    type Output = Self;

    fn neg(self) -> (r: Self) {
        match self {
            BoundedValue::Min => BoundedValue::Max,
            BoundedValue::Raw(t) => BoundedValue::Raw(0i64.wrapping_sub(t)),
            BoundedValue::Max => BoundedValue::Min,
        }
    }
}

} // verus!
