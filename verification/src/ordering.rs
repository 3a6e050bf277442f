//! The order of endpoints, ranges and extended scalars as the comparison
//! operators see it.
//!
//! Endpoints compare as their positions do. Ranges compare by their lower
//! endpoints and, where these are the same, by their upper endpoints.

use vstd::prelude::*;
use core::cmp::Ordering;
use vstd::std_specs::cmp::{PartialEqSpecImpl, PartialOrdSpecImpl};
use crate::bounded_value::BoundedValue;
use crate::numerical_value::{MaxPair, MinMax, MinPair, Range};

verus! {

/// How two positions compare.
pub open spec fn order_of(a: int, b: int) -> Ordering {
    if a < b {
        Ordering::Less
    } else if a == b {
        Ordering::Equal
    } else {
        Ordering::Greater
    }
}

impl<T: MinMax + PartialEq> PartialOrdSpecImpl for MinPair<T> {
    open spec fn obeys_partial_cmp_spec() -> bool {
        true
    }

    open spec fn partial_cmp_spec(&self, other: &MinPair<T>) -> Option<Ordering> {
        Some(order_of(self.pos(), other.pos()))
    }
}

impl<T: MinMax + PartialEq> PartialOrd for MinPair<T> {
    fn partial_cmp(&self, other: &MinPair<T>) -> (r: Option<Ordering>) {
        if self.less_than(other) {
            Some(Ordering::Less)
        } else if other.less_than(self) {
            Some(Ordering::Greater)
        } else {
            Some(Ordering::Equal)
        }
    }
}

impl<T: MinMax + PartialEq> PartialOrdSpecImpl for MaxPair<T> {
    open spec fn obeys_partial_cmp_spec() -> bool {
        true
    }

    open spec fn partial_cmp_spec(&self, other: &MaxPair<T>) -> Option<Ordering> {
        Some(order_of(self.pos(), other.pos()))
    }
}

impl<T: MinMax + PartialEq> PartialOrd for MaxPair<T> {
    fn partial_cmp(&self, other: &MaxPair<T>) -> (r: Option<Ordering>) {
        if self.less_than(other) {
            Some(Ordering::Less)
        } else if other.less_than(self) {
            Some(Ordering::Greater)
        } else {
            Some(Ordering::Equal)
        }
    }
}

impl<T: MinMax + PartialEq> PartialOrdSpecImpl for Range<T> {
    open spec fn obeys_partial_cmp_spec() -> bool {
        true
    }

    open spec fn partial_cmp_spec(&self, other: &Range<T>) -> Option<Ordering> {
        if self.min.pos() == other.min.pos() {
            Some(order_of(self.max.pos(), other.max.pos()))
        } else {
            Some(order_of(self.min.pos(), other.min.pos()))
        }
    }
}

impl<T: MinMax + PartialEq> PartialOrd for Range<T> {
    fn partial_cmp(&self, other: &Range<T>) -> (r: Option<Ordering>) {
        if self.min.less_than(&other.min) {
            Some(Ordering::Less)
        } else if other.min.less_than(&self.min) {
            Some(Ordering::Greater)
        } else if self.max.less_than(&other.max) {
            Some(Ordering::Less)
        } else if other.max.less_than(&self.max) {
            Some(Ordering::Greater)
        } else {
            Some(Ordering::Equal)
        }
    }
}

impl<T: MinMax + PartialEq> PartialOrdSpecImpl for BoundedValue<T> {
    open spec fn obeys_partial_cmp_spec() -> bool {
        true
    }

    open spec fn partial_cmp_spec(&self, other: &BoundedValue<T>) -> Option<Ordering> {
        Some(order_of(self.rank(), other.rank()))
    }
}

impl<T: MinMax + PartialEq> PartialOrd for BoundedValue<T> {
    fn partial_cmp(&self, other: &BoundedValue<T>) -> (r: Option<Ordering>) {
        if self.less_than(other) {
            Some(Ordering::Less)
        } else if other.less_than(self) {
            Some(Ordering::Greater)
        } else {
            Some(Ordering::Equal)
        }
    }
}

impl<T: MinMax + PartialEq> PartialEqSpecImpl<MaxPair<T>> for MinPair<T> {
    open spec fn obeys_eq_spec() -> bool {
        true
    }

    open spec fn eq_spec(&self, other: &MaxPair<T>) -> bool {
        self.value == other.value && self.inclusivity == other.inclusivity
    }
}

/// A lower endpoint equals an upper endpoint where they have the same value
/// and the same inclusivity.
impl<T: MinMax + PartialEq> PartialEq<MaxPair<T>> for MinPair<T> {
    fn eq(&self, other: &MaxPair<T>) -> (r: bool) {
        proof {
            if self.value.rank() == other.value.rank() {
                self.value.rank_injective(other.value);
            }
        }
        self.value.same(&other.value) && self.inclusivity == other.inclusivity
    }
}

impl<T: MinMax + PartialEq> PartialEqSpecImpl<MinPair<T>> for MaxPair<T> {
    open spec fn obeys_eq_spec() -> bool {
        true
    }

    open spec fn eq_spec(&self, other: &MinPair<T>) -> bool {
        self.value == other.value && self.inclusivity == other.inclusivity
    }
}

/// An upper endpoint equals a lower endpoint where they have the same value
/// and the same inclusivity.
impl<T: MinMax + PartialEq> PartialEq<MinPair<T>> for MaxPair<T> {
    fn eq(&self, other: &MinPair<T>) -> (r: bool) {
        proof {
            if self.value.rank() == other.value.rank() {
                self.value.rank_injective(other.value);
            }
        }
        self.value.same(&other.value) && self.inclusivity == other.inclusivity
    }
}

impl<T: MinMax + PartialEq> PartialOrdSpecImpl<MaxPair<T>> for MinPair<T> {
    open spec fn obeys_partial_cmp_spec() -> bool {
        true
    }

    open spec fn partial_cmp_spec(&self, other: &MaxPair<T>) -> Option<Ordering> {
        Some(order_of(self.pos(), other.pos()))
    }
}

/// A lower endpoint against an upper endpoint: at equal values they are
/// equal where both are inclusive, and else the lower endpoint is the
/// greater, since the two do not meet.
impl<T: MinMax + PartialEq> PartialOrd<MaxPair<T>> for MinPair<T> {
    fn partial_cmp(&self, other: &MaxPair<T>) -> (r: Option<Ordering>) {
        if self.less_than_max(other) {
            Some(Ordering::Less)
        } else if other.less_than_min(self) {
            Some(Ordering::Greater)
        } else {
            Some(Ordering::Equal)
        }
    }
}

impl<T: MinMax + PartialEq> PartialOrdSpecImpl<MinPair<T>> for MaxPair<T> {
    open spec fn obeys_partial_cmp_spec() -> bool {
        true
    }

    open spec fn partial_cmp_spec(&self, other: &MinPair<T>) -> Option<Ordering> {
        Some(order_of(self.pos(), other.pos()))
    }
}

/// An upper endpoint against a lower endpoint: at equal values they are
/// equal where both are inclusive, and else the upper endpoint is the
/// lesser.
impl<T: MinMax + PartialEq> PartialOrd<MinPair<T>> for MaxPair<T> {
    fn partial_cmp(&self, other: &MinPair<T>) -> (r: Option<Ordering>) {
        if self.less_than_min(other) {
            Some(Ordering::Less)
        } else if other.less_than_max(self) {
            Some(Ordering::Greater)
        } else {
            Some(Ordering::Equal)
        }
    }
}

impl<T: MinMax + PartialEq> PartialEqSpecImpl<T> for BoundedValue<T> {
    open spec fn obeys_eq_spec() -> bool {
        true
    }

    open spec fn eq_spec(&self, other: &T) -> bool {
        *self == BoundedValue::Raw(*other)
    }
}

/// An extended scalar equals a scalar where it is that scalar.
impl<T: MinMax + PartialEq> PartialEq<T> for BoundedValue<T> {
    fn eq(&self, other: &T) -> (r: bool) {
        match self {
            BoundedValue::Raw(s) => {
                proof {
                    if s.rank() == other.rank() {
                        s.rank_injective(*other);
                    }
                }
                s.same(other)
            },
            _ => false,
        }
    }
}

impl<T: MinMax + PartialEq> PartialOrdSpecImpl<T> for BoundedValue<T> {
    open spec fn obeys_partial_cmp_spec() -> bool {
        true
    }

    open spec fn partial_cmp_spec(&self, other: &T) -> Option<Ordering> {
        Some(order_of(self.rank(), other.rank()))
    }
}

/// An extended scalar against a scalar: the lower bound is less than every
/// scalar and the upper bound greater.
impl<T: MinMax + PartialEq> PartialOrd<T> for BoundedValue<T> {
    fn partial_cmp(&self, other: &T) -> (r: Option<Ordering>) {
        proof {
            other.rank_in_bounds();
        }
        match self {
            BoundedValue::Min => Some(Ordering::Less),
            BoundedValue::Raw(s) => if s.less_than(other) {
                Some(Ordering::Less)
            } else if other.less_than(s) {
                Some(Ordering::Greater)
            } else {
                Some(Ordering::Equal)
            },
            BoundedValue::Max => Some(Ordering::Greater),
        }
    }
}

} // verus!
