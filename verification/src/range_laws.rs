//! What holds of the arithmetic on ranges beyond the contract of each
//! operation.

use vstd::prelude::*;
use vstd::wrapping::i64_specs::{wrapping_add, wrapping_sub};
use crate::bounded_value::BoundedValue;
use crate::numerical_value::{Inclusivity, Range};

verus! {

/// The sum of two extended integers, where they have one, does not depend
/// on their order.
pub proof fn law_scalar_sum_commutes(a: BoundedValue<i64>, b: BoundedValue<i64>)
    requires
        a.sum_defined(b),
    ensures
        b.sum_defined(a),
        a.sum(b) == b.sum(a),
{
}

/// The product of two extended integers, where they have one, does not
/// depend on their order.
pub proof fn law_scalar_product_commutes(a: BoundedValue<i64>, b: BoundedValue<i64>)
    requires
        a.product_defined(b),
    ensures
        b.product_defined(a),
        a.product(b) == b.product(a),
{
    if let (BoundedValue::Raw(x), BoundedValue::Raw(y)) = (a, b) {
        assert(x * y == y * x) by (nonlinear_arith);
    }
}

/// The sum of two ranges, where they have one, does not depend on their
/// order.
pub proof fn law_sum_commutes(r1: Range<BoundedValue<i64>>, r2: Range<BoundedValue<i64>>)
    requires
        r1.sum_defined(r2),
    ensures
        r2.sum_defined(r1),
        r1.sum(r2) == r2.sum(r1),
{
    law_scalar_sum_commutes(r1.min.value, r2.min.value);
    law_scalar_sum_commutes(r1.max.value, r2.max.value);
}

/// The product of two ranges, where they have one, does not depend on
/// their order.
pub proof fn law_product_commutes(r1: Range<BoundedValue<i64>>, r2: Range<BoundedValue<i64>>)
    requires
        r1.product_defined(r2),
    ensures
        r2.product_defined(r1),
        r1.product(r2) == r2.product(r1),
{
    law_scalar_product_commutes(r1.min.value, r2.min.value);
    law_scalar_product_commutes(r1.max.value, r2.max.value);
}

/// The range of the one integer `c`.
pub open spec fn only(c: i64) -> Range<BoundedValue<i64>> {
    Range::new_spec(
        BoundedValue::Raw(c),
        Inclusivity::Inclusive,
        BoundedValue::Raw(c),
        Inclusivity::Inclusive,
    )
}

/// Whether moving the finite endpoints of `r` by `c` stays within the
/// 64-bit integers, so that nothing wraps around.
pub open spec fn shift_fits(r: Range<BoundedValue<i64>>, c: int) -> bool {
    &&& r.min.value matches BoundedValue::Raw(a) ==> i64::MIN <= a + c <= i64::MAX
    &&& r.max.value matches BoundedValue::Raw(b) ==> i64::MIN <= b + c <= i64::MAX
}

/// An integer of a range, moved up by `c`, lies in the sum of the range
/// with the range of `c` alone, as long as no endpoint wraps around.
pub proof fn law_sum_holds_shifted(r: Range<BoundedValue<i64>>, k: int, c: i64)
    requires
        r.contains_int(k),
        shift_fits(r, c as int),
    ensures
        r.sum_defined(only(c)),
        r.sum(only(c)).contains_int(k + c),
{
    let s = r.sum(only(c));
    if let BoundedValue::Raw(a) = r.min.value {
        assert(wrapping_add(a, c) == a + c);
        assert(wrapping_add((a + c) as i64, 0) == a + c);
    }
    if let BoundedValue::Raw(b) = r.max.value {
        assert(wrapping_add(b, c) == b + c);
        assert(wrapping_add((b + c) as i64, 0) == b + c);
    }
}

/// An integer of a range, moved down by `c`, lies in the difference of the
/// range and the range of `c` alone, as long as no endpoint wraps around
/// and `c` has a negative.
pub proof fn law_difference_holds_shifted(r: Range<BoundedValue<i64>>, k: int, c: i64)
    requires
        r.contains_int(k),
        c != i64::MIN,
        shift_fits(r, -(c as int)),
    ensures
        r.difference_defined(only(c)),
        r.difference(only(c)).contains_int(k - c),
{
    let minus = wrapping_sub(0, c);
    assert(minus == -c);
    assert(only(c).negated() == only(minus));
    law_sum_holds_shifted(r, k, minus);
}

} // verus!
