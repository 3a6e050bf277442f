use numerical_value_analysis::bounded_value::BoundedValue;
use numerical_value_analysis::bounded_value::BoundedValue::{Max, Min, Raw};
use numerical_value_analysis::numerical_value::Inclusivity::{Exclusive, Inclusive};
use numerical_value_analysis::numerical_value::{MaxPair, MinPair, Range};
use std::cmp::Ordering;

fn lower(value: i32, inclusive: bool) -> MinPair<i32> {
    MinPair { value, inclusivity: if inclusive { Inclusive } else { Exclusive } }
}

fn upper(value: i32, inclusive: bool) -> MaxPair<i32> {
    MaxPair { value, inclusivity: if inclusive { Inclusive } else { Exclusive } }
}

#[test]
fn extended_scalars_are_ordered_with_the_bounds_outside() {
    let lowest: BoundedValue<i64> = Min;
    let highest: BoundedValue<i64> = Max;
    assert!(lowest < Raw(i64::MIN));
    assert!(Raw(i64::MAX) < highest);
    assert!(Raw(-1i64) < Raw(0i64));
    assert!(lowest < highest);
    assert!(lowest <= lowest);
    assert!(!(lowest < lowest));
    assert_eq!(highest.partial_cmp(&highest), Some(Ordering::Equal));
    assert_eq!(Raw(5i64).partial_cmp(&Raw(3i64)), Some(Ordering::Greater));
}

#[test]
fn extended_scalars_compare_to_scalars() {
    let lowest: BoundedValue<i64> = Min;
    let highest: BoundedValue<i64> = Max;
    assert!(lowest < 0i64);
    assert!(highest > 0i64);
    assert!(Raw(-1i64) < 0i64);
    assert!(Raw(1i64) >= 1i64);
    assert!(Raw(1i64) == 1i64);
    assert!(Raw(1i64) != 2i64);
    assert!(lowest != i64::MIN);
    assert!(highest != i64::MAX);
}

#[test]
fn lower_endpoints_put_inclusive_first() {
    assert!(lower(3, true) < lower(3, false));
    assert!(lower(3, false) < lower(4, true));
    assert!(lower(2, false) < lower(3, true));
    assert_eq!(lower(3, false).partial_cmp(&lower(3, false)), Some(Ordering::Equal));
    assert!(lower(3, true).less_than(&lower(3, false)));
    assert!(!lower(3, false).less_than(&lower(3, true)));
}

#[test]
fn upper_endpoints_put_exclusive_first() {
    assert!(upper(3, false) < upper(3, true));
    assert!(upper(3, true) < upper(4, false));
    assert!(upper(2, true) < upper(3, false));
    assert_eq!(upper(3, true).partial_cmp(&upper(3, true)), Some(Ordering::Equal));
    assert!(upper(3, false).less_than(&upper(3, true)));
}

#[test]
fn a_lower_and_an_upper_endpoint_meet_only_where_both_are_inclusive() {
    assert_eq!(lower(3, true).partial_cmp(&upper(3, true)), Some(Ordering::Equal));
    assert_eq!(lower(3, true).partial_cmp(&upper(3, false)), Some(Ordering::Greater));
    assert_eq!(lower(3, false).partial_cmp(&upper(3, true)), Some(Ordering::Greater));
    assert_eq!(lower(3, false).partial_cmp(&upper(3, false)), Some(Ordering::Greater));
    assert_eq!(upper(3, true).partial_cmp(&lower(3, true)), Some(Ordering::Equal));
    assert_eq!(upper(3, false).partial_cmp(&lower(3, true)), Some(Ordering::Less));
    assert_eq!(upper(3, true).partial_cmp(&lower(3, false)), Some(Ordering::Less));
    assert_eq!(upper(3, false).partial_cmp(&lower(3, false)), Some(Ordering::Less));
    // Values that differ decide alone.
    assert!(lower(3, false) < upper(4, false));
    assert!(upper(3, true) < lower(4, true));
    assert!(lower(5, true) > upper(4, true));
    assert!(lower(3, true).at_most_max(&upper(3, true)));
    assert!(!lower(3, false).at_most_max(&upper(3, true)));
    assert!(lower(3, false).less_than_max(&upper(4, false)));
    assert!(!lower(3, true).less_than_max(&upper(3, true)));
    assert!(upper(3, false).less_than_min(&lower(3, false)));
    assert!(!upper(3, true).less_than_min(&lower(3, true)));
}

#[test]
fn endpoints_of_different_sides_are_equal_by_value_and_inclusivity() {
    assert!(lower(3, true) == upper(3, true));
    assert!(lower(3, false) == upper(3, false));
    assert!(lower(3, true) != upper(3, false));
    assert!(upper(3, true) != lower(4, true));
    assert!(upper(3, false) == lower(3, false));
}

#[test]
fn an_upper_endpoint_meets_a_lower_one_unless_a_position_is_left_out() {
    assert!(upper(5, true).meets(&lower(5, true)));
    assert!(upper(5, true).meets(&lower(5, false)));
    assert!(upper(5, false).meets(&lower(5, true)));
    assert!(!upper(5, false).meets(&lower(5, false)));
    assert!(!upper(5, true).meets(&lower(6, true)));
    assert!(upper(5, true).meets(&lower(2, false)));
}

#[test]
fn ranges_are_ordered_by_their_lower_and_then_their_upper_endpoint() {
    let a = Range::new(1, Inclusive, 5, Inclusive);
    assert!(a < Range::new(1, Exclusive, 2, Inclusive));
    assert!(a < Range::new(1, Inclusive, 6, Exclusive));
    assert!(Range::new(1, Inclusive, 5, Exclusive) < a);
    assert!(a > Range::new(0, Inclusive, 9, Inclusive));
    assert_eq!(a.partial_cmp(&a), Some(Ordering::Equal));
    assert!(a.same(&Range::new(1, Inclusive, 5, Inclusive)));
    assert!(!a.same(&Range::new(1, Inclusive, 5, Exclusive)));
    assert!(a.is_valid());
    assert!(!Range::new(5, Exclusive, 5, Inclusive).is_valid());
    assert!(Range::new(5, Exclusive, 6, Exclusive).is_valid());
}
