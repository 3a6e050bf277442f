use numerical_value_analysis::bounded_value::div_wrapping;
use numerical_value_analysis::bounded_value::BoundedValue;
use numerical_value_analysis::bounded_value::BoundedValue::{Max, Min, Raw};
use numerical_value_analysis::numerical_value::MinMax;

#[test]
fn sum_absorbs_into_the_bounds() {
    assert_eq!(Raw(4) + Raw(2), Raw(6));
    assert_eq!(Min + Raw(2), Min);
    assert_eq!(Raw(2) + Min, Min);
    assert_eq!(Raw(2) + Max, Max);
    assert_eq!(Max + Raw(-7), Max);
    assert_eq!(Max + Max, Max);
    assert_eq!(Min + Min, Min);
}

#[test]
fn sum_of_scalars_wraps_around() {
    assert_eq!(Raw(i64::MAX) + Raw(1), Raw(i64::MIN));
    assert_eq!(Raw(i64::MIN) + Raw(-1), Raw(i64::MAX));
}

#[test]
fn product_follows_the_sign_of_the_scalar() {
    assert_eq!(Raw(4) * Raw(-3), Raw(-12));
    assert_eq!(Min * Raw(2), Min);
    assert_eq!(Min * Raw(-2), Max);
    assert_eq!(Min * Raw(0), Raw(0));
    assert_eq!(Max * Raw(2), Max);
    assert_eq!(Max * Raw(-2), Min);
    assert_eq!(Max * Raw(0), Raw(0));
    assert_eq!(Raw(3) * Min, Min);
    assert_eq!(Raw(-3) * Min, Max);
    assert_eq!(Raw(0) * Max, Raw(0));
    assert_eq!(Raw(-3) * Max, Min);
    assert_eq!(Max * Max, Max);
    assert_eq!(Min * Min, Min);
}

#[test]
fn product_of_scalars_wraps_around() {
    assert_eq!(Raw(i64::MAX) * Raw(2), Raw(-2));
    assert_eq!(Raw(i64::MIN) * Raw(-1), Raw(i64::MIN));
}

#[test]
fn quotient_rounds_towards_zero() {
    assert_eq!(Raw(7) / Raw(2), Raw(3));
    assert_eq!(Raw(-7) / Raw(2), Raw(-3));
    assert_eq!(Raw(7) / Raw(-2), Raw(-3));
    assert_eq!(Raw(-7) / Raw(-2), Raw(3));
    assert_eq!(Raw(0) / Raw(-2), Raw(0));
    assert_eq!(div_wrapping(i64::MIN, -1), i64::MIN);
    assert_eq!(div_wrapping(i64::MIN, 1), i64::MIN);
    assert_eq!(div_wrapping(i64::MAX, -1), -i64::MAX);
}

#[test]
fn quotient_with_the_bounds() {
    assert_eq!(Raw(4) / Max, Raw(0));
    assert_eq!(Raw(-4) / Min, Raw(0));
    assert_eq!(Min / Raw(2), Min);
    assert_eq!(Min / Raw(-2), Max);
    assert_eq!(Max / Raw(2), Max);
    assert_eq!(Max / Raw(-2), Min);
    assert_eq!(Min / Min, Max);
    assert_eq!(Max / Max, Max);
    assert_eq!(Min / Max, Min);
    assert_eq!(Max / Min, Min);
}

#[test]
fn negation_swaps_the_bounds() {
    assert_eq!(-Min, Max);
    assert_eq!(-Max, Min);
    assert_eq!(-Raw(5), Raw(-5));
    assert_eq!(-Raw(i64::MIN), Raw(i64::MIN));
}

#[test]
fn magnitude_of_either_bound_is_the_upper_bound() {
    assert_eq!(Min.abs(), Max);
    assert_eq!(Max.abs(), Max);
    assert_eq!(Raw(-5).abs(), Raw(5));
    assert_eq!(Raw(5).abs(), Raw(5));
    assert_eq!(Raw(i64::MIN).abs(), Raw(i64::MIN));
}

#[test]
fn map_applies_to_the_scalar_only() {
    assert_eq!(Raw(4).map(|v: i64| v + 1), Raw(5));
    assert_eq!(BoundedValue::<i64>::Min.map(|v: i64| v + 1), Min);
    assert_eq!(BoundedValue::<i64>::Max.map(|v: i64| v + 1), Max);
}

#[test]
fn unwrap_gives_the_extreme_scalars_for_the_bounds() {
    assert_eq!(Raw(4i64).unwrap(), 4);
    assert_eq!(BoundedValue::<i64>::Min.unwrap(), i64::MIN);
    assert_eq!(BoundedValue::<i64>::Max.unwrap(), i64::MAX);
    assert_eq!(BoundedValue::<i32>::Min.unwrap(), i32::MIN);
    assert_eq!(BoundedValue::<i32>::Max.unwrap(), i32::MAX);
}

#[test]
fn the_bounds_lie_outside_all_scalars() {
    let lowest = BoundedValue::<i64>::Min;
    let highest = BoundedValue::<i64>::Max;
    assert!(lowest.less_than(&Raw(i64::MIN)));
    assert!(Raw(i64::MAX).less_than(&highest));
    assert!(Raw(-1i64).less_than(&Raw(0)));
    assert!(lowest.less_than(&highest));
    assert!(!highest.less_than(&highest));
    assert!(!lowest.less_than(&lowest));
    assert!(!Raw(3i64).less_than(&lowest));
    assert!(Min.same(&BoundedValue::<i64>::min_value()));
    assert!(Max.same(&BoundedValue::<i64>::max_value()));
    assert!(!Raw(i64::MIN).same(&Min));
}

#[test]
fn scalar_texts() {
    assert_eq!(BoundedValue::<i64>::Min.to_text(), "-inf");
    assert_eq!(BoundedValue::<i64>::Max.to_text(), "inf");
    assert_eq!(Raw(0i64).to_text(), "0");
    assert_eq!(Raw(-120i64).to_text(), "-120");
    assert_eq!(Raw(i64::MIN).to_text(), "-9223372036854775808");
    assert_eq!(Raw(i64::MAX).to_text(), "9223372036854775807");
    assert_eq!(i32::MIN.to_text(), "-2147483648");
    assert_eq!(907i32.to_text(), "907");
}
