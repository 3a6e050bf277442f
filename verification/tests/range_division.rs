use numerical_value_analysis::bounded_value::BoundedValue::{Max, Min, Raw};
use numerical_value_analysis::numerical_value::Inclusivity::{Exclusive, Inclusive};
use numerical_value_analysis::numerical_value::Range;

#[test]
fn bounded_value_div_1() {
    assert_eq!(Raw(4) / Raw(2), Raw(2));
    assert_eq!(Raw(4) / Min, Raw(0));
}

#[test]
fn div_1() {
    assert_eq!(Range::from(Raw(32)) / Range::from(Raw(4)), Range::from(Raw(8)));
}

#[test]
fn div_2() {
    assert_eq!(
        Range::from(Raw(32)) / Range::new(Min, Inclusive, Raw(4), Inclusive),
        Range::new(Raw(-32), Inclusive, Raw(32), Inclusive)
    );
}

#[test]
fn div_3() {
    assert_eq!(
        Range::from(Raw(32)) / Range::new(Raw(1), Inclusive, Raw(4), Inclusive),
        Range::new(Raw(8), Inclusive, Raw(32), Inclusive)
    );
}

#[test]
fn div_4() {
    assert_eq!(
        Range::from(Raw(32)) / Range::new(Raw(4), Inclusive, Max, Inclusive),
        Range::new(Raw(0), Inclusive, Raw(8), Inclusive)
    );
}

#[test]
fn div_5() {
    assert_eq!(
        Range::new(Min, Inclusive, Raw(32), Inclusive) / Range::from(Raw(4)),
        Range::new(Min, Inclusive, Raw(8), Inclusive)
    );
}

#[test]
fn div_6() {
    assert_eq!(
        Range::from(Raw(32)) / Range::new(Raw(-4), Inclusive, Max, Inclusive),
        Range::new(Raw(-32), Inclusive, Raw(32), Inclusive)
    );
}

#[test]
fn div_7() {
    assert_eq!(
        Range::from(Raw(32)) / Range::new(Raw(1), Inclusive, Max, Inclusive),
        Range::new(Raw(0), Inclusive, Raw(32), Inclusive)
    );
}

#[test]
fn div_8() {
    assert_eq!(
        Range::new(Raw(4), Inclusive, Raw(8), Inclusive)
            / Range::new(Raw(-2), Inclusive, Raw(4), Inclusive),
        Range::new(Raw(-8), Inclusive, Raw(8), Inclusive)
    );
}

#[test]
fn div_9() {
    assert_eq!(
        Range::from(Raw(32)) / Range::new(Min, Inclusive, Raw(4), Inclusive),
        Range::new(Raw(-32), Inclusive, Raw(32), Inclusive)
    );
}

#[test]
fn div_10() {
    assert_eq!(
        Range::from(Raw(32)) / Range::new(Raw(4), Inclusive, Max, Inclusive),
        Range::new(Raw(0), Inclusive, Raw(8), Inclusive)
    );
}

#[test]
fn mod_1() {
    assert_eq!(
        Range::universe() % Range::new(Raw(0), Inclusive, Raw(4), Inclusive),
        Range::new(Raw(0), Inclusive, Raw(4), Inclusive)
    );
}

#[test]
fn division_by_a_negative_range_swaps_the_ends() {
    // [4, 8] / [-4, -2]: from 8 / -2 up to 4 / -4.
    assert_eq!(
        Range::new(Raw(4), Inclusive, Raw(8), Inclusive)
            / Range::new(Raw(-4), Inclusive, Raw(-2), Inclusive),
        Range::new(Raw(-4), Inclusive, Raw(-1), Inclusive)
    );
}

#[test]
fn division_with_a_negative_dividend_across_zero() {
    // The lower endpoint dominates: [-8, -4] / [-2, 4] = [-8, 8].
    assert_eq!(
        Range::new(Raw(-8), Inclusive, Raw(-4), Inclusive)
            / Range::new(Raw(-2), Inclusive, Raw(4), Inclusive),
        Range::new(Raw(-8), Inclusive, Raw(8), Inclusive)
    );
    // |-4| < 8, the upper endpoint dominates.
    assert_eq!(
        Range::new(Raw(-4), Inclusive, Raw(8), Inclusive)
            / Range::new(Raw(-2), Inclusive, Raw(4), Inclusive),
        Range::new(Raw(-8), Inclusive, Raw(8), Inclusive)
    );
}

#[test]
fn division_is_defined_unless_the_divisor_is_zero_only() {
    let dividend = Range::from(Raw(32));
    assert!(!dividend.can_div(&Range::from(Raw(0))));
    assert!(dividend.can_div(&Range::from(Raw(4))));
    assert!(dividend.can_div(&Range::new(Raw(0), Inclusive, Raw(4), Inclusive)));
    assert!(!dividend.can_div(&Range::new(Raw(0), Inclusive, Raw(0), Exclusive)));
    assert!(dividend.can_div(&Range::from(Max)));
}
