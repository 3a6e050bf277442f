use numerical_value_analysis::numerical_value::Inclusivity::{Exclusive, Inclusive};
use numerical_value_analysis::numerical_value::{Inclusivity, NumericalValue, Range};

#[test]
fn union_test_1() {
    let mut value = NumericalValue::new_value(-3, Inclusive, 3, Exclusive);
    assert_eq!(value.to_text(), "[-3, 3)");

    value = value.union_value(-5, Exclusive, 0, Exclusive);
    assert_eq!(value.to_text(), "(-5, 3)");

    value = value.union_value(-5, Inclusive, 3, Inclusive);
    assert_eq!(value.to_text(), "[-5, 3]");

    assert_eq!(
        NumericalValue::new_value(-5, Exclusive, 0, Exclusive)
            .union_value(-3, Inclusive, 3, Exclusive)
            .to_text(),
        "(-5, 3)"
    );
}

#[test]
fn union_test_2() {
    let mut value = NumericalValue::new_value(-3, Inclusive, 3, Exclusive);
    assert_eq!(value.to_text(), "[-3, 3)");

    value = value.union_value(-5, Exclusive, 0, Exclusive);
    assert_eq!(value.to_text(), "(-5, 3)");
}

#[test]
fn union_test_3() {
    let mut value = NumericalValue::new_value(-5, Inclusive, 5, Exclusive);
    assert_eq!(value.to_text(), "[-5, 5)");

    value = value.union_value(5, Exclusive, 8, Inclusive);
    assert_eq!(value.to_text(), "[-5, 5) U (5, 8]");

    assert_eq!(value.union_value(5, Inclusive, 5, Inclusive).to_text(), "[-5, 8]");
    assert_eq!(
        NumericalValue::new_value(5, Inclusive, 5, Inclusive).union(&value).to_text(),
        "[-5, 8]"
    );
}

#[test]
fn union_test_4() {
    assert_eq!(
        NumericalValue::new_value(-3, Exclusive, 10, Inclusive)
            .union_value(-8, Exclusive, -6, Inclusive)
            .to_text(),
        "(-8, -6] U (-3, 10]"
    );
}

#[test]
fn intersect_test_1() {
    let mut value = NumericalValue::new_value(-5, Inclusive, 5, Exclusive);
    value = value.intersect(
        &NumericalValue::new_value(-3, Inclusive, -1, Inclusive)
            .union_value(2, Exclusive, 4, Inclusive),
    );
    assert_eq!(value.to_text(), "[-3, -1] U (2, 4]");

    value = NumericalValue::new_value(-3, Inclusive, -1, Inclusive)
        .union_value(2, Exclusive, 4, Inclusive);
    value = value.intersect(&NumericalValue::new_value(-5, Inclusive, 5, Exclusive));
    assert_eq!(value.to_text(), "[-3, -1] U (2, 4]");
}

#[test]
fn intersect_test_2() {
    let mut value = NumericalValue::new_value(-5, Inclusive, 5, Exclusive);
    value = value.intersect(
        &NumericalValue::new_value(-3, Exclusive, 10, Inclusive)
            .union_value(-8, Exclusive, -6, Inclusive),
    );
    assert_eq!(value.to_text(), "(-3, 5)");
}

#[test]
fn inverse_test_1() {
    assert_eq!(NumericalValue::<i32>::new().inverse().to_text(), "[-2147483648, 2147483647]");
}

#[test]
fn inverse_test_2() {
    let value: NumericalValue<i32> = NumericalValue::new_value(-7, Exclusive, -2, Exclusive)
        .union_value(1, Inclusive, 3, Inclusive);
    assert_eq!(value.to_text(), "(-7, -2) U [1, 3]");
    assert_eq!(value.inverse().to_text(), "[-2147483648, -7] U [-2, 1) U (3, 2147483647]");
}

#[test]
fn integration_test() {
    let value = NumericalValue::new_value(-3, Exclusive, 4, Inclusive);
    let range = value.range().unwrap();
    assert_eq!(range.to_text(), value.to_text());
    assert_eq!(range.before().to_text(), "[-2147483648, -3]");
    assert_eq!(range.after().to_text(), "(4, 2147483647]");
}

#[test]
fn the_empty_set_prints_as_zero_zero() {
    let value = NumericalValue::<i32>::new();
    assert_eq!(value.to_text(), "(0, 0)");
    assert!(value.is_empty());
    assert!(value.range().is_none());
    assert!(value.min().is_none());
    assert!(value.max().is_none());
}

#[test]
fn a_range_that_holds_nothing_gives_the_empty_set() {
    assert!(NumericalValue::new_value(5, Exclusive, 5, Exclusive).is_empty());
    assert!(NumericalValue::new_value(5, Inclusive, 5, Exclusive).is_empty());
    assert!(NumericalValue::new_value(6, Inclusive, 5, Inclusive).is_empty());
    assert_eq!(NumericalValue::new_value(5, Inclusive, 5, Inclusive).to_text(), "[5, 5]");
    assert_eq!(NumericalValue::new_value(5, Exclusive, 6, Exclusive).to_text(), "(5, 6)");
}

#[test]
fn union_is_idempotent_and_has_the_empty_set_as_unit() {
    let a = NumericalValue::new_value(-7, Exclusive, -2, Exclusive)
        .union_value(1, Inclusive, 3, Inclusive)
        .union_value(10, Inclusive, 30, Exclusive);
    assert_eq!(a.union(&a), a);
    assert_eq!(a.union(&NumericalValue::new()), a);
    assert_eq!(NumericalValue::new().union(&a), a);
    assert_eq!(a.intersect(&a), a);
    assert_eq!(a.intersect(&NumericalValue::universe()), a);
    assert_eq!(a.inverse().inverse(), a);
    assert!(a.intersect(&a.inverse()).is_empty());
    assert_eq!(a.union(&a.inverse()), NumericalValue::universe());
}

#[test]
fn complement_of_the_universe_is_empty() {
    assert!(NumericalValue::<i32>::universe().inverse().is_empty());
    assert_eq!(NumericalValue::<i32>::new().inverse(), NumericalValue::universe());
    assert_eq!(
        NumericalValue::new_value(i32::MIN, Inclusive, 0, Exclusive).inverse().to_text(),
        "[0, 2147483647]"
    );
    assert_eq!(
        NumericalValue::new_value(0, Exclusive, i32::MAX, Inclusive).inverse().to_text(),
        "[-2147483648, 0]"
    );
}

#[test]
fn union_fuses_a_run_of_ranges_under_one_wide_range() {
    let pieces = NumericalValue::new_value(1, Inclusive, 2, Inclusive)
        .union_value(3, Inclusive, 4, Inclusive)
        .union_value(5, Inclusive, 6, Inclusive)
        .union_value(20, Inclusive, 21, Inclusive);
    assert_eq!(pieces.to_text(), "[1, 2] U [3, 4] U [5, 6] U [20, 21]");
    let wide = NumericalValue::new_value(0, Inclusive, 10, Inclusive);
    assert_eq!(wide.union(&pieces).to_text(), "[0, 10] U [20, 21]");
    assert_eq!(pieces.union(&wide).to_text(), "[0, 10] U [20, 21]");
    assert_eq!(wide.intersect(&pieces).to_text(), "[1, 2] U [3, 4] U [5, 6]");
    assert_eq!(pieces.intersect(&wide).to_text(), "[1, 2] U [3, 4] U [5, 6]");
}

#[test]
fn touching_ranges_fuse_unless_both_ends_are_exclusive() {
    let left = NumericalValue::new_value(0, Inclusive, 5, Exclusive);
    assert_eq!(left.union_value(5, Inclusive, 9, Inclusive).to_text(), "[0, 9]");
    assert_eq!(left.union_value(5, Exclusive, 9, Inclusive).to_text(), "[0, 5) U (5, 9]");
    let closed = NumericalValue::new_value(0, Inclusive, 5, Inclusive);
    assert_eq!(closed.union_value(5, Exclusive, 9, Inclusive).to_text(), "[0, 9]");
    assert_eq!(closed.union_value(6, Inclusive, 9, Inclusive).to_text(), "[0, 5] U [6, 9]");
}

#[test]
fn hull_runs_from_the_lowest_to_the_highest_endpoint() {
    let value = NumericalValue::new_value(-7, Exclusive, -2, Exclusive)
        .union_value(1, Inclusive, 3, Inclusive);
    assert_eq!(value.range(), Some(Range::new(-7, Exclusive, 3, Inclusive)));
    assert_eq!(value.min().unwrap().value, -7);
    assert_eq!(value.min().unwrap().inclusivity, Exclusive);
    assert_eq!(value.max().unwrap().value, 3);
    assert_eq!(value.max().unwrap().inclusivity, Inclusive);
    assert_eq!(value.len(), 2);
    assert_eq!(value.get(1), Range::new(1, Inclusive, 3, Inclusive));
}

#[test]
fn intersection_with_a_range_or_with_two_endpoints() {
    let value = NumericalValue::new_value(-5, Inclusive, 5, Exclusive);
    assert_eq!(
        value.intersect_range(&Range::new(0, Exclusive, 9, Inclusive)).to_text(),
        "(0, 5)"
    );
    assert_eq!(value.intersect_value(-9, Inclusive, -5, Inclusive).to_text(), "[-5, -5]");
    assert!(value.intersect_value(5, Inclusive, 9, Inclusive).is_empty());
    assert!(value.intersect_range(&Range::new(3, Inclusive, 2, Inclusive)).is_empty());
}

#[test]
fn flip_changes_the_inclusivity() {
    assert_eq!(Inclusive.flip(), Exclusive);
    assert_eq!(Exclusive.flip(), Inclusive);
    assert_eq!(Inclusivity::Inclusive.flip().flip(), Inclusive);
}

#[test]
fn inverse_of_a_range_is_what_lies_around_it() {
    let range = Range::new(-3, Exclusive, 4, Inclusive);
    let (before, after) = range.inverse();
    assert_eq!(before, range.before());
    assert_eq!(after, range.after());
    assert_eq!(before, Range::new(i32::MIN, Inclusive, -3, Inclusive));
    assert_eq!(after, Range::new(4, Exclusive, i32::MAX, Inclusive));
    assert_eq!(Range::<i32>::universe(), Range::new(i32::MIN, Inclusive, i32::MAX, Inclusive));
}

#[test]
fn copies_and_comparisons_of_sets() {
    let value = NumericalValue::new_value(-7, Exclusive, -2, Exclusive)
        .union_value(1, Inclusive, 3, Inclusive);
    let copy = value.duplicate();
    assert_eq!(copy, value);
    assert!(copy.same(&value));
    assert!(!copy.same(&NumericalValue::new_value(-7, Exclusive, -2, Exclusive)));
    assert!(!copy.same(&value.union_value(3, Exclusive, 4, Inclusive)));
    let from_range: NumericalValue<i32> = NumericalValue::from(Range::new(1, Inclusive, 3, Inclusive));
    assert_eq!(from_range.to_text(), "[1, 3]");
    let from_value: NumericalValue<i32> = NumericalValue::from(7);
    assert_eq!(from_value.to_text(), "[7, 7]");
}

fn small_sets() -> Vec<NumericalValue<i32>> {
    let tags = [Inclusive, Exclusive];
    let mut ranges = Vec::new();
    for lo in 0..4 {
        for hi in lo..4 {
            for lo_tag in tags.iter() {
                for hi_tag in tags.iter() {
                    ranges.push(Range::new(lo, *lo_tag, hi, *hi_tag));
                }
            }
        }
    }
    let mut sets = vec![NumericalValue::new()];
    for first in ranges.iter() {
        sets.push(NumericalValue::from(*first));
        for second in ranges.iter().step_by(5) {
            sets.push(NumericalValue::from(*first).union(&NumericalValue::from(*second)));
        }
    }
    sets
}

fn holds(set: &NumericalValue<i32>, value: i32) -> bool {
    !set.intersect_value(value, Inclusive, value, Inclusive).is_empty()
}

#[test]
fn union_intersection_and_complement_agree_with_membership() {
    let sets = small_sets();
    for a in sets.iter().step_by(3) {
        let complement = a.inverse();
        for value in -1..6 {
            assert_eq!(holds(&complement, value), !holds(a, value));
        }
        assert_eq!(complement.inverse(), *a);
        for b in sets.iter().step_by(7) {
            let union = a.union(b);
            let intersection = a.intersect(b);
            for value in -1..6 {
                assert_eq!(holds(&union, value), holds(a, value) || holds(b, value));
                assert_eq!(holds(&intersection, value), holds(a, value) && holds(b, value));
            }
            assert_eq!(union, b.union(a));
            assert_eq!(intersection, b.intersect(a));
            assert_eq!(union.intersect(a), *a);
            assert_eq!(intersection.union(a), *a);
            // De Morgan.
            assert_eq!(union.inverse(), complement.intersect(&b.inverse()));
        }
    }
}
