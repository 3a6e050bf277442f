use numerical_value_analysis::bounded_value::BoundedValue;
use numerical_value_analysis::bounded_value::BoundedValue::{Max, Min, Raw};
use numerical_value_analysis::numerical_value::Inclusivity::{Exclusive, Inclusive};
use numerical_value_analysis::numerical_value::{Inclusivity, NumericalValue, Range};
use numerical_value_analysis::numerical_value_analysis::{handle_comparison, Value};
use numerical_value_analysis::parse::Expression;
use numerical_value_analysis::table::Table;

fn sample_ranges() -> Vec<Range<BoundedValue<i64>>> {
    let values = [Min, Raw(-7), Raw(0), Raw(3), Max];
    let tags = [Inclusive, Exclusive];
    let mut ranges = Vec::new();
    for lo in values.iter() {
        for hi in values.iter() {
            for lo_tag in tags.iter() {
                for hi_tag in tags.iter() {
                    ranges.push(Range::new(*lo, *lo_tag, *hi, *hi_tag));
                }
            }
        }
    }
    ranges
}

#[test]
fn sum_and_product_of_ranges_commute() {
    let ranges = sample_ranges();
    for r1 in ranges.iter() {
        for r2 in ranges.iter() {
            assert_eq!(r1.can_add(r2), r2.can_add(r1));
            if r1.can_add(r2) {
                assert_eq!(*r1 + *r2, *r2 + *r1);
            }
            assert_eq!(r1.can_mul(r2), r2.can_mul(r1));
            if r1.can_mul(r2) {
                assert_eq!(*r1 * *r2, *r2 * *r1);
            }
        }
    }
}

#[test]
fn sum_of_ranges_by_its_endpoints() {
    let closed = Range::new(Raw(1), Inclusive, Raw(5), Inclusive);
    let open = Range::new(Raw(10), Exclusive, Raw(20), Exclusive);
    let half = Range::new(Raw(10), Inclusive, Raw(20), Exclusive);
    assert_eq!(closed + closed, Range::new(Raw(2), Inclusive, Raw(10), Inclusive));
    assert_eq!(closed + half, Range::new(Raw(11), Inclusive, Raw(25), Exclusive));
    assert_eq!(closed + open, Range::new(Raw(11), Exclusive, Raw(25), Exclusive));
    // Two exclusive ends move the bound one step inwards.
    assert_eq!(open + open, Range::new(Raw(21), Exclusive, Raw(39), Exclusive));
    assert_eq!(open * open, Range::new(Raw(101), Exclusive, Raw(399), Exclusive));
    assert_eq!(closed * half, Range::new(Raw(10), Inclusive, Raw(100), Exclusive));
    assert_eq!(closed - half, Range::new(Raw(-19), Exclusive, Raw(-5), Inclusive));
    assert_eq!(
        Range::new(Min, Inclusive, Raw(5), Inclusive) + closed,
        Range::new(Min, Inclusive, Raw(10), Inclusive)
    );
    assert_eq!(
        Range::new(Min, Exclusive, Max, Exclusive) + open,
        Range::new(Min, Exclusive, Max, Exclusive)
    );
    assert_eq!(closed.negate(), Range::new(Raw(-5), Inclusive, Raw(-1), Inclusive));
    assert_eq!(half.negate(), Range::new(Raw(-20), Exclusive, Raw(-10), Inclusive));
}

#[test]
fn an_integer_of_a_range_moves_with_the_range() {
    let ranges = sample_ranges();
    for r in ranges.iter() {
        for k in -9i64..6 {
            if !r.contains(k) {
                continue;
            }
            for c in [-4i64, 0, 1, 11] {
                assert!((*r + Range::from(Raw(c))).contains(k + c));
                assert!((*r - Range::from(Raw(c))).contains(k - c));
            }
        }
    }
}

#[test]
fn membership_follows_the_inclusivity_of_the_ends() {
    let range = Range::new(Raw(-3), Exclusive, Raw(4), Inclusive);
    assert!(!range.contains(-3));
    assert!(range.contains(-2));
    assert!(range.contains(4));
    assert!(!range.contains(5));
    assert!(Range::<BoundedValue<i64>>::universe().contains(i64::MIN));
    assert!(Range::<BoundedValue<i64>>::universe().contains(i64::MAX));
    assert!(!Range::new(Max, Inclusive, Max, Inclusive).contains(i64::MAX));
    assert!(!Range::new(Min, Inclusive, Min, Inclusive).contains(i64::MIN));
}

fn compare_in(
    a: &Range<BoundedValue<i64>>,
    b: &Range<BoundedValue<i64>>,
    left: &Expression,
    op: &str,
    right: &Expression,
    holds: &dyn Fn(i64, i64) -> bool,
) {
    let mut variables: Table<Value> = Table::new();
    variables.insert("a".to_string(), NumericalValue::from(*a));
    variables.insert("b".to_string(), NumericalValue::from(*b));
    let mut slices = Vec::new();
    let mut diagnostics = Vec::new();
    let outcome =
        handle_comparison("pos", left, op, right, &variables, &mut slices, &mut diagnostics);
    assert_eq!(outcome, Ok(()));
    for x in -6i64..16 {
        for y in -6i64..16 {
            if !a.contains(x) || !b.contains(y) {
                continue;
            }
            for slice in slices.iter() {
                let value = if slice.name == "a" { x } else { y };
                if holds(x, y) {
                    assert!(slice.pass.contains(value));
                } else {
                    assert!(slice.fail.contains(value));
                }
            }
        }
    }
}

#[test]
fn slices_of_sums_and_differences_say_the_truth() {
    let a = Range::new(Raw(2), Inclusive, Raw(12), Inclusive);
    let b = Range::new(Raw(0), Exclusive, Raw(10), Exclusive);
    let var = |name: &str| Expression::Identifier(name.to_string());
    let binary = |left: Expression, op: &str, right: Expression| Expression::Binary {
        left: Box::new(left),
        op: op.to_string(),
        right: Box::new(right),
    };
    compare_in(&a, &b, &var("a"), "<", &var("b"), &|x, y| x < y);
    compare_in(&a, &b, &var("a"), ">=", &var("b"), &|x, y| x >= y);
    compare_in(&a, &b, &var("a"), "==", &var("b"), &|x, y| x == y);
    compare_in(&a, &b, &var("a"), "!=", &var("b"), &|x, y| x != y);
    compare_in(
        &a,
        &b,
        &binary(var("a"), "+", Expression::Number(3)),
        "<=",
        &var("b"),
        &|x, y| x + 3 <= y,
    );
    compare_in(
        &a,
        &b,
        &binary(var("a"), "-", var("b")),
        ">",
        &Expression::Number(4),
        &|x, y| x - y > 4,
    );
    compare_in(
        &a,
        &b,
        &binary(Expression::Number(20), "-", binary(var("a"), "+", var("b"))),
        "<",
        &binary(var("b"), "-", Expression::Number(1)),
        &|x, y| 20 - (x + y) < y - 1,
    );
}

#[test]
fn a_slice_of_a_product_need_not_say_the_truth() {
    // -4 * a <= 32 holds of a = 0, which the pass range leaves out.
    let mut variables: Table<Value> = Table::new();
    variables.insert("a".to_string(), NumericalValue::universe());
    let mut slices = Vec::new();
    let mut diagnostics = Vec::new();
    let outcome = handle_comparison(
        "pos",
        &Expression::Binary {
            left: Box::new(Expression::Number(-4)),
            op: "*".to_string(),
            right: Box::new(Expression::Identifier("a".to_string())),
        },
        "<=",
        &Expression::Number(32),
        &variables,
        &mut slices,
        &mut diagnostics,
    );
    assert_eq!(outcome, Ok(()));
    assert_eq!(slices.len(), 1);
    assert_eq!(slices[0].pass, Range::new(Min, Inclusive, Raw(-8), Inclusive));
    assert!(!slices[0].pass.contains(0));
    assert_eq!(Inclusivity::Inclusive.flip(), Exclusive);
}
