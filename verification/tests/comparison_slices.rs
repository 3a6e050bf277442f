use numerical_value_analysis::bounded_value::BoundedValue;
use numerical_value_analysis::numerical_value::{Inclusivity, NumericalValue, Range};
use numerical_value_analysis::numerical_value_analysis::{
    handle_comparison, parse_value_expression, Diagnostic, Value, VariableValueSlice,
};
use numerical_value_analysis::parse::Expression;
use numerical_value_analysis::table::Table;

fn a_from_minus_three_to_minus_one() -> Table<Value> {
    let mut variables = Table::new();
    variables.insert(
        "a".to_string(),
        NumericalValue::new_value(
            BoundedValue::Raw(-3),
            Inclusivity::Inclusive,
            BoundedValue::Raw(-1),
            Inclusivity::Exclusive,
        ),
    );
    variables
}

#[test]
fn parse_value_expression_1() {
    assert_eq!(
        parse_value_expression(
            &Expression::Binary {
                left: Box::new(Expression::Identifier("a".to_string())),
                op: "+".to_string(),
                right: Box::new(Expression::Number(13)),
            },
            &a_from_minus_three_to_minus_one()).unwrap(),
        NumericalValue::new_value(BoundedValue::Raw(10), Inclusivity::Inclusive,
                                  BoundedValue::Raw(12), Inclusivity::Exclusive));
}

#[test]
fn parse_value_expression_2() {
    assert_eq!(
        parse_value_expression(
            &Expression::Binary {
                left: Box::new(Expression::Identifier("a".to_string())),
                op: "-".to_string(),
                right: Box::new(Expression::Number(13)),
            },
            &a_from_minus_three_to_minus_one()).unwrap(),
        NumericalValue::new_value(BoundedValue::Raw(-16), Inclusivity::Inclusive,
                                  BoundedValue::Raw(-14), Inclusivity::Exclusive));

    assert_eq!(
        parse_value_expression(
            &Expression::Binary {
                left: Box::new(Expression::Number(13)),
                op: "-".to_string(),
                right: Box::new(Expression::Identifier("a".to_string())),
            },
            &a_from_minus_three_to_minus_one()).unwrap(),
        NumericalValue::new_value(BoundedValue::Raw(14), Inclusivity::Exclusive,
                                  BoundedValue::Raw(16), Inclusivity::Inclusive));
}

#[test]
fn handle_comparison_1() {
    let mut variables = Table::new();
    variables.insert("a".to_string(), NumericalValue::universe());
    let mut slices = Vec::new();
    let mut diagnostics = Vec::new();
    let outcome = handle_comparison("pos", &Expression::Identifier("a".to_string()), "<", &Expression::Number(130), &variables, &mut slices, &mut diagnostics);
    assert_eq!(outcome, Ok(()));
    assert_eq!(slices,
               vec![VariableValueSlice {
                   name: "a".to_string(),
                   pass: Range::new(BoundedValue::Min, Inclusivity::Inclusive,
                                    BoundedValue::Raw(130), Inclusivity::Exclusive),
                   fail: Range::new(BoundedValue::Raw(130), Inclusivity::Inclusive,
                                    BoundedValue::Max, Inclusivity::Inclusive),
               }]);
    assert!(diagnostics.is_empty());
}

#[test]
fn handle_comparison_2() {
    let mut variables = Table::new();
    variables.insert("a".to_string(), NumericalValue::universe());
    let mut slices = Vec::new();
    let mut diagnostics = Vec::new();
    let outcome = handle_comparison("pos", &Expression::Identifier("a".to_string()), "<=", &Expression::Number(32), &variables, &mut slices, &mut diagnostics);
    assert_eq!(outcome, Ok(()));
    assert_eq!(slices,
               vec![VariableValueSlice {
                   name: "a".to_string(),
                   pass: Range::new(BoundedValue::Min, Inclusivity::Inclusive,
                                    BoundedValue::Raw(32), Inclusivity::Inclusive),
                   fail: Range::new(BoundedValue::Raw(32), Inclusivity::Exclusive,
                                    BoundedValue::Max, Inclusivity::Inclusive),
               }]);
    assert!(diagnostics.is_empty());
}

#[test]
fn handle_comparison_3() {
    let mut variables = Table::new();
    variables.insert("a".to_string(), NumericalValue::universe());
    let mut slices = Vec::new();
    let mut diagnostics = Vec::new();
    let outcome = handle_comparison("pos", &Expression::Binary { left: Box::new(Expression::Identifier("a".to_string())),
                                op: "+".to_string(),
                                right: Box::new(Expression::Number(10)), },
                      "<", &Expression::Number(32), &variables, &mut slices, &mut diagnostics);
    assert_eq!(outcome, Ok(()));
    assert_eq!(slices,
               vec![VariableValueSlice {
                   name: "a".to_string(),
                   pass: Range::new(BoundedValue::Min, Inclusivity::Inclusive,
                                    BoundedValue::Raw(22), Inclusivity::Exclusive),
                   fail: Range::new(BoundedValue::Raw(22), Inclusivity::Inclusive,
                                    BoundedValue::Max, Inclusivity::Inclusive),
               }]);
    assert!(diagnostics.is_empty());
}

#[test]
fn handle_comparison_4() {
    let mut variables = Table::new();
    variables.insert("a".to_string(), NumericalValue::universe());
    let mut slices = Vec::new();
    let mut diagnostics = Vec::new();
    let outcome = handle_comparison("pos", &Expression::Binary { left: Box::new(Expression::Identifier("a".to_string())),
                                op: "-".to_string(),
                                right: Box::new(Expression::Number(10)), },
                      "<=", &Expression::Number(32), &variables, &mut slices, &mut diagnostics);
    assert_eq!(outcome, Ok(()));
    // a - 10 <= 32
    // a <= 42
    assert_eq!(slices,
               vec![VariableValueSlice {
                   name: "a".to_string(),
                   pass: Range::new(BoundedValue::Min, Inclusivity::Inclusive,
                                    BoundedValue::Raw(42), Inclusivity::Inclusive),
                   fail: Range::new(BoundedValue::Raw(42), Inclusivity::Exclusive,
                                    BoundedValue::Max, Inclusivity::Inclusive),
               }]);
    assert!(diagnostics.is_empty());
}

#[test]
fn handle_comparison_5() {
    let mut variables = Table::new();
    variables.insert("a".to_string(), NumericalValue::universe());
    let mut slices = Vec::new();
    let mut diagnostics = Vec::new();
    let outcome = handle_comparison("pos", &Expression::Binary { left: Box::new(Expression::Number(10)),
                                op: "-".to_string(),
                                right: Box::new(Expression::Identifier("a".to_string())), },
                      ">", &Expression::Number(32), &variables, &mut slices, &mut diagnostics);
    assert_eq!(outcome, Ok(()));
    // 10 - a > 32
    // a < -22
    assert_eq!(slices,
               vec![VariableValueSlice {
                   name: "a".to_string(),
                   pass: Range::new(BoundedValue::Min, Inclusivity::Inclusive,
                                    BoundedValue::Raw(-22), Inclusivity::Exclusive),
                   fail: Range::new(BoundedValue::Raw(-22), Inclusivity::Inclusive,
                                    BoundedValue::Max, Inclusivity::Inclusive),
               }]);
    assert!(diagnostics.is_empty());
}

#[test]
fn handle_comparison_6() {
    let mut variables = Table::new();
    variables.insert("a".to_string(), NumericalValue::universe());
    // 4 * a <= 32
    // a <= 8
    let mut slices = Vec::new();
    let mut diagnostics = Vec::new();
    let outcome = handle_comparison("pos", &Expression::Binary { left: Box::new(Expression::Number(4)),
                                op: "*".to_string(),
                                right: Box::new(Expression::Identifier("a".to_string())), },
                      "<=", &Expression::Number(32), &variables, &mut slices, &mut diagnostics);
    assert_eq!(outcome, Ok(()));
    assert_eq!(slices,
               vec![VariableValueSlice {
                   name: "a".to_string(),
                   pass: Range::new(BoundedValue::Min, Inclusivity::Inclusive,
                                    BoundedValue::Raw(8), Inclusivity::Inclusive),
                   fail: Range::new(BoundedValue::Raw(8), Inclusivity::Exclusive,
                                    BoundedValue::Max, Inclusivity::Inclusive),
               }]);
    assert!(diagnostics.is_empty());
}

#[test]
fn handle_comparison_6_2() {
    let mut variables = Table::new();
    variables.insert("a".to_string(), NumericalValue::universe());
    let mut slices = Vec::new();
    let mut diagnostics = Vec::new();
    // a * 4 <= 32
    // a <= 8
    let outcome = handle_comparison("pos", &Expression::Binary { left: Box::new(Expression::Number(4)),
                                op: "*".to_string(),
                                right: Box::new(Expression::Identifier("a".to_string())), },
                      "<=", &Expression::Number(32), &variables, &mut slices, &mut diagnostics);
    assert_eq!(outcome, Ok(()));
    assert_eq!(slices,
               vec![VariableValueSlice {
                   name: "a".to_string(),
                   pass: Range::new(BoundedValue::Min, Inclusivity::Inclusive,
                                    BoundedValue::Raw(8), Inclusivity::Inclusive),
                   fail: Range::new(BoundedValue::Raw(8), Inclusivity::Exclusive,
                                    BoundedValue::Max, Inclusivity::Inclusive),
               }]);
    assert!(diagnostics.is_empty());
}

#[test]
fn handle_comparison_7() {
    let mut variables = Table::new();
    variables.insert("a".to_string(), NumericalValue::universe());
    let mut slices = Vec::new();
    let mut diagnostics = Vec::new();
    // 32 / a >= 4
    // a <= 32 / 4
    // a <= 8
    let outcome = handle_comparison("pos", &Expression::Binary { left: Box::new(Expression::Number(32)),
                                op: "/".to_string(),
                                right: Box::new(Expression::Identifier("a".to_string())), },
                      ">=", &Expression::Number(4), &variables, &mut slices, &mut diagnostics);
    assert_eq!(outcome, Ok(()));
    assert_eq!(slices,
               vec![VariableValueSlice {
                   name: "a".to_string(),
                   pass: Range::new(BoundedValue::Min, Inclusivity::Inclusive,
                                    BoundedValue::Raw(8), Inclusivity::Inclusive),
                   fail: Range::new(BoundedValue::Raw(8), Inclusivity::Exclusive,
                                    BoundedValue::Max, Inclusivity::Inclusive),
               }]);
    assert!(diagnostics.is_empty());
}

#[test]
fn handle_comparison_8() {
    let mut variables = Table::new();
    variables.insert("a".to_string(), NumericalValue::universe());
    let mut slices = Vec::new();
    let mut diagnostics = Vec::new();
    // a / 4 <= 32
    // a <= 128
    let outcome = handle_comparison("pos", &Expression::Binary { left: Box::new(Expression::Identifier("a".to_string())),
                                op: "/".to_string(),
                                right: Box::new(Expression::Number(4)), },
                      "<=", &Expression::Number(32), &variables, &mut slices, &mut diagnostics);
    assert_eq!(outcome, Ok(()));
    assert_eq!(slices,
               vec![VariableValueSlice {
                   name: "a".to_string(),
                   pass: Range::new(BoundedValue::Min, Inclusivity::Inclusive,
                                    BoundedValue::Raw(128), Inclusivity::Inclusive),
                   fail: Range::new(BoundedValue::Raw(128), Inclusivity::Exclusive,
                                    BoundedValue::Max, Inclusivity::Inclusive),
               }]);
    assert!(diagnostics.is_empty());
}

#[test]
fn handle_comparison_9() {
    let mut variables = Table::new();
    variables.insert("a".to_string(), NumericalValue::universe());
    let mut slices = Vec::new();
    let mut diagnostics = Vec::new();
    // a == 32
    let outcome = handle_comparison("pos", &Expression::Identifier("a".to_string()),
                      "==", &Expression::Number(32), &variables, &mut slices, &mut diagnostics);
    assert_eq!(outcome, Ok(()));
    assert_eq!(slices,
               vec![VariableValueSlice {
                   name: "a".to_string(),
                   pass: Range::from(BoundedValue::Raw(32)),
                   fail: Range::universe(),
               }]);
    assert!(diagnostics.is_empty());
}

#[test]
fn handle_comparison_9_2() {
    let mut variables = Table::new();
    variables.insert("a".to_string(), NumericalValue::universe());
    let mut slices = Vec::new();
    let mut diagnostics = Vec::new();
    // a / 4 == 32
    // a == 128
    let outcome = handle_comparison("pos", &Expression::Binary { left: Box::new(Expression::Identifier("a".to_string())),
                                op: "/".to_string(),
                                right: Box::new(Expression::Number(4)), },
                      "==", &Expression::Number(32), &variables, &mut slices, &mut diagnostics);
    assert_eq!(outcome, Ok(()));
    assert_eq!(slices,
               vec![VariableValueSlice {
                   name: "a".to_string(),
                   pass: Range::from(BoundedValue::Raw(128)),
                   fail: Range::universe(),
               }]);
    assert!(diagnostics.is_empty());
}

#[test]
fn handle_comparison_10() {
    let mut variables = Table::new();
    variables.insert("a".to_string(), NumericalValue::universe());
    let mut slices = Vec::new();
    let mut diagnostics = Vec::new();
    // 32 / a != 4
    // a != 8
    let outcome = handle_comparison("pos", &Expression::Binary { left: Box::new(Expression::Number(32)),
                                op: "/".to_string(),
                                right: Box::new(Expression::Identifier("a".to_string())) },
                      "!=", &Expression::Number(4), &variables, &mut slices, &mut diagnostics);
    assert_eq!(outcome, Ok(()));
    assert_eq!(slices,
               vec![VariableValueSlice {
                   name: "a".to_string(),
                   pass: Range::universe(),
                   fail: Range::from(BoundedValue::Raw(8)),
               }]);
    assert!(diagnostics.is_empty());
}

#[test]
fn handle_comparison_11() {
    let mut variables = Table::new();
    variables.insert("a".to_string(), NumericalValue::universe());
    let mut slices = Vec::new();
    let mut diagnostics = Vec::new();
    // 32 <= a / 4
    // a >= 128
    let outcome = handle_comparison("pos", &Expression::Number(32),
                      "<=",
                      &Expression::Binary { left: Box::new(Expression::Identifier("a".to_string())),
                                op: "/".to_string(),
                                right: Box::new(Expression::Number(4)), },
                      &variables, &mut slices, &mut diagnostics);
    assert_eq!(outcome, Ok(()));
    assert_eq!(slices,
               vec![VariableValueSlice {
                   name: "a".to_string(),
                   pass: Range::new(BoundedValue::Raw(128), Inclusivity::Inclusive,
                                    BoundedValue::Max, Inclusivity::Inclusive),
                   fail: Range::new(BoundedValue::Min, Inclusivity::Inclusive,
                                    BoundedValue::Raw(128), Inclusivity::Exclusive),
               }]);
    assert!(diagnostics.is_empty());
}

#[test]
fn handle_comparison_12() {
    let mut variables = Table::new();
    variables.insert("a".to_string(), NumericalValue::universe());
    let mut slices = Vec::new();
    let mut diagnostics = Vec::new();
    // 4 != 32 / a
    // a != 8
    let outcome = handle_comparison("pos", &Expression::Number(4),
                      "!=",
                      &Expression::Binary { left: Box::new(Expression::Number(32)),
                                op: "/".to_string(),
                                right: Box::new(Expression::Identifier("a".to_string())) },
                      &variables, &mut slices, &mut diagnostics);
    assert_eq!(outcome, Ok(()));
    assert_eq!(slices,
               vec![VariableValueSlice {
                   name: "a".to_string(),
                   pass: Range::universe(),
                   fail: Range::from(BoundedValue::Raw(8)),
               }]);
    assert!(diagnostics.is_empty());
}

#[test]
fn handle_comparison_13() {
    let mut variables = Table::new();
    variables.insert("a".to_string(), NumericalValue::universe());
    let mut slices = Vec::new();
    let mut diagnostics = Vec::new();
    // 32 % a < 40
    // a in [0, 40)
    let outcome = handle_comparison("pos", &Expression::Binary { left: Box::new(Expression::Number(32)),
                                op: "%".to_string(),
                                right: Box::new(Expression::Identifier("a".to_string())) },
                      "<", &Expression::Number(40), &variables, &mut slices, &mut diagnostics);
    assert_eq!(outcome, Ok(()));
    assert_eq!(slices,
               vec![VariableValueSlice {
                   name: "a".to_string(),
                   pass: Range::new(BoundedValue::Min, Inclusivity::Inclusive,
                                    BoundedValue::Raw(40), Inclusivity::Exclusive),
                   fail: Range::new(BoundedValue::Raw(40), Inclusivity::Inclusive,
                                    BoundedValue::Max, Inclusivity::Inclusive),
               }]);
    assert!(diagnostics.is_empty());
}

#[test]
fn handle_comparison_14() {
    let mut variables = Table::new();
    variables.insert("a".to_string(), NumericalValue::from(Range::new(
        BoundedValue::Raw(2), Inclusivity::Inclusive,
        BoundedValue::Raw(12), Inclusivity::Inclusive)));
    variables.insert("b".to_string(), NumericalValue::from(Range::new(
        BoundedValue::Raw(0), Inclusivity::Inclusive,
        BoundedValue::Raw(10), Inclusivity::Inclusive)));
    let mut slices = Vec::new();
    let mut diagnostics = Vec::new();
    // a < b
    // [2, 12] < [0, 10]
    // A_T = [2, 10)
    // A_F = [2, 12]
    // B_T = (2, 10]
    // B_F = [0, 10]
    let outcome = handle_comparison("pos", &Expression::Identifier("a".to_string()),
                      "<", &Expression::Identifier("b".to_string()),
                      &variables, &mut slices, &mut diagnostics);
    assert_eq!(outcome, Ok(()));
    assert_eq!(slices,
               vec![VariableValueSlice {
                   name: "a".to_string(),
                   pass: Range::new(BoundedValue::Raw(2), Inclusivity::Inclusive,
                                    BoundedValue::Raw(10), Inclusivity::Exclusive),
                   fail: Range::new(BoundedValue::Raw(2), Inclusivity::Inclusive,
                                    BoundedValue::Raw(12), Inclusivity::Inclusive),
               },
               VariableValueSlice {
                   name: "b".to_string(),
                   pass: Range::new(BoundedValue::Raw(2), Inclusivity::Exclusive,
                                    BoundedValue::Raw(10), Inclusivity::Inclusive),
                   fail: Range::new(BoundedValue::Raw(0), Inclusivity::Inclusive,
                                    BoundedValue::Raw(10), Inclusivity::Inclusive),
               }]);
    assert!(diagnostics.is_empty());
}

#[test]
fn handle_comparison_15() {
    let mut variables = Table::new();
    variables.insert("a".to_string(), NumericalValue::from(Range::new(
        BoundedValue::Raw(2), Inclusivity::Inclusive,
        BoundedValue::Raw(12), Inclusivity::Inclusive)));
    variables.insert("b".to_string(), NumericalValue::from(Range::new(
        BoundedValue::Raw(0), Inclusivity::Inclusive,
        BoundedValue::Raw(10), Inclusivity::Inclusive)));
    let mut slices = Vec::new();
    let mut diagnostics = Vec::new();
    // a + 3 < b
    // [2, 12] + 3 < [0, 10]
    // A_T = [2, 7)
    // A_F = [2, 12]
    // B_T = (5, 10]
    // B_F = [0, 10]
    let outcome = handle_comparison("pos", &Expression::Binary { left: Box::new(Expression::Identifier("a".to_string())),
                                op: "+".to_string(),
                                right: Box::new(Expression::Number(3)) },
                      "<", &Expression::Identifier("b".to_string()),
                      &variables, &mut slices, &mut diagnostics);
    assert_eq!(outcome, Ok(()));
    assert_eq!(slices,
               vec![VariableValueSlice {
                   name: "a".to_string(),
                   pass: Range::new(BoundedValue::Raw(2), Inclusivity::Inclusive,
                                    BoundedValue::Raw(7), Inclusivity::Exclusive),
                   fail: Range::new(BoundedValue::Raw(2), Inclusivity::Inclusive,
                                    BoundedValue::Raw(12), Inclusivity::Inclusive),
               },
               VariableValueSlice {
                   name: "b".to_string(),
                   pass: Range::new(BoundedValue::Raw(5), Inclusivity::Exclusive,
                                    BoundedValue::Raw(10), Inclusivity::Inclusive),
                   fail: Range::new(BoundedValue::Raw(0), Inclusivity::Inclusive,
                                    BoundedValue::Raw(10), Inclusivity::Inclusive),
               }]);
    assert!(diagnostics.is_empty());
}

#[test]
fn handle_comparison_16() {
    let mut variables = Table::new();
    variables.insert("a".to_string(), NumericalValue::from(Range::new(
        BoundedValue::Raw(2), Inclusivity::Inclusive,
        BoundedValue::Raw(12), Inclusivity::Inclusive)));
    variables.insert("b".to_string(), NumericalValue::from(Range::new(
        BoundedValue::Raw(0), Inclusivity::Inclusive,
        BoundedValue::Raw(10), Inclusivity::Inclusive)));
    let mut slices = Vec::new();
    let mut diagnostics = Vec::new();
    // b > 3 + a
    // [0, 10] > 3 + [2, 12]
    // A_T = [2, 7)
    // A_F = [2, 12]
    // B_T = (5, 10]
    // B_F = [0, 10]
    let outcome = handle_comparison("pos", &Expression::Identifier("b".to_string()), ">",
                      &Expression::Binary { left: Box::new(Expression::Number(3)),
                                op: "+".to_string(),
                                right: Box::new(Expression::Identifier("a".to_string())) },
                      &variables, &mut slices, &mut diagnostics);
    assert_eq!(outcome, Ok(()));
    assert_eq!(slices,
               vec![VariableValueSlice {
                   name: "b".to_string(),
                   pass: Range::new(BoundedValue::Raw(5), Inclusivity::Exclusive,
                                    BoundedValue::Raw(10), Inclusivity::Inclusive),
                   fail: Range::new(BoundedValue::Raw(0), Inclusivity::Inclusive,
                                    BoundedValue::Raw(10), Inclusivity::Inclusive),
               },
               VariableValueSlice {
                   name: "a".to_string(),
                   pass: Range::new(BoundedValue::Raw(2), Inclusivity::Inclusive,
                                    BoundedValue::Raw(7), Inclusivity::Exclusive),
                   fail: Range::new(BoundedValue::Raw(2), Inclusivity::Inclusive,
                                    BoundedValue::Raw(12), Inclusivity::Inclusive),
               }]);
    assert!(diagnostics.is_empty());
}

#[test]
fn handle_comparison__creates_diagnostics_1() {
    let mut variables = Table::new();
    variables.insert("a".to_string(), NumericalValue::from(BoundedValue::Raw(2)));
    variables.insert("b".to_string(), NumericalValue::from(BoundedValue::Raw(10)));
    let mut slices = Vec::new();
    let mut diagnostics = Vec::new();
    let outcome = handle_comparison("pos", &Expression::Identifier("a".to_string()),
                      "<", &Expression::Identifier("b".to_string()),
                      &variables, &mut slices, &mut diagnostics);
    assert_eq!(outcome, Ok(()));
    assert!(slices.is_empty());
    assert_eq!(diagnostics,
               vec![Diagnostic {
                   location: "pos".to_string(),
                   always_true: true,
               }]);
    assert_eq!(diagnostics[0].message(), "Expression is always true");
}

#[test]
fn handle_comparison__creates_diagnostics_2() {
    let mut variables = Table::new();
    variables.insert("a".to_string(), NumericalValue::from(BoundedValue::Raw(2)));
    variables.insert("b".to_string(), NumericalValue::from(BoundedValue::Raw(10)));
    let mut slices = Vec::new();
    let mut diagnostics = Vec::new();
    let outcome = handle_comparison("pos", &Expression::Identifier("a".to_string()),
                      ">", &Expression::Identifier("b".to_string()),
                      &variables, &mut slices, &mut diagnostics);
    assert_eq!(outcome, Ok(()));
    assert!(slices.is_empty());
    assert_eq!(diagnostics,
               vec![Diagnostic {
                   location: "pos".to_string(),
                   always_true: false,
               }]);
    assert_eq!(diagnostics[0].message(), "Expression is always false");
}

#[test]
fn handle_comparison__creates_diagnostics_3() {
    let mut variables = Table::new();
    variables.insert("a".to_string(), NumericalValue::new_value(
        BoundedValue::Raw(2), Inclusivity::Inclusive,
        BoundedValue::Raw(7), Inclusivity::Exclusive));
    variables.insert("b".to_string(), NumericalValue::from(BoundedValue::Raw(10)));
    let mut slices = Vec::new();
    let mut diagnostics = Vec::new();
    let outcome = handle_comparison("pos", &Expression::Binary { left: Box::new(Expression::Identifier("a".to_string())),
                                       op: "+".to_string(),
                                       right: Box::new(Expression::Number(3)) },
                      "<", &Expression::Identifier("b".to_string()),
                      &variables, &mut slices, &mut diagnostics);
    assert_eq!(outcome, Ok(()));
    assert!(slices.is_empty());
    assert_eq!(diagnostics,
               vec![Diagnostic {
                   location: "pos".to_string(),
                   always_true: true,
               }]);
    assert_eq!(diagnostics[0].message(), "Expression is always true");
}

#[test]
fn handle_comparison__creates_diagnostics_4() {
    let mut variables = Table::new();
    variables.insert("a".to_string(), NumericalValue::new_value(
        BoundedValue::Raw(2), Inclusivity::Inclusive,
        BoundedValue::Raw(7), Inclusivity::Exclusive));
    variables.insert("b".to_string(), NumericalValue::from(BoundedValue::Raw(10)));
    let mut slices = Vec::new();
    let mut diagnostics = Vec::new();
    let outcome = handle_comparison("pos", &Expression::Binary { left: Box::new(Expression::Identifier("a".to_string())),
                                       op: "+".to_string(),
                                       right: Box::new(Expression::Number(3)) },
                      "==", &Expression::Identifier("b".to_string()),
                      &variables, &mut slices, &mut diagnostics);
    assert_eq!(outcome, Ok(()));
    assert!(slices.is_empty());
    assert_eq!(diagnostics,
               vec![Diagnostic {
                   location: "pos".to_string(),
                   always_true: false,
               }]);
    assert_eq!(diagnostics[0].message(), "Expression is always false");
}
