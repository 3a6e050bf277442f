use numerical_value_analysis::bounded_value::BoundedValue::Raw;
use numerical_value_analysis::numerical_value::Inclusivity::{Exclusive, Inclusive};
use numerical_value_analysis::numerical_value::NumericalValue;
use numerical_value_analysis::numerical_value_analysis::{
    analyze, analyze_within, numerical_value_analysis, AnalysisError, Diagnostic, Value,
};
use numerical_value_analysis::parse::{
    parse_, Declaration, Expression, Graph, Node, NodeValue, Successor,
};
use numerical_value_analysis::table::Table;

fn edge(key: &str, value: i64) -> Successor {
    Successor { key: key.to_string(), value }
}

fn node(key: &str, value: NodeValue, successors: Vec<Successor>) -> Node {
    Node { key: key.to_string(), value, successors }
}

fn declare(name: &str, initializer: Expression) -> NodeValue {
    NodeValue::VariableDeclaration {
        declarations: vec![Declaration { identifier: name.to_string(), initializer }],
    }
}

fn variable(name: &str) -> Expression {
    Expression::Identifier(name.to_string())
}

fn binary(left: Expression, op: &str, right: Expression) -> Expression {
    Expression::Binary { left: Box::new(left), op: op.to_string(), right: Box::new(right) }
}

fn compare(left: Expression, op: &str, right: Expression) -> NodeValue {
    NodeValue::Comparison { left, op: op.to_string(), right }
}

fn snapshot<'a>(history: &'a Table<Table<Value>>, node: &str, name: &str) -> &'a Value {
    history.get(&node.to_string()).unwrap().get(&name.to_string()).unwrap()
}

#[test]
fn overall_test_1() {
    let mut values = Table::new();
    values.insert("a".to_string(), declare("a", Expression::Other));
    values.insert("b".to_string(), declare("b", Expression::Other));
    values.insert("c".to_string(), compare(variable("a"), "<", Expression::Number(13)));
    values.insert("d".to_string(), NodeValue::Other);
    values.insert("e".to_string(), compare(variable("b"), "<=", Expression::Number(23)));
    values.insert("f".to_string(), NodeValue::Other);
    values.insert("g".to_string(), NodeValue::Other);
    let mut successors = Table::new();
    successors.insert("a".to_string(), vec![edge("b", -1)]);
    successors.insert("b".to_string(), vec![edge("c", -1)]);
    successors.insert("c".to_string(), vec![edge("d", 1), edge("e", 0)]);
    successors.insert("d".to_string(), vec![edge("g", -1)]);
    successors.insert("e".to_string(), vec![edge("f", 1), edge("g", 0)]);
    successors.insert("f".to_string(), vec![edge("g", -1)]);
    successors.insert("g".to_string(), vec![]);
    let graph = Graph::new(values, successors, "a".to_string());
    let mut variables = Table::new();
    let mut history = Table::new();
    let mut diagnostics = Vec::new();
    let outcome =
        numerical_value_analysis(&graph, "a", &mut variables, &mut history, &mut diagnostics, 100);
    assert_eq!(outcome, Ok(()));
    assert_eq!(snapshot(&history, "d", "a").to_text(), "[-inf, 13)");
    assert_eq!(snapshot(&history, "d", "b").to_text(), "[-inf, inf]");
    assert!(diagnostics.is_empty());
    // The other branch, and the node where the branches meet again.
    assert_eq!(snapshot(&history, "e", "a").to_text(), "[13, inf]");
    assert_eq!(snapshot(&history, "f", "b").to_text(), "[-inf, 23]");
    assert_eq!(snapshot(&history, "g", "a").to_text(), "[-inf, inf]");
    assert_eq!(snapshot(&history, "g", "b").to_text(), "[-inf, inf]");
}

fn two_constants(op: &str) -> Graph {
    parse_(vec![
        node("first", declare("a", Expression::Number(2)), vec![edge("second", -1)]),
        node("second", declare("b", Expression::Number(10)), vec![edge("test", -1)]),
        node("test", compare(variable("a"), op, variable("b")), vec![edge("yes", 1), edge("no", 0)]),
        node("yes", NodeValue::Other, vec![]),
        node("no", NodeValue::Other, vec![]),
    ])
}

#[test]
fn a_comparison_of_two_constants_is_reported() {
    assert_eq!(
        analyze(&two_constants("<")),
        Ok(vec![Diagnostic { location: "test".to_string(), always_true: true }])
    );
    assert_eq!(
        analyze(&two_constants("<=")),
        Ok(vec![Diagnostic { location: "test".to_string(), always_true: true }])
    );
    assert_eq!(
        analyze(&two_constants("!=")),
        Ok(vec![Diagnostic { location: "test".to_string(), always_true: true }])
    );
    assert_eq!(
        analyze(&two_constants(">")),
        Ok(vec![Diagnostic { location: "test".to_string(), always_true: false }])
    );
    assert_eq!(
        analyze(&two_constants(">=")),
        Ok(vec![Diagnostic { location: "test".to_string(), always_true: false }])
    );
    assert_eq!(
        analyze(&two_constants("==")),
        Ok(vec![Diagnostic { location: "test".to_string(), always_true: false }])
    );
}

#[test]
fn equal_constants_are_always_equal() {
    let graph = parse_(vec![
        node("first", declare("a", Expression::Number(7)), vec![edge("test", -1)]),
        node("test", compare(variable("a"), "==", Expression::Number(7)), vec![]),
    ]);
    assert_eq!(
        analyze(&graph),
        Ok(vec![Diagnostic { location: "test".to_string(), always_true: true }])
    );
    let graph = parse_(vec![
        node("first", declare("a", Expression::Number(7)), vec![edge("test", -1)]),
        node("test", compare(variable("a"), "!=", Expression::Number(7)), vec![]),
    ]);
    assert_eq!(
        analyze(&graph),
        Ok(vec![Diagnostic { location: "test".to_string(), always_true: false }])
    );
}

#[test]
fn equal_ranges_that_are_no_single_value_are_not_reported() {
    let mut variables: Table<Value> = Table::new();
    variables.insert("a".to_string(), NumericalValue::new_value(Raw(0), Inclusive, Raw(5), Inclusive));
    variables.insert("b".to_string(), NumericalValue::new_value(Raw(0), Inclusive, Raw(5), Inclusive));
    let mut slices = Vec::new();
    let mut diagnostics = Vec::new();
    let outcome = numerical_value_analysis::numerical_value_analysis::handle_comparison(
        "pos",
        &variable("a"),
        "==",
        &variable("b"),
        &variables,
        &mut slices,
        &mut diagnostics,
    );
    assert_eq!(outcome, Ok(()));
    assert!(diagnostics.is_empty());
}

#[test]
fn a_narrowed_branch_decides_a_later_comparison() {
    // if (a < 13) { if (a < 20) { .. } }
    let graph = parse_(vec![
        node("start", declare("a", Expression::Other), vec![edge("outer", -1)]),
        node(
            "outer",
            compare(variable("a"), "<", Expression::Number(13)),
            vec![edge("inner", 1), edge("end", 0)],
        ),
        node(
            "inner",
            compare(variable("a"), "<", Expression::Number(20)),
            vec![edge("end", 1), edge("end", 0)],
        ),
        node("end", NodeValue::Other, vec![]),
    ]);
    assert_eq!(
        analyze(&graph),
        Ok(vec![Diagnostic { location: "inner".to_string(), always_true: true }])
    );
}

#[test]
fn an_unconditional_edge_applies_no_slice() {
    let graph = parse_(vec![
        node("start", declare("a", Expression::Other), vec![edge("test", -1)]),
        node("test", compare(variable("a"), "<", Expression::Number(13)), vec![edge("end", -1)]),
        node("end", NodeValue::Other, vec![]),
    ]);
    let mut variables = Table::new();
    let mut history = Table::new();
    let mut diagnostics = Vec::new();
    let outcome = numerical_value_analysis(
        &graph,
        "start",
        &mut variables,
        &mut history,
        &mut diagnostics,
        100,
    );
    assert_eq!(outcome, Ok(()));
    assert_eq!(snapshot(&history, "end", "a").to_text(), "[-inf, inf]");
}

fn counting_loop() -> Graph {
    // i = 0; while (i < 10) { i = i + 1 }
    parse_(vec![
        node("init", declare("i", Expression::Number(0)), vec![edge("head", -1)]),
        node(
            "head",
            compare(variable("i"), "<", Expression::Number(10)),
            vec![edge("body", 1), edge("exit", 0)],
        ),
        node(
            "body",
            NodeValue::VariableAssignment {
                left: "i".to_string(),
                right: binary(variable("i"), "+", Expression::Number(1)),
            },
            vec![edge("head", -1)],
        ),
        node("exit", NodeValue::Other, vec![]),
    ])
}

#[test]
fn a_loop_reaches_its_fixed_point() {
    let graph = counting_loop();
    let mut variables = Table::new();
    let mut history = Table::new();
    let mut diagnostics = Vec::new();
    let outcome = numerical_value_analysis(
        &graph,
        "init",
        &mut variables,
        &mut history,
        &mut diagnostics,
        1000,
    );
    assert_eq!(outcome, Ok(()));
    assert_eq!(snapshot(&history, "head", "i").to_text(), "[0, 0] U [1, 11)");
    assert_eq!(snapshot(&history, "body", "i").to_text(), "[0, 0] U [1, 10)");
    // While the test always holds it has no slice, and the edge to the exit
    // is followed with the variables as they are.
    assert_eq!(snapshot(&history, "exit", "i").to_text(), "[0, 0] U [1, 9] U [10, 11)");
    // While the head has seen values below ten only, the test always holds.
    assert_eq!(diagnostics.len(), 10);
    for found in diagnostics.iter() {
        assert_eq!(found, &Diagnostic { location: "head".to_string(), always_true: true });
    }
}

#[test]
fn a_second_walk_over_the_snapshots_of_the_first_finds_them_at_rest() {
    let graph = counting_loop();
    let mut variables = Table::new();
    let mut history = Table::new();
    let mut diagnostics = Vec::new();
    let outcome = numerical_value_analysis(
        &graph,
        "init",
        &mut variables,
        &mut history,
        &mut diagnostics,
        1000,
    );
    assert_eq!(outcome, Ok(()));
    let head = snapshot(&history, "head", "i").duplicate();
    let body = snapshot(&history, "body", "i").duplicate();
    let exit = snapshot(&history, "exit", "i").duplicate();
    let found = diagnostics.len();
    // What comes into the head, from the start and from the body, adds
    // nothing to its snapshot any more.
    let from_start = NumericalValue::new_value(Raw(0), Inclusive, Raw(0), Inclusive);
    let from_body = NumericalValue::new_value(Raw(1), Inclusive, Raw(11), Exclusive);
    for incoming in [from_start, from_body] {
        let mut again: Table<Value> = Table::new();
        again.insert("i".to_string(), incoming);
        let outcome = numerical_value_analysis(
            &graph,
            "head",
            &mut again,
            &mut history,
            &mut diagnostics,
            1000,
        );
        assert_eq!(outcome, Ok(()));
    }
    assert_eq!(diagnostics.len(), found);
    assert_eq!(*snapshot(&history, "head", "i"), head);
    assert_eq!(*snapshot(&history, "body", "i"), body);
    assert_eq!(*snapshot(&history, "exit", "i"), exit);
}

#[test]
fn a_walk_that_goes_too_deep_is_given_up() {
    let graph = counting_loop();
    assert_eq!(analyze_within(&graph, 5), Err(AnalysisError::DepthExceeded));
    assert_eq!(analyze_within(&graph, 0), Err(AnalysisError::DepthExceeded));
    assert!(analyze_within(&graph, 1000).is_ok());
    assert_eq!(analyze(&graph), analyze_within(&graph, 1000));
}

#[test]
fn a_long_loop_runs_into_the_depth_limit() {
    // i = 0; while (i < 1000000) { i = i + 1 }
    let graph = parse_(vec![
        node("init", declare("i", Expression::Number(0)), vec![edge("head", -1)]),
        node(
            "head",
            compare(variable("i"), "<", Expression::Number(1000000)),
            vec![edge("body", 1), edge("exit", 0)],
        ),
        node(
            "body",
            NodeValue::VariableAssignment {
                left: "i".to_string(),
                right: binary(variable("i"), "+", Expression::Number(1)),
            },
            vec![edge("head", -1)],
        ),
        node("exit", NodeValue::Other, vec![]),
    ]);
    assert_eq!(analyze(&graph), Err(AnalysisError::DepthExceeded));
}

#[test]
fn snapshots_only_grow_from_visit_to_visit() {
    let graph = counting_loop();
    let mut seen: Vec<Value> = Vec::new();
    for depth in 2..40 {
        let mut variables = Table::new();
        let mut history = Table::new();
        let mut diagnostics = Vec::new();
        let _ = numerical_value_analysis(
            &graph,
            "init",
            &mut variables,
            &mut history,
            &mut diagnostics,
            depth,
        );
        let head = snapshot(&history, "head", "i").duplicate();
        if let Some(last) = seen.last() {
            assert_eq!(last.union(&head), head);
        }
        seen.push(head);
    }
}

#[test]
fn a_missing_node_or_edge_list_stops_the_walk() {
    let mut values = Table::new();
    values.insert("a".to_string(), NodeValue::Other);
    let mut successors = Table::new();
    successors.insert("a".to_string(), vec![edge("nowhere", -1)]);
    let graph = Graph::new(values, successors, "a".to_string());
    assert_eq!(analyze(&graph), Err(AnalysisError::UnknownNode));

    let mut values = Table::new();
    values.insert("a".to_string(), NodeValue::Other);
    let graph = Graph::new(values, Table::new(), "a".to_string());
    assert_eq!(analyze(&graph), Err(AnalysisError::UnknownNode));

    let graph = Graph::new(Table::new(), Table::new(), "a".to_string());
    assert_eq!(analyze(&graph), Err(AnalysisError::UnknownNode));
}

#[test]
fn an_operator_that_is_not_known_stops_the_walk() {
    let graph = parse_(vec![
        node("start", declare("a", Expression::Other), vec![edge("test", -1)]),
        node("test", compare(variable("a"), "<>", Expression::Number(13)), vec![]),
    ]);
    assert_eq!(analyze(&graph), Err(AnalysisError::UnsupportedOperator));
    let graph = parse_(vec![node(
        "start",
        declare("a", binary(Expression::Number(1), "**", Expression::Number(2))),
        vec![],
    )]);
    assert_eq!(analyze(&graph), Err(AnalysisError::UnsupportedOperator));
}

#[test]
fn a_division_by_zero_alone_stops_the_walk() {
    let graph = parse_(vec![node(
        "start",
        declare("a", binary(Expression::Number(1), "/", Expression::Number(0))),
        vec![],
    )]);
    assert_eq!(analyze(&graph), Err(AnalysisError::UndefinedArithmetic));
    // a * 0 < 5 asks for 5 / 0 on the way down to a.
    let graph = parse_(vec![
        node("start", declare("a", Expression::Other), vec![edge("test", -1)]),
        node(
            "test",
            compare(binary(variable("a"), "*", Expression::Number(0)), "<", Expression::Number(5)),
            vec![],
        ),
    ]);
    assert_eq!(analyze(&graph), Err(AnalysisError::UndefinedArithmetic));
}

#[test]
fn a_variable_without_a_value_stops_the_walk_where_it_is_used() {
    let mut variables: Table<Value> = Table::new();
    variables.insert("a".to_string(), NumericalValue::new());
    let mut slices = Vec::new();
    let mut diagnostics = Vec::new();
    let outcome = numerical_value_analysis::numerical_value_analysis::handle_comparison(
        "pos",
        &variable("a"),
        "<",
        &Expression::Number(3),
        &variables,
        &mut slices,
        &mut diagnostics,
    );
    assert_eq!(outcome, Err(AnalysisError::EmptyOperand));
    assert!(slices.is_empty());
    assert!(diagnostics.is_empty());
}

#[test]
fn a_variable_that_is_not_known_counts_as_any_value() {
    let variables: Table<Value> = Table::new();
    let mut slices = Vec::new();
    let mut diagnostics = Vec::new();
    let outcome = numerical_value_analysis::numerical_value_analysis::handle_comparison(
        "pos",
        &variable("a"),
        ">=",
        &Expression::Number(3),
        &variables,
        &mut slices,
        &mut diagnostics,
    );
    assert_eq!(outcome, Ok(()));
    assert_eq!(slices.len(), 1);
    assert_eq!(slices[0].name, "a");
    assert_eq!(slices[0].pass.to_text(), "[3, inf]");
    assert_eq!(slices[0].fail.to_text(), "[-inf, 3)");
    assert!(diagnostics.is_empty());
}

#[test]
fn the_last_node_of_a_name_stands_for_it() {
    let graph = parse_(vec![
        node("a", NodeValue::Other, vec![edge("b", -1)]),
        node("b", NodeValue::Other, vec![]),
        node("a", declare("x", Expression::Number(1)), vec![]),
    ]);
    assert_eq!(graph.first(), "a");
    assert_eq!(graph.value_of("a"), Some(&declare("x", Expression::Number(1))));
    assert_eq!(graph.successors_of("a"), Some(&vec![]));
    assert_eq!(graph.value_of("b"), Some(&NodeValue::Other));
    assert_eq!(graph.value_of("c"), None);
    assert_eq!(graph.successors_of("c"), None);
}

#[test]
fn statements_print_as_source_text() {
    assert_eq!(
        binary(variable("a"), "+", binary(Expression::Number(-3), "*", Expression::Other)).to_text(),
        "a + -3 * __other_expr()"
    );
    assert_eq!(
        compare(variable("a"), "<=", Expression::Number(13)).to_text(),
        "a <= 13"
    );
    assert_eq!(NodeValue::Other.to_text(), "__other_stmt();");
    assert_eq!(
        NodeValue::VariableAssignment { left: "x".to_string(), right: Expression::Number(4) }
            .to_text(),
        "x = 4;"
    );
    assert_eq!(
        NodeValue::VariableDeclaration {
            declarations: vec![
                Declaration { identifier: "x".to_string(), initializer: Expression::Number(4) },
                Declaration { identifier: "y".to_string(), initializer: variable("x") },
            ],
        }
        .to_text(),
        "let x = 4;let y = x;"
    );
    assert_eq!(
        Declaration { identifier: "x".to_string(), initializer: Expression::Number(4) }.to_text(),
        "let x = 4"
    );
}

#[test]
fn declarations_see_the_bindings_before_them() {
    let graph = parse_(vec![
        node(
            "start",
            NodeValue::VariableDeclaration {
                declarations: vec![
                    Declaration { identifier: "x".to_string(), initializer: Expression::Number(4) },
                    Declaration {
                        identifier: "y".to_string(),
                        initializer: binary(variable("x"), "*", Expression::Number(3)),
                    },
                ],
            },
            vec![edge("end", -1)],
        ),
        node("end", NodeValue::Other, vec![]),
    ]);
    let mut variables = Table::new();
    let mut history = Table::new();
    let mut diagnostics = Vec::new();
    let outcome =
        numerical_value_analysis(&graph, "start", &mut variables, &mut history, &mut diagnostics, 9);
    assert_eq!(outcome, Ok(()));
    assert_eq!(snapshot(&history, "end", "x").to_text(), "[4, 4]");
    assert_eq!(snapshot(&history, "end", "y").to_text(), "[12, 12]");
    assert_eq!(snapshot(&history, "end", "y").range().unwrap().min.value, Raw(12));
}
