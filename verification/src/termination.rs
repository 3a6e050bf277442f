//! The walk over a graph comes to an end: there is a depth under which it
//! does not run into its limit.
//!
//! Every visit that goes on to the edges of its node has given the node a
//! snapshot that holds more than the one before: a variable more, or more
//! positions for a variable. The names of the variables come from the
//! statements of the graph and the positions from a bounded axis, and so
//! the room that is left in the snapshots, summed up over the nodes and the
//! names, bounds the depth of the walk.

use vstd::prelude::*;
use vstd::set_lib::{lemma_int_range, lemma_len_subset, set_int_range};
use crate::environment::{env_le, join, narrow};
use crate::fixed_point::{
    analysis,
    declare,
    entered,
    env_ordered,
    history_le,
    history_ordered,
    law_deeper_analysis_agrees,
    lemma_env_le_refl,
    lemma_join_grows,
    lemma_narrow_ordered,
    lemma_transfer_ordered,
    settled,
    transfer,
    visit,
    visit_edges,
    History,
    State,
    Step,
};
use crate::interval_laws::{lemma_holds_in_bounds, lemma_ordered_unique};
use crate::numerical_value::{ordered, seq_holds};
use crate::numerical_value_analysis::{
    binary_operator,
    comparison_operator,
    descend_spec,
    eval_hull,
    left_target,
    right_operator,
    right_target,
    slice_of,
    located,
    AnalysisError,
    BinaryOperator,
    ComparisonOperator,
    Env,
    Interval,
    SliceView,
};
use crate::parse::{Declaration, Expression, Graph, NodeValue, Successor};

verus! {

/// The number of positions on the axis of the extended 64-bit integers.
pub open spec fn axis_len() -> int {
    3 * (i64::MAX - i64::MIN + 2) + 1
}

/// The positions that an interval set holds.
pub open spec fn positions(s: Seq<Interval>) -> Set<int> {
    Set::new(|p: int| seq_holds(s, p))
}

/// The number of positions that an interval set holds.
pub open spec fn size(s: Seq<Interval>) -> int {
    positions(s).len() as int
}

/// An interval set holds finitely many positions, no more than the axis
/// has.
pub proof fn lemma_size_bounded(s: Seq<Interval>)
    ensures
        positions(s).finite(),
        0 <= size(s) <= axis_len(),
{
    let lo = 3 * (i64::MIN - 1);
    let hi = 3 * (i64::MAX + 1) + 1;
    let axis = set_int_range(lo, hi);
    lemma_int_range(lo, hi);
    assert forall|p: int| positions(s).contains(p) implies axis.contains(p) by {
        lemma_holds_in_bounds(s, p);
    }
    lemma_len_subset(positions(s), axis);
}

/// An interval set that holds what another holds, and is not the same,
/// holds more positions.
pub proof fn lemma_size_grows(a: Seq<Interval>, b: Seq<Interval>)
    requires
        ordered(a),
        ordered(b),
        forall|p: int| #[trigger] seq_holds(a, p) ==> seq_holds(b, p),
    ensures
        size(a) <= size(b),
        a != b ==> size(a) < size(b),
{
    lemma_size_bounded(a);
    lemma_size_bounded(b);
    assert(positions(a).subset_of(positions(b)));
    lemma_len_subset(positions(a), positions(b));
    if a != b {
        if forall|p: int| #[trigger] seq_holds(b, p) ==> seq_holds(a, p) {
            assert forall|p: int|
                #![trigger seq_holds(a, p)]
                #![trigger seq_holds(b, p)]
                seq_holds(a, p) <==> seq_holds(b, p) by {}
            lemma_ordered_unique(a, b);
        }
        let p = choose|p: int| #[trigger] seq_holds(b, p) && !seq_holds(a, p);
        positions(a).lemma_subset_not_in_lt(positions(b), p);
    }
}

/// The room that is left for the variable `v` in the snapshot of the node
/// `n`: the positions that its value does not hold, one more where the
/// snapshot does not know the variable, and two more where the node has no
/// snapshot.
pub open spec fn cell(history: History, n: Seq<char>, v: Seq<char>) -> int {
    if !history.contains_key(n) {
        axis_len() + 2
    } else if !history[n].contains_key(v) {
        axis_len() + 1
    } else {
        axis_len() - size(history[n][v])
    }
}

/// The room that is left in the snapshot of the node `n` for the first `j`
/// of the names.
pub open spec fn row(history: History, n: Seq<char>, names: Seq<Seq<char>>, j: int) -> int
    decreases j,
{
    if j <= 0 {
        0
    } else {
        row(history, n, names, j - 1) + cell(history, n, names[j - 1])
    }
}

/// The room that is left in the snapshot of a node for all names, and one
/// more where the node has no snapshot.
pub open spec fn node_room(history: History, n: Seq<char>, names: Seq<Seq<char>>) -> int {
    row(history, n, names, names.len() as int) + if history.contains_key(n) {
        0int
    } else {
        1int
    }
}

/// The room that is left in the snapshots of the first `i` of the nodes.
pub open spec fn room(
    history: History,
    nodes: Seq<Seq<char>>,
    names: Seq<Seq<char>>,
    i: int,
) -> int
    decreases i,
{
    if i <= 0 {
        0
    } else {
        room(history, nodes, names, i - 1) + node_room(history, nodes[i - 1], names)
    }
}

/// The room for one variable in one snapshot is never negative and does
/// not grow while the snapshots grow.
pub proof fn lemma_cell_shrinks(before: History, after: History, n: Seq<char>, v: Seq<char>)
    requires
        history_ordered(before),
        history_ordered(after),
        history_le(before, after),
    ensures
        0 <= cell(after, n, v) <= cell(before, n, v),
{
    if after.contains_key(n) && after[n].contains_key(v) {
        lemma_size_bounded(after[n][v]);
    }
    if before.contains_key(n) {
        assert(after.contains_key(n) && env_le(before[n], after[n]));
        if before[n].contains_key(v) {
            assert(after[n].contains_key(v));
            assert(ordered(before[n][v]));
            assert(ordered(after[n][v]));
            lemma_size_grows(before[n][v], after[n][v]);
        }
    }
}

/// The room in one snapshot is never negative and does not grow while the
/// snapshots grow.
pub proof fn lemma_row_shrinks(
    before: History,
    after: History,
    n: Seq<char>,
    names: Seq<Seq<char>>,
    j: int,
)
    requires
        history_ordered(before),
        history_ordered(after),
        history_le(before, after),
        j <= names.len(),
    ensures
        0 <= row(after, n, names, j) <= row(before, n, names, j),
    decreases j,
{
    if j > 0 {
        lemma_row_shrinks(before, after, n, names, j - 1);
        lemma_cell_shrinks(before, after, n, names[j - 1]);
    }
}

/// The room in one snapshot shrinks where the room for one of the names
/// shrinks.
pub proof fn lemma_row_shrinks_strictly(
    before: History,
    after: History,
    n: Seq<char>,
    names: Seq<Seq<char>>,
    j: int,
    k: int,
)
    requires
        history_ordered(before),
        history_ordered(after),
        history_le(before, after),
        0 <= k < j <= names.len(),
        cell(after, n, names[k]) < cell(before, n, names[k]),
    ensures
        row(after, n, names, j) < row(before, n, names, j),
    decreases j,
{
    lemma_cell_shrinks(before, after, n, names[j - 1]);
    if k < j - 1 {
        lemma_row_shrinks_strictly(before, after, n, names, j - 1, k);
    } else {
        lemma_row_shrinks(before, after, n, names, j - 1);
    }
}

/// The room in the snapshots is never negative and does not grow while the
/// snapshots grow.
pub proof fn lemma_room_shrinks(
    before: History,
    after: History,
    nodes: Seq<Seq<char>>,
    names: Seq<Seq<char>>,
    i: int,
)
    requires
        history_ordered(before),
        history_ordered(after),
        history_le(before, after),
        i <= nodes.len(),
    ensures
        0 <= room(after, nodes, names, i) <= room(before, nodes, names, i),
    decreases i,
{
    if i > 0 {
        lemma_room_shrinks(before, after, nodes, names, i - 1);
        lemma_row_shrinks(before, after, nodes[i - 1], names, names.len() as int);
        if before.contains_key(nodes[i - 1]) {
            assert(after.contains_key(nodes[i - 1]));
        }
    }
}

/// The room in the snapshots shrinks where the room of one of the nodes
/// shrinks.
pub proof fn lemma_room_shrinks_strictly(
    before: History,
    after: History,
    nodes: Seq<Seq<char>>,
    names: Seq<Seq<char>>,
    i: int,
    k: int,
)
    requires
        history_ordered(before),
        history_ordered(after),
        history_le(before, after),
        0 <= k < i <= nodes.len(),
        node_room(after, nodes[k], names) < node_room(before, nodes[k], names),
    ensures
        room(after, nodes, names, i) < room(before, nodes, names, i),
    decreases i,
{
    lemma_row_shrinks(before, after, nodes[i - 1], names, names.len() as int);
    if before.contains_key(nodes[i - 1]) {
        assert(after.contains_key(nodes[i - 1]));
    }
    if k < i - 1 {
        lemma_room_shrinks_strictly(before, after, nodes, names, i - 1, k);
    } else {
        lemma_room_shrinks(before, after, nodes, names, i - 1);
    }
}

/// The names of the variables in an expression.
pub open spec fn expr_names(expr: Expression) -> Seq<Seq<char>>
    decreases expr,
{
    match expr {
        Expression::Identifier(name) => seq![name@],
        Expression::Binary { left, op, right } => expr_names(*left) + expr_names(*right),
        _ => Seq::empty(),
    }
}

/// The names that the first `n` bindings of a declaration bind.
pub open spec fn declared_names(declarations: Seq<Declaration>, n: int) -> Seq<Seq<char>>
    decreases n,
{
    if n <= 0 {
        Seq::empty()
    } else {
        declared_names(declarations, n - 1).push(declarations[n - 1].identifier@)
    }
}

/// The names of the variables that a statement gives a value or a slice.
pub open spec fn node_names(node: NodeValue) -> Seq<Seq<char>> {
    match node {
        NodeValue::VariableDeclaration { declarations } => declared_names(
            declarations@,
            declarations@.len() as int,
        ),
        NodeValue::VariableAssignment { left, right } => seq![left@],
        NodeValue::Comparison { left, op, right } => expr_names(left) + expr_names(right),
        NodeValue::Other => Seq::empty(),
    }
}

/// The names of the variables that the first `i` of the statements give a
/// value or a slice.
pub open spec fn all_names(items: Seq<NodeValue>, i: int) -> Seq<Seq<char>>
    decreases i,
{
    if i <= 0 {
        Seq::empty()
    } else {
        all_names(items, i - 1) + node_names(items[i - 1])
    }
}

/// Whether the map knows variables of the names given only.
pub open spec fn within(env: Env, names: Seq<Seq<char>>) -> bool {
    forall|v: Seq<char>| #[trigger] env.contains_key(v) ==> names.contains(v)
}

/// Whether the snapshots know variables of the names given only.
pub open spec fn history_within(history: History, names: Seq<Seq<char>>) -> bool {
    forall|n: Seq<char>| #[trigger] history.contains_key(n) ==> within(history[n], names)
}

/// Whether the slices are slices of variables of the names given.
pub open spec fn slices_within(slices: Seq<SliceView>, names: Seq<Seq<char>>) -> bool {
    forall|i: int| 0 <= i < slices.len() ==> names.contains((#[trigger] slices[i]).name)
}

/// The names of a statement are among the names of all statements.
pub proof fn lemma_all_names(items: Seq<NodeValue>, i: int, k: int, v: Seq<char>)
    requires
        0 <= k < i <= items.len(),
        node_names(items[k]).contains(v),
    ensures
        all_names(items, i).contains(v),
    decreases i,
{
    let before = all_names(items, i - 1);
    let last = node_names(items[i - 1]);
    if k < i - 1 {
        lemma_all_names(items, i - 1, k, v);
        let j = choose|j: int| 0 <= j < before.len() && before[j] == v;
        assert((before + last)[j] == v);
    } else {
        let j = choose|j: int| 0 <= j < last.len() && last[j] == v;
        assert((before + last)[j + before.len()] == v);
    }
}

/// A name of either of two lists is a name of the two put together.
pub proof fn lemma_names_joined(a: Seq<Seq<char>>, b: Seq<Seq<char>>, v: Seq<char>)
    requires
        a.contains(v) || b.contains(v),
    ensures
        (a + b).contains(v),
{
    if a.contains(v) {
        let j = choose|j: int| 0 <= j < a.len() && a[j] == v;
        assert((a + b)[j] == v);
    } else {
        let j = choose|j: int| 0 <= j < b.len() && b[j] == v;
        assert((a + b)[j + a.len()] == v);
    }
}

/// The slices of an expression are slices of variables of the expression.
pub proof fn lemma_slices_named(
    expr: Expression,
    target: Interval,
    op: ComparisonOperator,
    env: Env,
)
    requires
        descend_spec(expr, target, op, env) is Ok,
    ensures
        slices_within(descend_spec(expr, target, op, env).unwrap(), expr_names(expr)),
    decreases expr,
{
    let slices = descend_spec(expr, target, op, env).unwrap();
    match expr {
        Expression::Identifier(name) => {
            reveal(slice_of);
            assert forall|i: int| 0 <= i < slices.len() implies expr_names(expr).contains(
                (#[trigger] slices[i]).name,
            ) by {
                assert(expr_names(expr)[0] == name@);
            }
        },
        Expression::Binary { left, op: operator, right } => {
            let l = eval_hull(*left, env).unwrap();
            let r = eval_hull(*right, env).unwrap();
            let b = binary_operator(operator@).unwrap();
            let s1 = if b == BinaryOperator::Remainder {
                Seq::<SliceView>::empty()
            } else {
                descend_spec(*left, left_target(b, target, r).unwrap(), op, env).unwrap()
            };
            let to_right = right_target(b, target, l).unwrap();
            let s2 = descend_spec(*right, to_right, right_operator(b, op), env).unwrap();
            if b != BinaryOperator::Remainder {
                lemma_slices_named(*left, left_target(b, target, r).unwrap(), op, env);
            }
            lemma_slices_named(*right, to_right, right_operator(b, op), env);
            assert(slices == s1 + s2);
            assert forall|i: int| 0 <= i < slices.len() implies expr_names(expr).contains(
                (#[trigger] slices[i]).name,
            ) by {
                if i < s1.len() {
                    assert(slices[i] == s1[i]);
                    lemma_names_joined(expr_names(*left), expr_names(*right), s1[i].name);
                } else {
                    assert(slices[i] == s2[i - s1.len()]);
                    lemma_names_joined(
                        expr_names(*left),
                        expr_names(*right),
                        s2[i - s1.len()].name,
                    );
                }
            }
        },
        _ => {},
    }
}

/// The variables after the bindings of a declaration are those before and
/// those that the bindings bind.
pub proof fn lemma_declare_within(
    declarations: Seq<Declaration>,
    n: int,
    env: Env,
    names: Seq<Seq<char>>,
)
    requires
        0 <= n <= declarations.len(),
        within(env, names),
        forall|k: int|
            0 <= k < declared_names(declarations, n).len() ==> names.contains(
                #[trigger] declared_names(declarations, n)[k],
            ),
        declare(declarations, n, env) is Ok,
    ensures
        within(declare(declarations, n, env).unwrap(), names),
    decreases n,
{
    if n > 0 {
        let shorter = declared_names(declarations, n - 1);
        let longer = declared_names(declarations, n);
        assert forall|k: int| 0 <= k < shorter.len()
            implies names.contains(#[trigger] shorter[k]) by {
            assert(longer[k] == shorter[k]);
        }
        lemma_declare_within(declarations, n - 1, env, names);
        assert(longer[longer.len() - 1] == declarations[n - 1].identifier@);
    }
}

/// The variables after a statement are those before and those that the
/// statement names, and its slices are slices of variables that it names.
pub proof fn lemma_transfer_within(node: NodeValue, env: Env, names: Seq<Seq<char>>)
    requires
        within(env, names),
        forall|k: int|
            0 <= k < node_names(node).len() ==> names.contains(#[trigger] node_names(node)[k]),
        transfer(node, env) is Ok,
    ensures
        within(transfer(node, env).unwrap().env, names),
        slices_within(transfer(node, env).unwrap().slices, names),
{
    let step = transfer(node, env).unwrap();
    match node {
        NodeValue::VariableDeclaration { declarations } => {
            lemma_declare_within(declarations@, declarations@.len() as int, env, names);
        },
        NodeValue::VariableAssignment { left, right } => {
            assert(node_names(node)[0] == left@);
        },
        NodeValue::Comparison { left, op, right } => {
            let c = comparison_operator(op@).unwrap();
            let l = eval_hull(left, env).unwrap();
            let r = eval_hull(right, env).unwrap();
            let s1 = descend_spec(left, r, c, env).unwrap();
            let s2 = descend_spec(right, l, c.flipped(), env).unwrap();
            lemma_slices_named(left, r, c, env);
            lemma_slices_named(right, l, c.flipped(), env);
            assert(step.slices == s1 + s2);
            assert forall|i: int| 0 <= i < step.slices.len() implies names.contains(
                (#[trigger] step.slices[i]).name,
            ) by {
                let name = step.slices[i].name;
                if i < s1.len() {
                    assert(step.slices[i] == s1[i]);
                    lemma_names_joined(expr_names(left), expr_names(right), name);
                } else {
                    assert(step.slices[i] == s2[i - s1.len()]);
                    lemma_names_joined(expr_names(left), expr_names(right), name);
                }
                let j = choose|j: int| 0 <= j < node_names(node).len()
                    && node_names(node)[j] == name;
                assert(names.contains(node_names(node)[j]));
            }
        },
        NodeValue::Other => {},
    }
}

/// The variables narrowed by slices are those before and those of the
/// slices.
pub proof fn lemma_narrow_within(
    env: Env,
    slices: Seq<SliceView>,
    n: int,
    label: int,
    names: Seq<Seq<char>>,
)
    requires
        0 <= n <= slices.len(),
        within(env, names),
        slices_within(slices, names),
    ensures
        within(narrow(env, slices, n, label), names),
    decreases n,
{
    if n > 0 {
        lemma_narrow_within(env, slices, n - 1, label, names);
        assert(names.contains(slices[n - 1].name));
    }
}

/// The join of a snapshot with what comes in knows the variables of the
/// two.
pub proof fn lemma_join_within(snapshot: Env, incoming: Env, names: Seq<Seq<char>>)
    requires
        within(snapshot, names),
        within(incoming, names),
    ensures
        within(join(snapshot, incoming), names),
{
    let joined = join(snapshot, incoming);
    assert forall|v: Seq<char>| #[trigger] joined.contains_key(v) implies names.contains(v) by {
        if snapshot.contains_key(v) {
        } else {
            assert(incoming.contains_key(v));
        }
    }
}

/// Whether the error is one that a statement can fail with: the depth of
/// the walk and the nodes of the graph are no matter of a statement.
pub open spec fn of_statement(e: AnalysisError) -> bool {
    e != AnalysisError::DepthExceeded && e != AnalysisError::UnknownNode
}

/// The range of an expression fails with an error of a statement only.
pub proof fn lemma_eval_hull_fails(expr: Expression, env: Env)
    ensures
        eval_hull(expr, env) matches Err(e) ==> of_statement(e),
    decreases expr,
{
    if let Expression::Binary { left, op, right } = expr {
        lemma_eval_hull_fails(*left, env);
        lemma_eval_hull_fails(*right, env);
    }
}

/// The slices of an expression fail with an error of a statement only.
pub proof fn lemma_descend_fails(
    expr: Expression,
    target: Interval,
    op: ComparisonOperator,
    env: Env,
)
    ensures
        descend_spec(expr, target, op, env) matches Err(e) ==> of_statement(e),
    decreases expr,
{
    if let Expression::Binary { left, op: operator, right } = expr {
        lemma_eval_hull_fails(*left, env);
        lemma_eval_hull_fails(*right, env);
        if let (Ok(l), Ok(r)) = (eval_hull(*left, env), eval_hull(*right, env)) {
            if let Some(b) = binary_operator(operator@) {
                if let Some(t) = left_target(b, target, r) {
                    lemma_descend_fails(*left, t, op, env);
                }
                if let Some(t) = right_target(b, target, l) {
                    lemma_descend_fails(*right, t, right_operator(b, op), env);
                }
            }
        }
    }
}

/// The bindings of a declaration fail with an error of a statement only.
pub proof fn lemma_declare_fails_plainly(declarations: Seq<Declaration>, n: int, env: Env)
    ensures
        declare(declarations, n, env) matches Err(e) ==> of_statement(e),
    decreases n,
{
    if n > 0 {
        lemma_declare_fails_plainly(declarations, n - 1, env);
        if let Ok(prev) = declare(declarations, n - 1, env) {
            lemma_eval_hull_fails(declarations[n - 1].initializer, prev);
        }
    }
}

/// A statement fails with an error of a statement only.
pub proof fn lemma_transfer_fails(node: NodeValue, env: Env)
    ensures
        transfer(node, env) matches Err(e) ==> of_statement(e),
{
    match node {
        NodeValue::VariableDeclaration { declarations } => {
            lemma_declare_fails_plainly(declarations@, declarations@.len() as int, env);
        },
        NodeValue::VariableAssignment { left, right } => {
            lemma_eval_hull_fails(right, env);
        },
        NodeValue::Comparison { left, op, right } => {
            lemma_eval_hull_fails(left, env);
            lemma_eval_hull_fails(right, env);
            if let (Some(c), Ok(l), Ok(r)) = (
                comparison_operator(op@),
                eval_hull(left, env),
                eval_hull(right, env),
            ) {
                lemma_descend_fails(left, r, c, env);
                lemma_descend_fails(right, l, c.flipped(), env);
            }
        },
        NodeValue::Other => {},
    }
}

/// The names of the variables that the statements of the graph give a
/// value or a slice.
pub open spec fn graph_names(graph: Graph) -> Seq<Seq<char>> {
    all_names(graph.values().items(), graph.values().items().len() as int)
}

/// The room that is left in the snapshots of the nodes of the graph.
pub open spec fn graph_room(graph: Graph, history: History) -> int {
    room(
        history,
        graph.values().keys(),
        graph_names(graph),
        graph.values().keys().len() as int,
    )
}

/// Whether the snapshots and the variables hold well-formed interval sets
/// for variables of the graph only.
pub open spec fn of_graph(graph: Graph, history: History, env: Env) -> bool {
    &&& history_ordered(history)
    &&& history_within(history, graph_names(graph))
    &&& env_ordered(env)
    &&& within(env, graph_names(graph))
}

/// The names of the statement of a node are among the names of the graph.
pub proof fn lemma_node_names_listed(graph: Graph, location: Seq<char>)
    requires
        graph.wf(),
        graph.has_node(location),
    ensures
        forall|k: int|
            0 <= k < node_names(graph.node(location)).len() ==> graph_names(graph).contains(
                #[trigger] node_names(graph.node(location))[k],
            ),
{
    let items = graph.values().items();
    let at = graph.values().index_of(location);
    assert(0 <= at < items.len());
    assert forall|k: int| 0 <= k < node_names(graph.node(location)).len() implies graph_names(
        graph,
    ).contains(#[trigger] node_names(graph.node(location))[k]) by {
        let v = node_names(graph.node(location))[k];
        assert(node_names(items[at]).contains(v));
        lemma_all_names(items, items.len() as int, at, v);
    }
}

/// A node that is entered and not settled gets a snapshot that leaves less
/// room than there was.
pub proof fn lemma_publish_shrinks(
    graph: Graph,
    history: History,
    location: Seq<char>,
    incoming: Env,
)
    requires
        graph.wf(),
        graph.has_node(location),
        of_graph(graph, history, incoming),
        !settled(history, location, incoming),
    ensures
        of_graph(
            graph,
            history.insert(location, entered(history, location, incoming)),
            entered(history, location, incoming),
        ),
        history_le(history, history.insert(location, entered(history, location, incoming))),
        graph_room(graph, history.insert(location, entered(history, location, incoming)))
            < graph_room(graph, history),
{
    let names = graph_names(graph);
    let nodes = graph.values().keys();
    let joined = entered(history, location, incoming);
    let after = history.insert(location, joined);
    if history.contains_key(location) {
        lemma_join_grows(history[location], incoming);
        lemma_join_within(history[location], incoming, names);
    }
    assert forall|k: Seq<char>| #[trigger] history.contains_key(k) implies after.contains_key(k)
        && env_le(history[k], after[k]) by {
        if k != location {
            lemma_env_le_refl(history[k]);
        }
    }
    assert(history_ordered(after));
    assert(history_within(after, names));
    // The room of the node itself shrinks.
    lemma_row_shrinks(history, after, location, names, names.len() as int);
    if history.contains_key(location) {
        let old = history[location];
        if forall|v: Seq<char>| #[trigger]
            joined.contains_key(v) ==> old.contains_key(v) && old[v] == joined[v] {
            assert(joined =~= old);
        }
        let v = choose|v: Seq<char>| #[trigger]
            joined.contains_key(v) && !(old.contains_key(v) && old[v] == joined[v]);
        assert(names.contains(v));
        let k = choose|k: int| 0 <= k < names.len() && names[k] == v;
        lemma_size_bounded(joined[v]);
        if old.contains_key(v) {
            lemma_size_grows(old[v], joined[v]);
        }
        assert(cell(after, location, names[k]) < cell(history, location, names[k]));
        lemma_row_shrinks_strictly(history, after, location, names, names.len() as int, k);
    }
    assert(node_room(after, location, names) < node_room(history, location, names));
    let at = choose|at: int| 0 <= at < nodes.len() && nodes[at] == location;
    lemma_room_shrinks_strictly(history, after, nodes, names, nodes.len() as int, at);
}

/// A walk from a node does not run into a limit that is higher than the
/// room that is left in the snapshots, and leaves no more room than there
/// was.
pub proof fn law_visit_ends(
    graph: Graph,
    location: Seq<char>,
    incoming: Env,
    state: State,
    depth: nat,
)
    requires
        graph.wf(),
        of_graph(graph, state.history, incoming),
        graph_room(graph, state.history) < depth,
    ensures
        visit(graph, location, incoming, state, depth) != Err::<State, AnalysisError>(
            AnalysisError::DepthExceeded,
        ),
        visit(graph, location, incoming, state, depth) matches Ok(out) ==> history_within(
            out.history,
            graph_names(graph),
        ) && history_ordered(out.history) && graph_room(graph, out.history) <= graph_room(
            graph,
            state.history,
        ),
    decreases depth, 0int,
{
    let names = graph_names(graph);
    let nodes = graph.values().keys();
    if graph.has_node(location) && !settled(state.history, location, incoming) {
        let joined = entered(state.history, location, incoming);
        lemma_publish_shrinks(graph, state.history, location, incoming);
        let after = state.history.insert(location, joined);
        lemma_room_shrinks(state.history, after, nodes, names, nodes.len() as int);
        lemma_transfer_fails(graph.node(location), joined);
        if let Ok(step) = transfer(graph.node(location), joined) {
            lemma_transfer_ordered(graph.node(location), joined);
            lemma_node_names_listed(graph, location);
            lemma_transfer_within(graph.node(location), joined, names);
            if graph.has_edges(location) {
                let published = State {
                    history: after,
                    findings: state.findings + located(location, step.verdicts),
                };
                law_edges_end(
                    graph,
                    graph.edges(location),
                    0,
                    step,
                    published,
                    (depth - 1) as nat,
                );
            }
        }
    }
}

/// A walk along the edges of a node does not run into a limit that is
/// higher than the room that is left in the snapshots, and leaves no more
/// room than there was.
pub proof fn law_edges_end(
    graph: Graph,
    edges: Seq<Successor>,
    i: int,
    step: Step,
    state: State,
    depth: nat,
)
    requires
        graph.wf(),
        0 <= i,
        of_graph(graph, state.history, step.env),
        slices_within(step.slices, graph_names(graph)),
        graph_room(graph, state.history) < depth,
    ensures
        visit_edges(graph, edges, i, step.env, step.slices, state, depth) != Err::<
            State,
            AnalysisError,
        >(AnalysisError::DepthExceeded),
        visit_edges(graph, edges, i, step.env, step.slices, state, depth) matches Ok(out)
            ==> history_within(out.history, graph_names(graph)) && history_ordered(out.history)
            && graph_room(graph, out.history) <= graph_room(graph, state.history),
    decreases depth, edges.len() - i + 1,
{
    let names = graph_names(graph);
    if i < edges.len() {
        let label = edges[i].value as int;
        let narrowed = narrow(step.env, step.slices, step.slices.len() as int, label);
        lemma_narrow_ordered(step.env, step.slices, step.slices.len() as int, label);
        lemma_narrow_within(step.env, step.slices, step.slices.len() as int, label, names);
        law_visit_ends(graph, edges[i].key@, narrowed, state, depth);
        if let Ok(next) = visit(graph, edges[i].key@, narrowed, state, depth) {
            law_edges_end(graph, edges, i + 1, step, next, depth);
        }
    }
}

/// The analysis of a graph comes to an end: there is a depth under which
/// it does not run into its limit, and under every higher limit it comes
/// out the same.
pub proof fn law_analysis_ends(graph: Graph) -> (depth: nat)
    requires
        graph.wf(),
    ensures
        analysis(graph, depth) != Err::<Seq<(Seq<char>, bool)>, AnalysisError>(
            AnalysisError::DepthExceeded,
        ),
        forall|deeper: nat|
            depth <= deeper ==> #[trigger] analysis(graph, deeper) == analysis(graph, depth),
{
    let start = State { history: Map::<Seq<char>, Env>::empty(), findings: Seq::empty() };
    let none = Map::<Seq<char>, Seq<Interval>>::empty();
    let names = graph_names(graph);
    let nodes = graph.values().keys();
    lemma_room_shrinks(start.history, start.history, nodes, names, nodes.len() as int);
    let depth = (graph_room(graph, start.history) + 1) as nat;
    law_visit_ends(graph, graph.first_key(), none, start, depth);
    assert forall|deeper: nat| depth <= deeper implies #[trigger] analysis(graph, deeper)
        == analysis(graph, depth) by {
        law_deeper_analysis_agrees(graph, depth, deeper);
    }
    depth
}

} // verus!
