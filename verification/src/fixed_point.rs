//! What the walk over the control-flow graph computes, stated as functions
//! on maps, and the steps of one visit to a node.
//!
//! A visit joins what comes in with what the node has seen before. Where
//! that adds nothing the visit ends. Otherwise the join becomes the new
//! snapshot of the node, the statement of the node is applied to it, and
//! each edge is followed in turn with a copy of the variables, narrowed by
//! the slices of the comparison where the edge carries a verdict.

use vstd::prelude::*;
use crate::bounded_value::BoundedValue;
use crate::environment::{duplicate_env, env_le, join, lemma_insert_view, narrow};
use crate::interval_laws::{lemma_intersection_exists, lemma_union_exists};
use crate::numerical_value::{lemma_single_holds, ordered, seq_holds, single};
use crate::numerical_value_analysis::{
    comparison_spec,
    diagnostic_views,
    env_view,
    env_wf,
    eval,
    handle_comparison,
    located,
    lookup,
    parse_value_expression,
    slice_views,
    AnalysisError,
    Diagnostic,
    Env,
    Scalar,
    SliceView,
    Value,
    VariableValueSlice,
};
use crate::parse::{Declaration, Graph, NodeValue, Successor};
use crate::table::Table;

verus! {

/// The snapshots of the nodes: for each node that was visited, the
/// variables as they were when it was last entered.
pub type History = Map<Seq<char>, Env>;

/// The findings so far: locations with their verdicts, in the order in
/// which they were found.
pub type Findings = Seq<(Seq<char>, bool)>;

/// What a walk has gathered.
pub ghost struct State {
    pub history: History,
    pub findings: Findings,
}

/// What the statement of a node gives: the variables after it, and for a
/// comparison its slices and its verdicts.
pub ghost struct Step {
    pub env: Env,
    pub slices: Seq<SliceView>,
    pub verdicts: Seq<bool>,
}

/// The snapshots of a table as a map.
pub open spec fn hist_view(h: Table<Table<Value>>) -> History {
    Map::new(|k: Seq<char>| h.contains(k), |k: Seq<char>| env_view(h.at(k)))
}

/// The invariant of a table of snapshots: the table is well-formed and so
/// is each snapshot.
pub open spec fn hist_wf(h: Table<Table<Value>>) -> bool {
    &&& h.wf()
    &&& forall|i: int| 0 <= i < h.items().len() ==> env_wf(#[trigger] h.items()[i])
}

/// Whether `b` has a snapshot for every node that `a` has one for, and
/// each of these holds at least what the snapshot in `a` holds.
pub open spec fn history_le(a: History, b: History) -> bool {
    forall|k: Seq<char>| #[trigger] a.contains_key(k) ==> b.contains_key(k) && env_le(a[k], b[k])
}

/// The variables after the first `n` bindings of a declaration, each
/// initializer taken in the variables as the bindings before it left them.
pub open spec fn declare(declarations: Seq<Declaration>, n: int, env: Env) -> Result<
    Env,
    AnalysisError,
>
    decreases n,
{
    if n <= 0 {
        Ok(env)
    } else {
        match declare(declarations, n - 1, env) {
            Err(e) => Err(e),
            Ok(prev) => match eval(declarations[n - 1].initializer, prev) {
                Err(e) => Err(e),
                Ok(v) => Ok(prev.insert(declarations[n - 1].identifier@, v)),
            },
        }
    }
}

/// What the statement `node` gives in the variables `env`.
pub open spec fn transfer(node: NodeValue, env: Env) -> Result<Step, AnalysisError> {
    match node {
        NodeValue::VariableDeclaration { declarations } => match declare(
            declarations@,
            declarations@.len() as int,
            env,
        ) {
            Err(e) => Err(e),
            Ok(after) => Ok(Step { env: after, slices: Seq::empty(), verdicts: Seq::empty() }),
        },
        NodeValue::VariableAssignment { left, right } => match eval(right, env) {
            Err(e) => Err(e),
            Ok(v) => Ok(
                Step { env: env.insert(left@, v), slices: Seq::empty(), verdicts: Seq::empty() },
            ),
        },
        NodeValue::Comparison { left, op, right } => match comparison_spec(left, op@, right, env) {
            Err(e) => Err(e),
            Ok(found) => Ok(Step { env, slices: found.0, verdicts: found.1 }),
        },
        NodeValue::Other => Ok(Step { env, slices: Seq::empty(), verdicts: Seq::empty() }),
    }
}

/// What the node `location` has seen once `incoming` has come in: the join
/// with its snapshot, or what comes in where it has no snapshot yet.
pub open spec fn entered(history: History, location: Seq<char>, incoming: Env) -> Env {
    if history.contains_key(location) {
        join(history[location], incoming)
    } else {
        incoming
    }
}

/// Whether a visit ends at once: the node has a snapshot and what comes in
/// adds nothing to it.
pub open spec fn settled(history: History, location: Seq<char>, incoming: Env) -> bool {
    history.contains_key(location) && entered(history, location, incoming) == history[location]
}

/// The variables as a visit to the node `location` leaves them: the join
/// where the visit ends at once, else the join with the statement of the
/// node applied to it.
pub open spec fn left_behind(graph: Graph, location: Seq<char>, incoming: Env, history: History)
    -> Env {
    let joined = entered(history, location, incoming);
    if settled(history, location, incoming) {
        joined
    } else {
        match transfer(graph.node(location), joined) {
            Ok(step) => step.env,
            Err(_) => joined,
        }
    }
}

/// The walk from the node `location` with the variables `incoming`, no
/// deeper than `depth` visits below this one.
pub open spec fn visit(
    graph: Graph,
    location: Seq<char>,
    incoming: Env,
    state: State,
    depth: nat,
) -> Result<State, AnalysisError>
    decreases depth, 0int,
{
    if !graph.has_node(location) {
        Err(AnalysisError::UnknownNode)
    } else if settled(state.history, location, incoming) {
        Ok(state)
    } else if depth == 0 {
        Err(AnalysisError::DepthExceeded)
    } else {
        let joined = entered(state.history, location, incoming);
        match transfer(graph.node(location), joined) {
            Err(e) => Err(e),
            Ok(step) => if !graph.has_edges(location) {
                Err(AnalysisError::UnknownNode)
            } else {
                visit_edges(
                    graph,
                    graph.edges(location),
                    0,
                    step.env,
                    step.slices,
                    State {
                        history: state.history.insert(location, joined),
                        findings: state.findings + located(location, step.verdicts),
                    },
                    (depth - 1) as nat,
                )
            },
        }
    }
}

/// The walk along the edges from place `i` on, one after the other, each
/// with the variables `env` narrowed for its label.
pub open spec fn visit_edges(
    graph: Graph,
    edges: Seq<Successor>,
    i: int,
    env: Env,
    slices: Seq<SliceView>,
    state: State,
    depth: nat,
) -> Result<State, AnalysisError>
    decreases depth, edges.len() - i + 1,
{
    if i < 0 || i >= edges.len() {
        Ok(state)
    } else {
        match visit(
            graph,
            edges[i].key@,
            narrow(env, slices, slices.len() as int, edges[i].value as int),
            state,
            depth,
        ) {
            Err(e) => Err(e),
            Ok(next) => visit_edges(graph, edges, i + 1, env, slices, next, depth),
        }
    }
}

/// The findings of the walk from the first node of the graph, with no
/// variables and no snapshots to start from.
pub open spec fn analysis(graph: Graph, depth: nat) -> Result<Findings, AnalysisError> {
    match visit(
        graph,
        graph.first_key(),
        Map::empty(),
        State { history: Map::empty(), findings: Seq::empty() },
        depth,
    ) {
        Err(e) => Err(e),
        Ok(state) => Ok(state.findings),
    }
}

/// A walk that does not run into its limit comes out the same under every
/// higher limit.
pub proof fn law_deeper_visit_agrees(
    graph: Graph,
    location: Seq<char>,
    incoming: Env,
    state: State,
    depth: nat,
    deeper: nat,
)
    requires
        depth <= deeper,
        visit(graph, location, incoming, state, depth) != Err::<State, AnalysisError>(
            AnalysisError::DepthExceeded,
        ),
    ensures
        visit(graph, location, incoming, state, deeper) == visit(
            graph,
            location,
            incoming,
            state,
            depth,
        ),
    decreases depth, 0int,
{
    if graph.has_node(location) && !settled(state.history, location, incoming) {
        let joined = entered(state.history, location, incoming);
        if let Ok(step) = transfer(graph.node(location), joined) {
            if graph.has_edges(location) {
                law_deeper_edges_agree(
                    graph,
                    graph.edges(location),
                    0,
                    step.env,
                    step.slices,
                    State {
                        history: state.history.insert(location, joined),
                        findings: state.findings + located(location, step.verdicts),
                    },
                    (depth - 1) as nat,
                    (deeper - 1) as nat,
                );
            }
        }
    }
}

/// A walk along the edges that does not run into its limit comes out the
/// same under every higher limit.
pub proof fn law_deeper_edges_agree(
    graph: Graph,
    edges: Seq<Successor>,
    i: int,
    env: Env,
    slices: Seq<SliceView>,
    state: State,
    depth: nat,
    deeper: nat,
)
    requires
        depth <= deeper,
        visit_edges(graph, edges, i, env, slices, state, depth) != Err::<State, AnalysisError>(
            AnalysisError::DepthExceeded,
        ),
    ensures
        visit_edges(graph, edges, i, env, slices, state, deeper) == visit_edges(
            graph,
            edges,
            i,
            env,
            slices,
            state,
            depth,
        ),
    decreases depth, edges.len() - i + 1,
{
    if 0 <= i < edges.len() {
        let narrowed = narrow(env, slices, slices.len() as int, edges[i].value as int);
        law_deeper_visit_agrees(graph, edges[i].key@, narrowed, state, depth, deeper);
        if let Ok(next) = visit(graph, edges[i].key@, narrowed, state, depth) {
            law_deeper_edges_agree(graph, edges, i + 1, env, slices, next, depth, deeper);
        }
    }
}

/// The findings of an analysis that does not run into its limit are those
/// of the analysis under every higher limit.
pub proof fn law_deeper_analysis_agrees(graph: Graph, depth: nat, deeper: nat)
    requires
        depth <= deeper,
        analysis(graph, depth) != Err::<Findings, AnalysisError>(AnalysisError::DepthExceeded),
    ensures
        analysis(graph, deeper) == analysis(graph, depth),
{
    law_deeper_visit_agrees(
        graph,
        graph.first_key(),
        Map::empty(),
        State { history: Map::empty(), findings: Seq::empty() },
        depth,
        deeper,
    );
}

/// Every map of variables holds at least what it holds.
pub proof fn lemma_env_le_refl(a: Env)
    ensures
        env_le(a, a),
{
}

/// Holding at least as much carries over from map to map.
pub proof fn lemma_env_le_trans(a: Env, b: Env, c: Env)
    requires
        env_le(a, b),
        env_le(b, c),
    ensures
        env_le(a, c),
{
    assert forall|v: Seq<char>| #[trigger] a.contains_key(v) implies c.contains_key(v)
        && forall|p: int| #[trigger]
        seq_holds(a[v], p) ==> seq_holds(
            c[v],
            p,
        ) by {
        assert(b.contains_key(v));
        assert forall|p: int| #[trigger]
            seq_holds(a[v], p) implies seq_holds(
            c[v],
            p,
        ) by {
            assert(seq_holds(b[v], p));
        }
    }
}

/// Snapshots that grow and grow again have grown.
pub proof fn lemma_history_le_trans(a: History, b: History, c: History)
    requires
        history_le(a, b),
        history_le(b, c),
    ensures
        history_le(a, c),
{
    assert forall|k: Seq<char>| #[trigger] a.contains_key(k) implies c.contains_key(k) && env_le(
        a[k],
        c[k],
    ) by {
        assert(b.contains_key(k));
        lemma_env_le_trans(a[k], b[k], c[k]);
    }
}

/// Puts a copy of the variables into the snapshots as the snapshot of the
/// node `key`.
pub fn publish(history: &mut Table<Table<Value>>, key: &String, variables: &Table<Value>)
    requires
        hist_wf(*old(history)),
        env_wf(*variables),
    ensures
        hist_wf(*final(history)),
        hist_view(*final(history)) == hist_view(*old(history)).insert(key@, env_view(*variables)),
{
    let ghost before = *history;
    let copy = duplicate_env(variables);
    let ghost copied = copy;
    history.insert(key.clone(), copy);
    proof {
        assert forall|j: int| 0 <= j < history.items().len() implies env_wf(
            #[trigger] history.items()[j],
        ) by {
            if before.contains(key@) {
                if j != before.index_of(key@) {
                    assert(env_wf(before.items()[j]));
                }
            } else {
                if j < before.items().len() {
                    assert(env_wf(before.items()[j]));
                }
            }
        }
        assert(hist_view(*history) =~= hist_view(before).insert(key@, env_view(*variables)));
    }
}

/// Binds the variables of a declaration one after the other, see
/// `declare`.
pub fn declare_all(declarations: &Vec<Declaration>, variables: &mut Table<Value>) -> (r: Result<
    (),
    AnalysisError,
>)
    requires
        env_wf(*old(variables)),
    ensures
        match r {
            Ok(_) => env_wf(*final(variables)) && declare(
                declarations@,
                declarations@.len() as int,
                env_view(*old(variables)),
            ) == Ok::<Env, AnalysisError>(env_view(*final(variables))),
            Err(e) => declare(
                declarations@,
                declarations@.len() as int,
                env_view(*old(variables)),
            ) == Err::<Env, AnalysisError>(e),
        },
{
    let ghost start = env_view(*variables);
    let n = declarations.len();
    let mut i: usize = 0;
    while i < n
        invariant
            env_wf(*variables),
            n == declarations@.len(),
            i <= n,
            start == env_view(*old(variables)),
            declare(declarations@, i as int, start) == Ok::<Env, AnalysisError>(
                env_view(*variables),
            ),
        decreases n - i,
    {
        let ghost before = *variables;
        let declaration = &declarations[i];
        match parse_value_expression(&declaration.initializer, variables) {
            Err(e) => {
                proof {
                    assert(declarations@[i as int] == *declaration);
                    assert(declare(declarations@, i + 1, start) == Err::<Env, AnalysisError>(e));
                    lemma_declare_fails(declarations@, i + 1, n as int, start, e);
                }
                return Err(e);
            },
            Ok(parsed) => {
                let ghost value = parsed;
                variables.insert(declaration.identifier.clone(), parsed);
                proof {
                    assert(declarations@[i as int] == *declaration);
                    lemma_insert_view(before, *variables, declaration.identifier@, value);
                    lemma_insert_wf(before, *variables, declaration.identifier@, value);
                }
            },
        }
        i = i + 1;
    }
    Ok(())
}

/// A declaration that fails at one binding fails as a whole, with the same
/// error.
pub proof fn lemma_declare_fails(
    declarations: Seq<Declaration>,
    m: int,
    n: int,
    env: Env,
    e: AnalysisError,
)
    requires
        0 < m <= n,
        declare(declarations, m, env) == Err::<Env, AnalysisError>(e),
    ensures
        declare(declarations, n, env) == Err::<Env, AnalysisError>(e),
    decreases n - m,
{
    if m < n {
        lemma_declare_fails(declarations, m, n - 1, env, e);
    }
}

/// A table of variables stays well-formed when a well-formed value is put
/// into it.
pub proof fn lemma_insert_wf(
    before: Table<Value>,
    after: Table<Value>,
    key: Seq<char>,
    value: Value,
)
    requires
        env_wf(before),
        value.wf(),
        after.wf(),
        before.contains(key) ==> after.items() == before.items().update(
            before.index_of(key),
            value,
        ),
        !before.contains(key) ==> after.items() == before.items().push(value),
    ensures
        env_wf(after),
{
    assert forall|j: int| 0 <= j < after.items().len()
        implies (#[trigger] after.items()[j]).wf() by {
        if before.contains(key) {
            if j != before.index_of(key) {
                assert(before.items()[j].wf());
            }
        } else {
            if j < before.items().len() {
                assert(before.items()[j].wf());
            }
        }
    }
}

/// Applies the statement of a node to the variables, see `transfer`. The
/// slices of a comparison are appended to `slices` and its verdicts, at
/// `location`, to `diagnostics`.
pub fn transfer_node(
    location: &str,
    node: &NodeValue,
    variables: &mut Table<Value>,
    slices: &mut Vec<VariableValueSlice<Scalar>>,
    diagnostics: &mut Vec<Diagnostic>,
) -> (r: Result<(), AnalysisError>)
    requires
        env_wf(*old(variables)),
    ensures
        match r {
            Ok(_) => transfer(*node, env_view(*old(variables))) matches Ok(step) && env_wf(
                *final(variables),
            ) && env_view(*final(variables)) == step.env && slice_views(final(slices)@)
                == slice_views(old(slices)@) + step.slices && diagnostic_views(
                final(diagnostics)@,
            ) == diagnostic_views(old(diagnostics)@) + located(location@, step.verdicts),
            Err(e) => transfer(*node, env_view(*old(variables))) == Err::<Step, AnalysisError>(e),
        },
{
    match node {
        NodeValue::VariableDeclaration { declarations } => {
            match declare_all(declarations, variables) {
                Err(e) => Err(e),
                Ok(_) => {
                    proof {
                        lemma_nothing_found(location@, slices@, diagnostics@);
                    }
                    Ok(())
                },
            }
        },
        NodeValue::VariableAssignment { left, right } => {
            let ghost before = *variables;
            match parse_value_expression(right, variables) {
                Err(e) => Err(e),
                Ok(parsed) => {
                    let ghost value = parsed;
                    variables.insert(left.clone(), parsed);
                    proof {
                        lemma_insert_view(before, *variables, left@, value);
                        lemma_insert_wf(before, *variables, left@, value);
                        lemma_nothing_found(location@, slices@, diagnostics@);
                    }
                    Ok(())
                },
            }
        },
        NodeValue::Comparison { left, op, right } => {
            handle_comparison(location, left, op.as_str(), right, variables, slices, diagnostics)
        },
        NodeValue::Other => {
            proof {
                lemma_nothing_found(location@, slices@, diagnostics@);
            }
            Ok(())
        },
    }
}

/// Appending no slices and no verdicts leaves both lists as they are.
pub proof fn lemma_nothing_found(
    location: Seq<char>,
    slices: Seq<VariableValueSlice<Scalar>>,
    diagnostics: Seq<Diagnostic>,
)
    ensures
        slice_views(slices) == slice_views(slices) + Seq::<SliceView>::empty(),
        diagnostic_views(diagnostics) == diagnostic_views(diagnostics) + located(
            location,
            Seq::<bool>::empty(),
        ),
{
    assert(slice_views(slices) =~= slice_views(slices) + Seq::<SliceView>::empty());
    assert(diagnostic_views(diagnostics) =~= diagnostic_views(diagnostics) + located(
        location,
        Seq::<bool>::empty(),
    ));
}

/// Whether every value of the map is a well-formed interval set.
pub open spec fn env_ordered(env: Env) -> bool {
    forall|v: Seq<char>| #[trigger] env.contains_key(v) ==> ordered(env[v])
}

/// Whether every snapshot holds well-formed interval sets only.
pub open spec fn history_ordered(history: History) -> bool {
    forall|k: Seq<char>| #[trigger] history.contains_key(k) ==> env_ordered(history[k])
}

/// The value that the analysis looks up for a variable is well-formed.
pub proof fn lemma_lookup_ordered(env: Env, name: Seq<char>)
    requires
        env_ordered(env),
    ensures
        ordered(lookup(env, name)),
{
}

/// The join of a snapshot with what comes in is well-formed and holds at
/// least what either holds.
pub proof fn lemma_join_grows(snapshot: Env, incoming: Env)
    requires
        env_ordered(snapshot),
        env_ordered(incoming),
    ensures
        env_ordered(join(snapshot, incoming)),
        env_le(snapshot, join(snapshot, incoming)),
        env_le(incoming, join(snapshot, incoming)),
{
    let joined = join(snapshot, incoming);
    assert forall|v: Seq<char>| #[trigger] joined.contains_key(v) implies ordered(joined[v]) && (
    snapshot.contains_key(v) ==> forall|p: int| #[trigger]
        seq_holds(snapshot[v], p) ==> seq_holds(joined[v], p)) && (incoming.contains_key(v)
        ==> forall|p: int| #[trigger] seq_holds(incoming[v], p) ==> seq_holds(joined[v], p)) by {
        if snapshot.contains_key(v) && incoming.contains_key(v) {
            lemma_union_exists(
                incoming[v],
                snapshot[v],
                BoundedValue::<i64>::Min,
                BoundedValue::<i64>::Max,
            );
        }
    }
    assert forall|v: Seq<char>| #[trigger] snapshot.contains_key(v) implies joined.contains_key(v)
        && forall|p: int| #[trigger] seq_holds(snapshot[v], p) ==> seq_holds(joined[v], p) by {
        assert(joined.contains_key(v));
    }
    assert forall|v: Seq<char>| #[trigger] incoming.contains_key(v) implies joined.contains_key(v)
        && forall|p: int| #[trigger] seq_holds(incoming[v], p) ==> seq_holds(joined[v], p) by {
        assert(joined.contains_key(v));
    }
}

/// The value of an expression is well-formed.
pub proof fn lemma_eval_ordered(expr: crate::parse::Expression, env: Env)
    requires
        env_ordered(env),
        eval(expr, env) is Ok,
    ensures
        ordered(eval(expr, env).unwrap()),
{
    match expr {
        crate::parse::Expression::Identifier(name) => {
            lemma_lookup_ordered(env, name@);
        },
        _ => {
            lemma_single_holds(crate::numerical_value_analysis::eval_hull(expr, env).unwrap());
        },
    }
}

/// The variables after the bindings of a declaration are well-formed.
pub proof fn lemma_declare_ordered(declarations: Seq<Declaration>, n: int, env: Env)
    requires
        env_ordered(env),
        declare(declarations, n, env) is Ok,
    ensures
        env_ordered(declare(declarations, n, env).unwrap()),
    decreases n,
{
    if n > 0 {
        lemma_declare_ordered(declarations, n - 1, env);
        let prev = declare(declarations, n - 1, env).unwrap();
        lemma_eval_ordered(declarations[n - 1].initializer, prev);
    }
}

/// The variables after the statement of a node are well-formed.
pub proof fn lemma_transfer_ordered(node: NodeValue, env: Env)
    requires
        env_ordered(env),
        transfer(node, env) is Ok,
    ensures
        env_ordered(transfer(node, env).unwrap().env),
{
    match node {
        NodeValue::VariableDeclaration { declarations } => {
            lemma_declare_ordered(declarations@, declarations@.len() as int, env);
        },
        NodeValue::VariableAssignment { left, right } => {
            lemma_eval_ordered(right, env);
        },
        _ => {},
    }
}

/// The variables narrowed by slices are well-formed.
pub proof fn lemma_narrow_ordered(env: Env, slices: Seq<SliceView>, n: int, label: int)
    requires
        env_ordered(env),
    ensures
        env_ordered(narrow(env, slices, n, label)),
    decreases n,
{
    if n > 0 {
        lemma_narrow_ordered(env, slices, n - 1, label);
        let prev = narrow(env, slices, n - 1, label);
        let s = slices[n - 1];
        lemma_lookup_ordered(prev, s.name);
        lemma_single_holds(s.pass);
        lemma_single_holds(s.fail);
        lemma_intersection_exists(lookup(prev, s.name), single(s.pass));
        lemma_intersection_exists(lookup(prev, s.name), single(s.fail));
    }
}

/// The snapshots only grow on a walk: every node that had a snapshot
/// before the walk has one after it, and that one holds for every variable
/// at least what the snapshot before held.
pub proof fn law_snapshots_grow(
    graph: Graph,
    location: Seq<char>,
    incoming: Env,
    state: State,
    depth: nat,
)
    requires
        env_ordered(incoming),
        history_ordered(state.history),
        visit(graph, location, incoming, state, depth) is Ok,
    ensures
        history_ordered(visit(graph, location, incoming, state, depth).unwrap().history),
        history_le(
            state.history,
            visit(graph, location, incoming, state, depth).unwrap().history,
        ),
    decreases depth, 0int,
{
    if settled(state.history, location, incoming) {
        lemma_history_le_refl(state.history);
    } else {
        let joined = entered(state.history, location, incoming);
        if state.history.contains_key(location) {
            lemma_join_grows(state.history[location], incoming);
        }
        let step = transfer(graph.node(location), joined).unwrap();
        lemma_transfer_ordered(graph.node(location), joined);
        let published = State {
            history: state.history.insert(location, joined),
            findings: state.findings + located(location, step.verdicts),
        };
        assert forall|k: Seq<char>| #[trigger] state.history.contains_key(k)
            implies published.history.contains_key(k) && env_le(
            state.history[k],
            published.history[k],
        ) by {
            if k != location {
                lemma_env_le_refl(state.history[k]);
            }
        }
        law_snapshots_grow_along(
            graph,
            graph.edges(location),
            0,
            step.env,
            step.slices,
            published,
            (depth - 1) as nat,
        );
        lemma_history_le_trans(
            state.history,
            published.history,
            visit(graph, location, incoming, state, depth).unwrap().history,
        );
    }
}

/// The snapshots only grow on a walk along the edges of a node.
pub proof fn law_snapshots_grow_along(
    graph: Graph,
    edges: Seq<Successor>,
    i: int,
    env: Env,
    slices: Seq<SliceView>,
    state: State,
    depth: nat,
)
    requires
        env_ordered(env),
        history_ordered(state.history),
        visit_edges(graph, edges, i, env, slices, state, depth) is Ok,
    ensures
        history_ordered(visit_edges(graph, edges, i, env, slices, state, depth).unwrap().history),
        history_le(
            state.history,
            visit_edges(graph, edges, i, env, slices, state, depth).unwrap().history,
        ),
    decreases depth, edges.len() - i + 1,
{
    if 0 <= i < edges.len() {
        let narrowed = narrow(env, slices, slices.len() as int, edges[i].value as int);
        lemma_narrow_ordered(env, slices, slices.len() as int, edges[i].value as int);
        law_snapshots_grow(graph, edges[i].key@, narrowed, state, depth);
        let next = visit(graph, edges[i].key@, narrowed, state, depth).unwrap();
        law_snapshots_grow_along(graph, edges, i + 1, env, slices, next, depth);
        lemma_history_le_trans(
            state.history,
            next.history,
            visit_edges(graph, edges, i, env, slices, state, depth).unwrap().history,
        );
    } else {
        lemma_history_le_refl(state.history);
    }
}

/// Snapshots hold at least what they hold.
pub proof fn lemma_history_le_refl(h: History)
    ensures
        history_le(h, h),
{
    assert forall|k: Seq<char>| #[trigger] h.contains_key(k) implies h.contains_key(k) && env_le(
        h[k],
        h[k],
    ) by {
        lemma_env_le_refl(h[k]);
    }
}

} // verus!
