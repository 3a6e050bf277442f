//! The snapshots that a walk leaves are a fixed point of the program: what
//! the statement of a node makes of its snapshot, narrowed for an edge, is
//! held by the snapshot of the node that the edge leads to.

use vstd::prelude::*;
use crate::environment::{env_le, narrow};
use crate::fixed_point::{
    entered,
    env_ordered,
    history_le,
    history_ordered,
    law_snapshots_grow,
    law_snapshots_grow_along,
    lemma_env_le_refl,
    lemma_env_le_trans,
    lemma_join_grows,
    lemma_narrow_ordered,
    lemma_transfer_ordered,
    settled,
    transfer,
    visit,
    visit_edges,
    History,
    State,
    Step,
};
use crate::numerical_value_analysis::{located, Env};
use crate::parse::{Graph, Successor};

verus! {

/// The variables that are sent along an edge with the label `label`, after
/// a statement that gave `step`.
pub open spec fn sent(step: Step, label: int) -> Env {
    narrow(step.env, step.slices, step.slices.len() as int, label)
}

/// Whether the snapshot of the node `target` holds at least what `env`
/// holds.
pub open spec fn absorbed(history: History, env: Env, target: Seq<char>) -> bool {
    history.contains_key(target) && env_le(env, history[target])
}

/// Whether the node `n` is at rest: the node has a snapshot, its statement
/// can be applied to the snapshot, and what comes of it is held, narrowed
/// for each edge, by the snapshot at the end of that edge.
pub open spec fn stable(graph: Graph, history: History, n: Seq<char>) -> bool {
    &&& history.contains_key(n)
    &&& graph.has_node(n)
    &&& graph.has_edges(n)
    &&& transfer(graph.node(n), history[n]) matches Ok(step) && forall|i: int|
        0 <= i < graph.edges(n).len() ==> absorbed(
            history,
            sent(step, (#[trigger] graph.edges(n)[i]).value as int),
            graph.edges(n)[i].key@,
        )
}

/// Whether the node `n` has a snapshot in `after` that it did not have in
/// `before`.
pub open spec fn differs(before: History, after: History, n: Seq<char>) -> bool {
    after.contains_key(n) && (!before.contains_key(n) || before[n] != after[n])
}

/// Whether every node that was at rest before, or that got a new snapshot,
/// is at rest after.
pub open spec fn rests(graph: Graph, before: History, after: History) -> bool {
    forall|n: Seq<char>|
        #![trigger stable(graph, after, n)]
        (stable(graph, before, n) || differs(before, after, n)) ==> stable(graph, after, n)
}

/// A snapshot that holds what was sent to it still does so when the
/// snapshots have grown.
pub proof fn lemma_absorbed_grows(before: History, after: History, env: Env, target: Seq<char>)
    requires
        absorbed(before, env, target),
        history_le(before, after),
    ensures
        absorbed(after, env, target),
{
    assert(before.contains_key(target));
    lemma_env_le_trans(env, before[target], after[target]);
}

/// A node at rest stays at rest while the snapshots grow and its own
/// snapshot stays as it is.
pub proof fn lemma_stable_grows(graph: Graph, before: History, after: History, n: Seq<char>)
    requires
        stable(graph, before, n),
        history_le(before, after),
        after.contains_key(n),
        after[n] == before[n],
    ensures
        stable(graph, after, n),
{
    let step = transfer(graph.node(n), before[n]).unwrap();
    assert forall|i: int| 0 <= i < graph.edges(n).len() implies absorbed(
        after,
        sent(step, (#[trigger] graph.edges(n)[i]).value as int),
        graph.edges(n)[i].key@,
    ) by {
        lemma_absorbed_grows(
            before,
            after,
            sent(step, graph.edges(n)[i].value as int),
            graph.edges(n)[i].key@,
        );
    }
}

/// Coming to rest carries over from walk to walk.
pub proof fn lemma_rests_trans(graph: Graph, a: History, b: History, c: History)
    requires
        rests(graph, a, b),
        rests(graph, b, c),
        history_le(a, b),
        history_le(b, c),
    ensures
        rests(graph, a, c),
{
    assert forall|n: Seq<char>|
        #![trigger stable(graph, c, n)]
        (stable(graph, a, n) || differs(a, c, n)) implies stable(graph, c, n) by {
        if stable(graph, a, n) || differs(a, b, n) {
            assert(stable(graph, b, n));
        } else {
            // The snapshot of `n` is the same in `a` and `b`, or missing in
            // both, and so it has changed from `b` to `c`.
            if a.contains_key(n) {
                assert(b.contains_key(n));
            }
            assert(differs(b, c, n));
        }
    }
}

/// A walk from a node leaves the snapshot of the node holding what came
/// in, and leaves at rest every node that was at rest or that it has given
/// a new snapshot.
pub proof fn law_visit_rests(
    graph: Graph,
    location: Seq<char>,
    incoming: Env,
    state: State,
    depth: nat,
)
    requires
        env_ordered(incoming),
        history_ordered(state.history),
        visit(graph, location, incoming, state, depth) is Ok,
    ensures
        absorbed(
            visit(graph, location, incoming, state, depth).unwrap().history,
            incoming,
            location,
        ),
        rests(
            graph,
            state.history,
            visit(graph, location, incoming, state, depth).unwrap().history,
        ),
    decreases depth, 0int,
{
    let before = state.history;
    let out = visit(graph, location, incoming, state, depth).unwrap();
    if before.contains_key(location) {
        lemma_join_grows(before[location], incoming);
    }
    if settled(before, location, incoming) {
    } else {
        let joined = entered(before, location, incoming);
        let step = transfer(graph.node(location), joined).unwrap();
        lemma_transfer_ordered(graph.node(location), joined);
        let published = State {
            history: before.insert(location, joined),
            findings: state.findings + located(location, step.verdicts),
        };
        let edges = graph.edges(location);
        assert(history_le(before, published.history)) by {
            assert forall|k: Seq<char>| #[trigger] before.contains_key(k)
                implies published.history.contains_key(k) && env_le(
                before[k],
                published.history[k],
            ) by {
                if k != location {
                    lemma_env_le_refl(before[k]);
                }
            }
        }
        law_snapshots_grow_along(
            graph,
            edges,
            0,
            step.env,
            step.slices,
            published,
            (depth - 1) as nat,
        );
        law_edges_rest(graph, edges, 0, step, published, (depth - 1) as nat);
        assert(absorbed(published.history, incoming, location));
        lemma_absorbed_grows(published.history, out.history, incoming, location);
        assert forall|n: Seq<char>|
            #![trigger stable(graph, out.history, n)]
            (stable(graph, before, n) || differs(before, out.history, n)) implies stable(
            graph,
            out.history,
            n,
        ) by {
            if n == location {
                if out.history[n] == joined {
                    assert forall|i: int| 0 <= i < edges.len() implies absorbed(
                        out.history,
                        sent(step, (#[trigger] edges[i]).value as int),
                        edges[i].key@,
                    ) by {}
                } else {
                    assert(differs(published.history, out.history, n));
                }
            } else {
                if stable(graph, before, n) {
                    lemma_stable_grows(graph, before, published.history, n);
                } else {
                    assert(differs(published.history, out.history, n));
                }
            }
        }
    }
}

/// A walk along the edges of a node, from place `i` on, leaves each of the
/// snapshots at the end of these edges holding what was sent along the
/// edge, and leaves at rest every node that was at rest or that it has
/// given a new snapshot.
pub proof fn law_edges_rest(
    graph: Graph,
    edges: Seq<Successor>,
    i: int,
    step: Step,
    state: State,
    depth: nat,
)
    requires
        0 <= i,
        env_ordered(step.env),
        history_ordered(state.history),
        visit_edges(graph, edges, i, step.env, step.slices, state, depth) is Ok,
    ensures
        forall|j: int|
            i <= j < edges.len() ==> absorbed(
                visit_edges(graph, edges, i, step.env, step.slices, state, depth).unwrap().history,
                sent(step, (#[trigger] edges[j]).value as int),
                edges[j].key@,
            ),
        rests(
            graph,
            state.history,
            visit_edges(graph, edges, i, step.env, step.slices, state, depth).unwrap().history,
        ),
    decreases depth, edges.len() - i + 1,
{
    let out = visit_edges(graph, edges, i, step.env, step.slices, state, depth).unwrap();
    if i < edges.len() {
        let narrowed = sent(step, edges[i].value as int);
        lemma_narrow_ordered(step.env, step.slices, step.slices.len() as int,
            edges[i].value as int);
        let next = visit(graph, edges[i].key@, narrowed, state, depth).unwrap();
        law_snapshots_grow(graph, edges[i].key@, narrowed, state, depth);
        law_visit_rests(graph, edges[i].key@, narrowed, state, depth);
        law_snapshots_grow_along(graph, edges, i + 1, step.env, step.slices, next, depth);
        law_edges_rest(graph, edges, i + 1, step, next, depth);
        lemma_rests_trans(graph, state.history, next.history, out.history);
        assert forall|j: int| i <= j < edges.len() implies absorbed(
            out.history,
            sent(step, (#[trigger] edges[j]).value as int),
            edges[j].key@,
        ) by {
            if j == i {
                lemma_absorbed_grows(next.history, out.history, narrowed, edges[i].key@);
            }
        }
    }
}

/// The snapshots of a walk that starts with no snapshots are a fixed point
/// of the program: every node that the walk has reached is at rest, and
/// the node where the walk started holds what it was started with.
pub proof fn law_walk_reaches_fixed_point(
    graph: Graph,
    location: Seq<char>,
    incoming: Env,
    depth: nat,
)
    requires
        env_ordered(incoming),
        visit(
            graph,
            location,
            incoming,
            State { history: Map::empty(), findings: Seq::empty() },
            depth,
        ) is Ok,
    ensures
        ({
            let out = visit(
                graph,
                location,
                incoming,
                State { history: Map::empty(), findings: Seq::empty() },
                depth,
            ).unwrap();
            &&& absorbed(out.history, incoming, location)
            &&& forall|n: Seq<char>| #[trigger]
                out.history.contains_key(n) ==> stable(graph, out.history, n)
        }),
{
    let start = State { history: Map::<Seq<char>, Env>::empty(), findings: Seq::empty() };
    let out = visit(graph, location, incoming, start, depth).unwrap();
    law_visit_rests(graph, location, incoming, start, depth);
    assert forall|n: Seq<char>| #[trigger] out.history.contains_key(n) implies stable(
        graph,
        out.history,
        n,
    ) by {
        assert(differs(start.history, out.history, n));
    }
}

} // verus!
