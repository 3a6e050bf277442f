//! Tables of variables: copying them, joining a snapshot into them,
//! comparing them, and narrowing them by the slices of a comparison.

use vstd::prelude::*;
use crate::numerical_value::{intersection_of, seq_holds, single, union_of};
use crate::numerical_value_analysis::{
    env_view,
    env_wf,
    lookup,
    lookup_value,
    slice_views,
    Env,
    Scalar,
    SliceView,
    Value,
    VariableValueSlice,
};
use crate::table::Table;

verus! {

/// Whether `b` knows every variable that `a` knows, and holds for each at
/// least the positions that `a` holds for it.
pub open spec fn env_le(a: Env, b: Env) -> bool {
    forall|v: Seq<char>| #[trigger]
        a.contains_key(v) ==> b.contains_key(v) && forall|p: int| #[trigger]
            seq_holds(a[v], p) ==> seq_holds(b[v], p)
}

/// The join of a snapshot with what comes in: the variables of either, and
/// for a variable of both the union of its two values.
pub open spec fn join(snapshot: Env, incoming: Env) -> Env {
    Map::new(
        |k: Seq<char>| snapshot.contains_key(k) || incoming.contains_key(k),
        |k: Seq<char>|
            if snapshot.contains_key(k) && incoming.contains_key(k) {
                union_of(incoming[k], snapshot[k])
            } else if incoming.contains_key(k) {
                incoming[k]
            } else {
                snapshot[k]
            },
    )
}

/// The join with the first `n` entries of the snapshot only.
pub open spec fn join_upto(snapshot: Table<Value>, n: int, incoming: Env) -> Env {
    Map::new(
        |k: Seq<char>|
            incoming.contains_key(k) || (snapshot.contains(k) && snapshot.index_of(k) < n),
        |k: Seq<char>|
            if snapshot.contains(k) && snapshot.index_of(k) < n {
                if incoming.contains_key(k) {
                    union_of(incoming[k], snapshot.at(k)@)
                } else {
                    snapshot.at(k)@
                }
            } else {
                incoming[k]
            },
    )
}

/// The variables narrowed by the first `n` slices in turn. On an edge with
/// the label 1 each slice cuts the value of its variable down to the pass
/// range, on an edge with the label 0 to the fail range, and on any other
/// edge the variables stay as they are.
pub open spec fn narrow(env: Env, slices: Seq<SliceView>, n: int, label: int) -> Env
    decreases n,
{
    if n <= 0 {
        env
    } else {
        let prev = narrow(env, slices, n - 1, label);
        let s = slices[n - 1];
        if label == 1 {
            prev.insert(s.name, intersection_of(lookup(prev, s.name), single(s.pass)))
        } else if label == 0 {
            prev.insert(s.name, intersection_of(lookup(prev, s.name), single(s.fail)))
        } else {
            prev
        }
    }
}

/// What inserting a value does to the view of a table of variables.
pub proof fn lemma_insert_view(
    before: Table<Value>,
    after: Table<Value>,
    key: Seq<char>,
    value: Value,
)
    requires
        after.contains(key),
        after.at(key) == value,
        forall|k: Seq<char>| #[trigger] after.contains(k) <==> (k == key || before.contains(k)),
        forall|k: Seq<char>|
            k != key && before.contains(k) ==> #[trigger] after.at(k) == before.at(k),
    ensures
        env_view(after) == env_view(before).insert(key, value@),
{
    assert(env_view(after) =~= env_view(before).insert(key, value@));
}

/// A copy of the table.
pub fn duplicate_env(t: &Table<Value>) -> (r: Table<Value>)
    requires
        env_wf(*t),
    ensures
        env_wf(r),
        env_view(r) == env_view(*t),
{
    let mut r: Table<Value> = Table::new();
    let n = t.len();
    let mut i: usize = 0;
    while i < n
        invariant
            env_wf(*t),
            env_wf(r),
            n == t.keys().len(),
            i <= n,
            r.keys() == t.keys().subrange(0, i as int),
            r.items().len() == i,
            forall|j: int| 0 <= j < i ==> (#[trigger] r.items()[j])@ == t.items()[j]@,
        decreases n - i,
    {
        let ghost before = r;
        let name = t.name_at(i).clone();
        let item = t.item_at(i).duplicate();
        proof {
            assert(item.wf()) by {
                assert(t.items()[i as int].wf());
            }
            if before.contains(name@) {
                let j = before.index_of(name@);
                assert(t.keys()[j] == t.keys()[i as int]);
            }
        }
        r.insert(name, item);
        proof {
            assert(r.keys() =~= t.keys().subrange(0, i + 1));
            assert forall|j: int| 0 <= j < r.items().len()
                implies (#[trigger] r.items()[j]).wf() by {
                if j < i {
                    assert(before.items()[j].wf());
                }
            }
        }
        i = i + 1;
    }
    proof {
        assert(r.keys() =~= t.keys());
        assert forall|k: Seq<char>| r.contains(k) implies r.at(k)@ == t.at(k)@ by {
            let j = r.index_of(k);
            t.lemma_index(j);
        }
        assert(env_view(r) =~= env_view(*t));
    }
    r
}

/// Joins a snapshot into the variables: a variable of both gets the union
/// of its two values, and a variable of the snapshot alone is taken over.
pub fn join_env(variables: &mut Table<Value>, snapshot: &Table<Value>)
    requires
        env_wf(*old(variables)),
        env_wf(*snapshot),
    ensures
        env_wf(*final(variables)),
        env_view(*final(variables)) == join(env_view(*snapshot), env_view(*old(variables))),
        env_le(env_view(*snapshot), env_view(*final(variables))),
        env_le(env_view(*old(variables)), env_view(*final(variables))),
{
    let ghost incoming = env_view(*variables);
    let ghost start = *variables;
    let n = snapshot.len();
    let mut i: usize = 0;
    proof {
        assert(env_view(*variables) =~= join_upto(*snapshot, 0, incoming));
    }
    while i < n
        invariant
            env_wf(*snapshot),
            env_wf(*variables),
            n == snapshot.keys().len(),
            i <= n,
            incoming == env_view(start),
            env_view(*variables) == join_upto(*snapshot, i as int, incoming),
            env_le(incoming, env_view(*variables)),
            forall|j: int|
                #![trigger snapshot.keys()[j]]
                0 <= j < i ==> variables.contains(snapshot.keys()[j]) && forall|p: int| #[trigger]
                    seq_holds(snapshot.items()[j]@, p) ==> seq_holds(
                        variables.at(snapshot.keys()[j])@,
                        p,
                    ),
        decreases n - i,
    {
        let ghost before = *variables;
        let key = snapshot.name_at(i);
        let value = snapshot.item_at(i);
        proof {
            snapshot.lemma_index(i as int);
            assert(value.wf()) by {
                assert(snapshot.items()[i as int].wf());
            }
        }
        let merged = match variables.find(key) {
            Some(j) => {
                proof {
                    before.lemma_index(j as int);
                    assert(before.items()[j as int].wf());
                    assert(env_view(before).contains_key(key@));
                    assert(incoming.contains_key(key@));
                }
                variables.item_at(j).union(value)
            },
            None => {
                proof {
                    assert(!env_view(before).contains_key(key@));
                    assert(!incoming.contains_key(key@));
                }
                value.duplicate()
            },
        };
        let ghost merged_view = merged@;
        let ghost merged_value = merged;
        proof {
            assert(merged.wf());
        }
        variables.insert(key.clone(), merged);
        proof {
            lemma_insert_view(before, *variables, key@, merged_value);
            // The invariant of the table of variables.
            assert forall|j: int| 0 <= j < variables.items().len()
                implies (#[trigger] variables.items()[j]).wf() by {
                if before.contains(key@) {
                    if j != before.index_of(key@) {
                        assert(before.items()[j].wf());
                    }
                } else {
                    if j < before.items().len() {
                        assert(before.items()[j].wf());
                    }
                }
            }
            // The view is the join with one more entry of the snapshot.
            let m1 = env_view(*variables);
            let m2 = join_upto(*snapshot, i + 1, incoming);
            let m0 = join_upto(*snapshot, i as int, incoming);
            assert(m1 == m0.insert(key@, merged_view));
            assert(snapshot.contains(key@) && snapshot.index_of(key@) == i);
            assert(snapshot.at(key@) == *value);
            assert forall|k: Seq<char>| m1.contains_key(k) <==> m2.contains_key(k) by {
                if snapshot.contains(k) && snapshot.index_of(k) == i {
                    assert(snapshot.keys()[snapshot.index_of(k)] == k);
                }
                assert(m0.contains_key(k) <==> (incoming.contains_key(k) || (snapshot.contains(k)
                    && snapshot.index_of(k) < i)));
            }
            assert forall|k: Seq<char>| m1.contains_key(k) implies m1[k] == m2[k] by {
                if snapshot.contains(k) && snapshot.index_of(k) == i {
                    assert(snapshot.keys()[snapshot.index_of(k)] == k);
                }
                if k == key@ {
                    if incoming.contains_key(k) {
                        assert(m0.contains_key(k));
                        assert(m0[k] == incoming[k]);
                        assert(before.at(k)@ == incoming[k]);
                    }
                } else {
                    assert(m0.contains_key(k));
                    assert(m1[k] == m0[k]);
                }
            }
            assert(m1 =~= m2);
            // Nothing is lost of what came in, nor of the snapshot so far.
            assert forall|v: Seq<char>| #[trigger] incoming.contains_key(v) implies env_view(
                *variables,
            ).contains_key(v) && forall|p: int| #[trigger]
                seq_holds(incoming[v], p) ==> seq_holds(env_view(*variables)[v], p) by {
                assert(env_view(before).contains_key(v));
                if v == key@ {
                    assert forall|p: int| #[trigger] seq_holds(incoming[v], p) implies seq_holds(
                        merged_view,
                        p,
                    ) by {
                        assert(seq_holds(env_view(before)[v], p));
                        assert(merged_value.holds(p));
                    }
                } else {
                    assert forall|p: int| #[trigger] seq_holds(incoming[v], p) implies seq_holds(
                        env_view(*variables)[v],
                        p,
                    ) by {
                        assert(seq_holds(env_view(before)[v], p));
                    }
                }
            }
            assert forall|j: int|
                #![trigger snapshot.keys()[j]]
                0 <= j < i + 1 implies variables.contains(snapshot.keys()[j])
                    && forall|p: int| #[trigger]
                    seq_holds(snapshot.items()[j]@, p) ==> seq_holds(
                        variables.at(snapshot.keys()[j])@,
                        p,
                    ) by {
                let k = snapshot.keys()[j];
                if j < i {
                    assert(before.contains(k));
                    snapshot.lemma_index(j);
                    assert(k != key@);
                    assert forall|p: int| #[trigger] seq_holds(snapshot.items()[j]@, p)
                        implies seq_holds(
                        variables.at(k)@,
                        p,
                    ) by {
                        assert(seq_holds(before.at(k)@, p));
                    }
                } else {
                    assert forall|p: int| #[trigger] seq_holds(snapshot.items()[j]@, p)
                        implies seq_holds(
                        variables.at(k)@,
                        p,
                    ) by {
                        assert(value.holds(p));
                        assert(merged_value.holds(p));
                    }
                }
            }
        }
        i = i + 1;
    }
    proof {
        assert(join_upto(*snapshot, n as int, incoming) =~= join(env_view(*snapshot), incoming));
        assert forall|v: Seq<char>| #[trigger] env_view(*snapshot).contains_key(v) implies env_view(
            *variables,
        ).contains_key(v) && forall|p: int| #[trigger]
            seq_holds(env_view(*snapshot)[v], p) ==> seq_holds(env_view(*variables)[v], p) by {
            let j = snapshot.index_of(v);
            snapshot.lemma_index(j);
            assert(variables.contains(snapshot.keys()[j]));
        }
    }
}

/// Whether the two tables know the same variables with the same values.
pub fn same_env(a: &Table<Value>, b: &Table<Value>) -> (r: bool)
    requires
        env_wf(*a),
        env_wf(*b),
    ensures
        r == (env_view(*a) == env_view(*b)),
{
    let n = a.len();
    let mut i: usize = 0;
    while i < n
        invariant
            env_wf(*a),
            env_wf(*b),
            n == a.keys().len(),
            i <= n,
            forall|j: int|
                #![trigger a.keys()[j]]
                0 <= j < i ==> b.contains(a.keys()[j]) && b.at(a.keys()[j])@ == a.items()[j]@,
        decreases n - i,
    {
        let key = a.name_at(i);
        proof {
            a.lemma_index(i as int);
        }
        match b.get(key) {
            Some(v) => {
                if !v.same(a.item_at(i)) {
                    proof {
                        assert(env_view(*a).contains_key(key@));
                        assert(env_view(*a)[key@] != env_view(*b)[key@]);
                    }
                    return false;
                }
            },
            None => {
                proof {
                    assert(env_view(*a).contains_key(key@));
                    assert(!env_view(*b).contains_key(key@));
                }
                return false;
            },
        }
        i = i + 1;
    }
    let m = b.len();
    let mut j: usize = 0;
    while j < m
        invariant
            env_wf(*a),
            env_wf(*b),
            m == b.keys().len(),
            j <= m,
            forall|l: int| #![trigger b.keys()[l]] 0 <= l < j ==> a.contains(b.keys()[l]),
        decreases m - j,
    {
        let key = b.name_at(j);
        proof {
            b.lemma_index(j as int);
        }
        if a.find(key).is_none() {
            proof {
                assert(env_view(*b).contains_key(key@));
                assert(!env_view(*a).contains_key(key@));
            }
            return false;
        }
        j = j + 1;
    }
    proof {
        assert forall|k: Seq<char>| a.contains(k) implies b.contains(k) && a.at(k)@ == b.at(k)@ by {
            let l = a.index_of(k);
            a.lemma_index(l);
            assert(b.contains(a.keys()[l]));
        }
        assert forall|k: Seq<char>| b.contains(k) implies a.contains(k) by {
            let l = b.index_of(k);
            assert(a.contains(b.keys()[l]));
        }
        assert(env_view(*a) =~= env_view(*b));
    }
    true
}

/// Narrows the variables by the slices in turn, see `narrow`.
pub fn narrow_env(
    variables: &mut Table<Value>,
    slices: &Vec<VariableValueSlice<Scalar>>,
    label: i64,
)
    requires
        env_wf(*old(variables)),
    ensures
        env_wf(*final(variables)),
        env_view(*final(variables)) == narrow(
            env_view(*old(variables)),
            slice_views(slices@),
            slices@.len() as int,
            label as int,
        ),
{
    let ghost start = env_view(*variables);
    let ghost views = slice_views(slices@);
    let n = slices.len();
    let mut i: usize = 0;
    while i < n
        invariant
            env_wf(*variables),
            n == slices@.len(),
            views == slice_views(slices@),
            i <= n,
            env_view(*variables) == narrow(start, views, i as int, label as int),
        decreases n - i,
    {
        let ghost before = *variables;
        let slice = &slices[i];
        assert(views[i as int] == slice@);
        if label == 1 || label == 0 {
            let current = lookup_value(variables, &slice.name);
            let cut = if label == 1 {
                current.intersect_range(&slice.pass)
            } else {
                current.intersect_range(&slice.fail)
            };
            let ghost cut_value = cut;
            variables.insert(slice.name.clone(), cut);
            proof {
                lemma_insert_view(before, *variables, slice.name@, cut_value);
                assert forall|j: int| 0 <= j < variables.items().len() implies (
                #[trigger] variables.items()[j]).wf() by {
                    if before.contains(slice.name@) {
                        if j != before.index_of(slice.name@) {
                            assert(before.items()[j].wf());
                        }
                    } else {
                        if j < before.items().len() {
                            assert(before.items()[j].wf());
                        }
                    }
                }
            }
        }
        i = i + 1;
    }
}

} // verus!
